use audio_sort::loudness::Loudness;

fn mean(score: &Loudness) -> f64 {
    if score.count == 0 {
        0.0
    } else {
        score.total as f64 / score.count as f64
    }
}

#[test]
fn score_of_minimal_unit_is_sixty_two_and_a_half() {
    let score = Loudness::of(&[0, 100, -100, 50]);
    assert_eq!(score.total, 250);
    assert_eq!(score.count, 4);
    assert_eq!(mean(&score), 62.5);
}

#[test]
fn score_is_the_same_on_every_call() {
    let samples: Vec<i16> = vec![3, -7, 12000, -32768, 32767, 0, 1];
    let first = Loudness::of(&samples);
    let second = Loudness::of(&samples);
    assert_eq!(first.total, second.total);
    assert_eq!(first.count, second.count);
    assert_eq!(first.total, 3 + 7 + 12000 + 32768 + 32767 + 1);
    assert_eq!(first.count, 7);
}

#[test]
fn score_of_no_samples_is_zero() {
    let score = Loudness::of(&[]);
    assert_eq!(score.total, 0);
    assert_eq!(score.count, 0);
    assert!(score.is_zero());
    let value = mean(&score);
    assert!(value.is_finite());
    assert_eq!(value, 0.0);
}

#[test]
fn score_of_no_samples_sorts_with_silence() {
    let empty = Loudness::of(&[]);
    let silence = Loudness::of(&[0, 0, 0]);
    let quiet = Loudness::of(&[1]);
    assert!(empty.le(&silence));
    assert!(silence.le(&empty));
    assert!(empty.le(&quiet));
    assert!(!quiet.le(&empty));
    assert!(silence.is_zero());
    assert!(!quiet.is_zero());
}

#[test]
fn most_negative_sample_counts_in_full() {
    let score = Loudness::of(&[i16::MIN, i16::MIN]);
    assert_eq!(score.total, 65536);
    assert_eq!(score.count, 2);
}

#[test]
fn scores_compare_as_fractions() {
    // 250 / 4 = 62.5 and 125 / 2 = 62.5
    let a = Loudness { total: 250, count: 4 };
    let b = Loudness { total: 125, count: 2 };
    assert!(a.le(&b));
    assert!(b.le(&a));
    // 187 / 3 = 62.33.. lies below, 188 / 3 = 62.66.. lies above
    let below = Loudness { total: 187, count: 3 };
    let above = Loudness { total: 188, count: 3 };
    assert!(below.le(&a));
    assert!(!a.le(&below));
    assert!(a.le(&above));
    assert!(!above.le(&a));
}

#[test]
fn scores_compare_without_overflow() {
    let big = Loudness { total: u128::MAX, count: usize::MAX };
    let bigger = Loudness { total: u128::MAX, count: usize::MAX - 1 };
    assert!(big.le(&bigger));
    assert!(!bigger.le(&big));
    assert!(big.le(&big));
}
