//! Ordering audio records by loudness.

use vstd::prelude::*;
use crate::audio::Audio;
use crate::loudness::{lemma_at_most_transitive, lemma_scores_comparable, Loudness};

verus! {

/// The loudness score of a record.
pub open spec fn score_of(record: Audio) -> Loudness {
    Loudness::of_samples(record@.pcm)
}

/// A record with score `a` that stood at place `ia` comes before a record
/// with score `b` that stood at place `ib`: the quieter one first, and of two
/// that are equally loud the one that stood first.
pub open spec fn comes_before(a: Loudness, ia: int, b: Loudness, ib: int) -> bool {
    a.below(b) || (a.same_as(b) && ia < ib)
}

/// `after` holds the records of `before` in ascending order of loudness,
/// ties in the order of `before`; `origin[i]` is the place in `before` of the
/// record at place `i` of `after`.
pub open spec fn sorted_from(before: Seq<Audio>, after: Seq<Audio>, origin: Seq<int>) -> bool {
    &&& after.len() == before.len()
    &&& origin.len() == before.len()
    &&& forall|i: int|
        0 <= i < after.len() ==> 0 <= #[trigger] origin[i] < before.len() && after[i]
            == before[origin[i]]
    &&& forall|i: int, j: int|
        0 <= i < j < after.len() ==> comes_before(
            score_of(#[trigger] after[i]),
            origin[i],
            score_of(#[trigger] after[j]),
            origin[j],
        )
}

/// `after` is `before` sorted by loudness, ascending and stable.
pub open spec fn stably_sorted(before: Seq<Audio>, after: Seq<Audio>) -> bool {
    exists|origin: Seq<int>| sorted_from(before, after, origin)
}

/// In a sorted list no record is louder than one that follows it.
pub proof fn lemma_sorted_is_ascending(before: Seq<Audio>, after: Seq<Audio>, i: int, j: int)
    requires
        stably_sorted(before, after),
        0 <= i <= j < after.len(),
    ensures
        score_of(after[i]).at_most(score_of(after[j])),
{
    let origin = choose|origin: Seq<int>| sorted_from(before, after, origin);
    if i < j {
        assert(comes_before(score_of(after[i]), origin[i], score_of(after[j]), origin[j]));
    }
    lemma_scores_comparable(score_of(after[i]), score_of(after[j]));
}

/// In a sorted list two records that are equally loud stand in the order in
/// which they stood before.
pub proof fn lemma_sorted_keeps_ties(
    before: Seq<Audio>,
    after: Seq<Audio>,
    origin: Seq<int>,
    i: int,
    j: int,
)
    requires
        sorted_from(before, after, origin),
        0 <= i < j < after.len(),
        score_of(after[i]).same_as(score_of(after[j])),
    ensures
        origin[i] < origin[j],
{
    assert(comes_before(score_of(after[i]), origin[i], score_of(after[j]), origin[j]));
}

/// A sorted list holds each record of the list that it was sorted from, once.
pub proof fn lemma_sorted_is_rearrangement(before: Seq<Audio>, after: Seq<Audio>, origin: Seq<int>)
    requires
        sorted_from(before, after, origin),
    ensures
        origin.no_duplicates(),
        forall|place: int| 0 <= place < before.len() ==> origin.contains(place),
{
    let n = before.len() as int;
    assert forall|i: int, j: int|
        0 <= i < origin.len() && 0 <= j < origin.len() && i != j implies origin[i] != origin[j] by {
        if i < j {
            assert(comes_before(score_of(after[i]), origin[i], score_of(after[j]), origin[j]));
        } else {
            assert(comes_before(score_of(after[j]), origin[j], score_of(after[i]), origin[i]));
        }
    }
    origin.unique_seq_to_set();
    vstd::set_lib::lemma_int_range(0, n);
    let places = vstd::set_lib::set_int_range(0, n);
    assert forall|place: int| origin.to_set().contains(place) implies places.contains(place) by {
        let at = choose|at: int| 0 <= at < origin.len() && origin[at] == place;
        assert(0 <= origin[at] < n);
    }
    vstd::set_lib::lemma_len_subset(origin.to_set(), places);
    vstd::set_lib::lemma_subset_equality(origin.to_set(), places);
    assert forall|place: int| 0 <= place < before.len() implies origin.contains(place) by {
        assert(places.contains(place));
        assert(origin.to_set().contains(place));
    }
}

/// Two sorted lists of the same records hold the same record at each place.
proof fn lemma_same_origin(
    before: Seq<Audio>,
    first: Seq<Audio>,
    first_origin: Seq<int>,
    second: Seq<Audio>,
    second_origin: Seq<int>,
    i: int,
)
    requires
        sorted_from(before, first, first_origin),
        sorted_from(before, second, second_origin),
        0 <= i < before.len(),
    ensures
        first_origin[i] == second_origin[i],
    decreases i,
{
    assert forall|k: int| 0 <= k < i implies first_origin[k] == second_origin[k] by {
        lemma_same_origin(before, first, first_origin, second, second_origin, k);
    }
    lemma_sorted_is_rearrangement(before, first, first_origin);
    lemma_sorted_is_rearrangement(before, second, second_origin);
    let p = first_origin[i];
    let q = second_origin[i];
    if p != q {
        lemma_scores_comparable(score_of(before[p]), score_of(before[q]));
        lemma_scores_comparable(score_of(before[q]), score_of(before[p]));
        if comes_before(score_of(before[p]), p, score_of(before[q]), q) {
            // `p` stands somewhere in the second list, and only after `q`.
            assert(second_origin.contains(p));
            let m = choose|m: int| 0 <= m < second_origin.len() && second_origin[m] == p;
            if m < i {
                assert(first_origin[m] == second_origin[m]);
                assert(first_origin[m] == first_origin[i]);
            } else {
                assert(comes_before(
                    score_of(second[i]),
                    second_origin[i],
                    score_of(second[m]),
                    second_origin[m],
                ));
            }
        } else {
            assert(comes_before(score_of(before[q]), q, score_of(before[p]), p));
            assert(first_origin.contains(q));
            let m = choose|m: int| 0 <= m < first_origin.len() && first_origin[m] == q;
            if m < i {
                assert(first_origin[m] == second_origin[m]);
                assert(second_origin[m] == second_origin[i]);
            } else {
                assert(comes_before(
                    score_of(first[i]),
                    first_origin[i],
                    score_of(first[m]),
                    first_origin[m],
                ));
            }
        }
    }
}

/// There is one sorted list for each list of records.
pub proof fn lemma_sorted_is_unique(before: Seq<Audio>, first: Seq<Audio>, second: Seq<Audio>)
    requires
        stably_sorted(before, first),
        stably_sorted(before, second),
    ensures
        first == second,
{
    let first_origin = choose|origin: Seq<int>| sorted_from(before, first, origin);
    let second_origin = choose|origin: Seq<int>| sorted_from(before, second, origin);
    assert forall|i: int| 0 <= i < first.len() implies first[i] == second[i] by {
        lemma_same_origin(before, first, first_origin, second, second_origin, i);
    }
    assert(first =~= second);
}

/// A list of at most one record is sorted as it stands.
pub proof fn lemma_short_list_is_sorted(records: Seq<Audio>)
    requires
        records.len() <= 1,
    ensures
        stably_sorted(records, records),
{
    let origin = Seq::new(records.len(), |i: int| i);
    assert(sorted_from(records, records, origin));
}

/// Records with the same samples have the same score.
pub proof fn lemma_score_depends_on_samples(a: Audio, b: Audio)
    requires
        a@.pcm == b@.pcm,
    ensures
        score_of(a) == score_of(b),
{
}

/// Where the elements of a sequence stand after the one at `i` has moved
/// back to `j`.
proof fn lemma_moved_back<T>(s: Seq<T>, i: int, j: int)
    requires
        0 <= j <= i < s.len(),
    ensures
        s.remove(i).insert(j, s[i]).len() == s.len(),
        forall|k: int| 0 <= k < j ==> s.remove(i).insert(j, s[i])[k] == s[k],
        s.remove(i).insert(j, s[i])[j] == s[i],
        forall|k: int| j < k <= i ==> s.remove(i).insert(j, s[i])[k] == s[k - 1],
        forall|k: int| i < k < s.len() ==> s.remove(i).insert(j, s[i])[k] == s[k],
{
}

/// How the loudness of `a` stands to that of `b`: the comparator by which
/// records are ordered.
pub fn compare_by_loudness(a: &Audio, b: &Audio) -> (order: core::cmp::Ordering)
    ensures
        order == core::cmp::Ordering::Less <==> score_of(*a).below(score_of(*b)),
        order == core::cmp::Ordering::Equal <==> score_of(*a).same_as(score_of(*b)),
        order == core::cmp::Ordering::Greater <==> score_of(*b).below(score_of(*a)),
{
    let left = a.mean_absolute();
    let right = b.mean_absolute();
    left.compare(&right)
}

/// Sorts the records by loudness, the quietest first. Records that are
/// equally loud keep the order in which they stood.
pub fn sort_by_loudness(records: &mut Vec<Audio>)
    ensures
        stably_sorted(old(records)@, final(records)@),
{
    let n: usize = records.len();
    // The score of each record, worked out once; `keys` moves as `records` does.
    let mut keys: Vec<Loudness> = Vec::new();
    let mut k: usize = 0;
    while k < n
        invariant
            n == records@.len(),
            records@ == old(records)@,
            k <= n,
            keys@.len() == k,
            forall|i: int| 0 <= i < k ==> keys@[i] == score_of(records@[i]),
        decreases n - k,
    {
        let key = records[k].mean_absolute();
        keys.push(key);
        k = k + 1;
    }
    let ghost before = old(records)@;
    let ghost mut origin: Seq<int> = Seq::new(n as nat, |i: int| i);
    // The first `i` records are sorted; the others stand where they stood.
    let mut i: usize = 0;
    while i < n
        invariant
            before == old(records)@,
            i <= n,
            records@.len() == n,
            keys@.len() == n,
            origin.len() == n,
            before.len() == n,
            forall|k: int| 0 <= k < n ==> keys@[k] == score_of(#[trigger] records@[k]),
            forall|k: int|
                0 <= k < n ==> 0 <= #[trigger] origin[k] < n && records@[k] == before[origin[k]],
            forall|k: int| 0 <= k < i ==> #[trigger] origin[k] < i,
            forall|k: int| i <= k < n ==> #[trigger] origin[k] == k,
            forall|a: int, b: int|
                0 <= a < b < i ==> comes_before(
                    #[trigger] keys@[a],
                    origin[a],
                    #[trigger] keys@[b],
                    origin[b],
                ),
        decreases n - i,
    {
        // Record `i` goes behind the last record before it that is not louder.
        let key: Loudness = keys[i];
        let mut j: usize = i;
        let mut placed: bool = false;
        while j > 0 && !placed
            invariant
                j <= i,
                i < n,
                keys@.len() == n,
                key == keys@[i as int],
                forall|k: int| j <= k < i ==> key.below(#[trigger] keys@[k]),
                placed ==> j > 0 && keys@[j - 1].at_most(key),
            decreases j + (if placed { 0int } else { 1int }),
        {
            if keys[j - 1].le(&key) {
                placed = true;
            } else {
                proof {
                    lemma_scores_comparable(keys@[j - 1], key);
                }
                j = j - 1;
            }
        }
        proof {
            assert forall|a: int| 0 <= a < j implies (#[trigger] keys@[a]).at_most(key) by {
                if a < j - 1 {
                    lemma_scores_comparable(keys@[a], keys@[j - 1]);
                    lemma_at_most_transitive(keys@[a], keys@[j - 1], key);
                }
            }
            lemma_moved_back(records@, i as int, j as int);
            lemma_moved_back(keys@, i as int, j as int);
            lemma_moved_back(origin, i as int, j as int);
            assert forall|a: int| 0 <= a < j implies comes_before(
                #[trigger] keys@[a],
                origin[a],
                key,
                i as int,
            ) by {
                lemma_scores_comparable(keys@[a], key);
            }
        }
        let ghost prior_keys = keys@;
        let ghost prior_origin = origin;
        if j < i {
            let record = records.remove(i);
            records.insert(j, record);
            let moved = keys.remove(i);
            keys.insert(j, moved);
        } else {
            assert(records@ =~= records@.remove(i as int).insert(j as int, records@[i as int]));
            assert(keys@ =~= keys@.remove(i as int).insert(j as int, keys@[i as int]));
        }
        proof {
            origin = origin.remove(i as int).insert(j as int, i as int);
            assert forall|a: int, b: int| 0 <= a < b < i + 1 implies comes_before(
                #[trigger] keys@[a],
                origin[a],
                #[trigger] keys@[b],
                origin[b],
            ) by {
                let pa = if a < j { a } else if a == j { i as int } else { a - 1 };
                let pb = if b < j { b } else if b == j { i as int } else { b - 1 };
                assert(keys@[a] == prior_keys[pa] && origin[a] == prior_origin[pa]);
                assert(keys@[b] == prior_keys[pb] && origin[b] == prior_origin[pb]);
                if a == j {
                    assert(key.below(prior_keys[pb]));
                } else if b == j {
                    assert(comes_before(prior_keys[pa], prior_origin[pa], key, i as int));
                } else {
                    assert(comes_before(
                        prior_keys[pa],
                        prior_origin[pa],
                        prior_keys[pb],
                        prior_origin[pb],
                    ));
                }
            }
        }
        i = i + 1;
    }
    proof {
        assert forall|a: int, b: int| 0 <= a < b < records@.len() implies comes_before(
            score_of(#[trigger] records@[a]),
            origin[a],
            score_of(#[trigger] records@[b]),
            origin[b],
        ) by {
            assert(comes_before(keys@[a], origin[a], keys@[b], origin[b]));
        }
        assert(sorted_from(before, records@, origin));
    }
}

} // verus!
