use audio_sort::audio::Audio;

/// The name that is shown for the file at `path`.
fn shown_for(path: &str) -> String {
    let error = Audio::from_unreadable(path.to_string()).expect_err("nothing to decode");
    let text = error.message();
    text.strip_prefix("failed to open file: ").expect("the words of the stage").to_string()
}

/// The file name of a plain path, worked out from the rules for components:
/// separators at the end and single dots are left out, and what then follows
/// the last separator is the name, unless it is empty or `..`.
fn expected_name(path: &str) -> String {
    let mut rest: Vec<char> = path.chars().collect();
    loop {
        let n = rest.len();
        if n > 0 && rest[n - 1] == '/' {
            rest.pop();
        } else if n >= 2 && rest[n - 1] == '.' && rest[n - 2] == '/' {
            rest.pop();
        } else {
            break;
        }
    }
    let start = rest.iter().rposition(|c| *c == '/').map_or(0, |at| at + 1);
    let piece: String = rest[start..].iter().collect();
    if piece == "." || piece == ".." {
        String::new()
    } else {
        piece
    }
}

#[test]
fn shown_name_of_an_absolute_path_is_its_last_component() {
    assert_eq!(shown_for("/music/album/song.mp3"), "song.mp3");
}

#[test]
fn shown_name_of_a_path_without_a_name_is_empty() {
    assert_eq!(shown_for(".."), "");
    assert_eq!(shown_for("/"), "");
    assert_eq!(shown_for(""), "");
    assert_eq!(shown_for("."), "");
    assert_eq!(shown_for("a/b/.."), "");
}

#[test]
fn shown_name_leaves_out_what_follows_the_name() {
    assert_eq!(shown_for("/usr/bin/"), "bin");
    assert_eq!(shown_for("tmp/foo.txt"), "foo.txt");
    assert_eq!(shown_for("foo.txt/."), "foo.txt");
    assert_eq!(shown_for("foo.txt/.//"), "foo.txt");
    assert_eq!(shown_for("a/..."), "...");
    assert_eq!(shown_for("a/.b"), ".b");
    assert_eq!(shown_for("a/b."), "b.");
}

#[test]
fn shown_name_of_every_short_plain_path_is_as_expected() {
    let letters = ['a', '.', '/', 'b'];
    let mut paths = vec![String::new()];
    let mut from = 0;
    for _ in 0..6 {
        let until = paths.len();
        for i in from..until {
            for letter in letters {
                let mut longer = paths[i].clone();
                longer.push(letter);
                paths.push(longer);
            }
        }
        from = until;
    }
    assert_eq!(paths.len(), 1 + 4 + 16 + 64 + 256 + 1024 + 4096);
    for path in paths {
        if path.starts_with("//") {
            continue;
        }
        assert_eq!(shown_for(&path), expected_name(&path), "for the path {:?}", path);
    }
}
