use genre_tagger::tags::{copy_tags, sort_dedup, str_less};

fn strings(items: &[&str]) -> Vec<String> {
    items.iter().map(|s| s.to_string()).collect()
}

#[test]
fn order_is_lexicographic() {
    assert!(str_less("jazz", "rock"));
    assert!(!str_less("rock", "jazz"));
    assert!(!str_less("rock", "rock"));
    assert!(str_less("", "a"));
    assert!(!str_less("a", ""));
    assert!(!str_less("", ""));
    assert!(str_less("rock", "rock and roll"));
    assert!(str_less("Rock", "rock"));
    assert!(str_less("z", "é"));
}

#[test]
fn order_agrees_with_the_standard_library() {
    let words = ["", "a", "ab", "b", "B", "é", "e", "日本", "z", "zz", "\u{10ffff}", "\u{ffff}"];
    for a in words {
        for b in words {
            assert_eq!(str_less(a, b), a < b, "{:?} < {:?}", a, b);
        }
    }
}

#[test]
fn sort_dedup_sorts_and_drops_duplicates() {
    assert_eq!(
        sort_dedup(strings(&["rock", "jazz", "rock", "blues", "jazz"])),
        strings(&["blues", "jazz", "rock"])
    );
    assert_eq!(sort_dedup(strings(&[])), strings(&[]));
    assert_eq!(sort_dedup(strings(&["pop"])), strings(&["pop"]));
    assert_eq!(sort_dedup(strings(&["b", "a", "b", "a"])), strings(&["a", "b"]));
}

#[test]
fn sort_dedup_agrees_with_sort_and_dedup() {
    let lists = [
        strings(&["rock", "indie rock", "rock", "alt", "Rock", ""]),
        strings(&["c", "b", "a"]),
        strings(&["x", "x", "x"]),
    ];
    for list in lists {
        let mut expected = list.clone();
        expected.sort();
        expected.dedup();
        assert_eq!(sort_dedup(list), expected);
    }
}

#[test]
fn sort_dedup_is_idempotent() {
    let once = sort_dedup(strings(&["rock", "jazz", "rock"]));
    let twice = sort_dedup(once.clone());
    assert_eq!(twice, once);
    assert_eq!(sort_dedup(strings(&["a", "b", "c"])), strings(&["a", "b", "c"]));
}

#[test]
fn copy_tags_copies() {
    let tags = strings(&["rock", "jazz"]);
    assert_eq!(copy_tags(&tags), tags);
}
