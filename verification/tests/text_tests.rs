use seed_outliner::text::{join_range, split_graphemes};

fn parts(items: &[&str]) -> Vec<String> {
    items.iter().map(|s| s.to_string()).collect()
}

#[test]
fn split_graphemes_at_each_place() {
    let gs = parts(&["a\u{310}", "e\u{301}", "o\u{308}\u{332}"]);
    assert_eq!(split_graphemes(&gs, 0), (String::new(), "a\u{310}e\u{301}o\u{308}\u{332}".to_string()));
    assert_eq!(split_graphemes(&gs, 2), ("a\u{310}e\u{301}".to_string(), "o\u{308}\u{332}".to_string()));
    assert_eq!(split_graphemes(&gs, 3), ("a\u{310}e\u{301}o\u{308}\u{332}".to_string(), String::new()));
}

#[test]
fn join_range_joins_the_middle() {
    let gs = parts(&["ab", "c", "", "de"]);
    assert_eq!(join_range(&gs, 1, 4), "cde");
    assert_eq!(join_range(&gs, 2, 2), "");
}
