use snx::http::routing::pattern::{
    match_segments, pattern_has_wildcard, pattern_is_static, segment_is_capture,
    segment_is_wildcard,
};

#[test]
fn capture_begins_with_a_colon() {
    assert!(segment_is_capture(":id"));
    assert!(segment_is_capture(":"));
    assert!(segment_is_capture("::"));
    assert!(!segment_is_capture("id"));
    assert!(!segment_is_capture("i:d"));
    assert!(!segment_is_capture(""));
    assert!(!segment_is_capture("*"));
}

#[test]
fn wildcard_is_exactly_a_star() {
    assert!(segment_is_wildcard("*"));
    assert!(!segment_is_wildcard("**"));
    assert!(!segment_is_wildcard("*a"));
    assert!(!segment_is_wildcard(""));
    assert!(!segment_is_wildcard(":"));
}

#[test]
fn static_pattern_has_only_literals() {
    assert!(pattern_is_static(&vec![]));
    assert!(pattern_is_static(&vec!["posts", "1"]));
    assert!(pattern_is_static(&vec!["a:b", "c*"]));
    assert!(!pattern_is_static(&vec!["posts", ":id"]));
    assert!(!pattern_is_static(&vec![":id", "posts"]));
    assert!(!pattern_is_static(&vec!["posts", "*"]));
}

#[test]
fn wildcard_is_found_anywhere_in_a_pattern() {
    assert!(!pattern_has_wildcard(&vec![]));
    assert!(!pattern_has_wildcard(&vec!["posts", ":id", "a*"]));
    assert!(pattern_has_wildcard(&vec!["*"]));
    assert!(pattern_has_wildcard(&vec!["posts", "*", "x"]));
    assert!(pattern_has_wildcard(&vec!["posts", "x", "*"]));
}

#[test]
fn match_segments_extracts_parameters() {
    let pattern = vec!["posts", ":id", "by", ":author"];
    let request = vec!["posts", "3", "by", "ann"];
    let params = match_segments(&pattern, &request).unwrap();
    assert_eq!(params.len(), 2);
    assert_eq!(params.get("id"), Some(&"3".to_string()));
    assert_eq!(params.get("author"), Some(&"ann".to_string()));
    assert_eq!(params.get("posts"), None);
}

#[test]
fn match_segments_of_literals_extracts_nothing() {
    let params = match_segments(&vec!["posts", "1"], &vec!["posts", "1"]).unwrap();
    assert_eq!(params.len(), 0);
    assert!(match_segments(&vec![], &vec![]).unwrap().is_empty());
}

#[test]
fn match_segments_rejects_other_literals_and_lengths() {
    assert!(match_segments(&vec!["posts", "1"], &vec!["posts", "2"]).is_none());
    assert!(match_segments(&vec!["posts", ":id"], &vec!["users", "2"]).is_none());
    assert!(match_segments(&vec!["posts", ":id"], &vec!["posts"]).is_none());
    assert!(match_segments(&vec!["posts", ":id"], &vec!["posts", "1", "2"]).is_none());
    assert!(match_segments(&vec![], &vec!["posts"]).is_none());
    assert!(match_segments(&vec![":id"], &vec![]).is_none());
}

#[test]
fn match_segments_lets_the_last_capture_of_a_name_win() {
    let params = match_segments(&vec![":x", "mid", ":x"], &vec!["first", "mid", "last"]).unwrap();
    assert_eq!(params.len(), 1);
    assert_eq!(params.get("x"), Some(&"last".to_string()));
}
