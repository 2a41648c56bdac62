use blink::count_segments;
use blink::split_segments;

#[test]
fn wildcard_matches_one_segment() {
    assert!(blink::matcher::matches("/a/:id/b", "/a/123/b"));
    assert!(!blink::matcher::matches("/a/:id/b", "/a/b"));
    assert!(!blink::matcher::matches("/a/:id/b", "/a/1/2/b"));
}

#[test]
fn literal_segments_must_be_equal() {
    assert!(blink::matcher::matches("/a/b", "/a/b"));
    assert!(!blink::matcher::matches("/a/b", "/a/c"));
    assert!(!blink::matcher::matches("/x", "/:x"));
}

#[test]
fn wildcard_matches_wildcard_looking_segment() {
    assert!(blink::matcher::matches("/:x", "/:y"));
    assert!(blink::matcher::matches("/:x", "/:x"));
}

#[test]
fn differing_segment_counts_never_match() {
    assert!(!blink::matcher::matches("/a/b", "/a"));
    assert!(!blink::matcher::matches("/a", "/a/b"));
    assert!(!blink::matcher::matches("", "/"));
}

#[test]
fn no_trailing_slash_coalescing() {
    assert!(!blink::matcher::matches("/a/", "/a"));
    assert!(!blink::matcher::matches("/a", "/a/"));
    assert!(blink::matcher::matches("/a/", "/a/"));
}

#[test]
fn empty_strings_match_each_other() {
    assert!(blink::matcher::matches("", ""));
}

#[test]
fn wildcard_matches_empty_segment() {
    assert!(blink::matcher::matches("/a/:id", "/a/"));
}

#[test]
fn segment_counts() {
    assert_eq!(count_segments(""), 1);
    assert_eq!(count_segments("/"), 2);
    assert_eq!(count_segments("/a"), 2);
    assert_eq!(count_segments("/a/"), 3);
    assert_eq!(count_segments("/a/b"), 3);
    assert_eq!(count_segments("a/b/c"), 3);
}

#[test]
fn split_is_plain_slash_split() {
    let segs = split_segments("/a/b");
    assert_eq!(segs, vec!["".to_string(), "a".to_string(), "b".to_string()]);
    let segs = split_segments("");
    assert_eq!(segs, vec!["".to_string()]);
    let segs = split_segments("a//b");
    assert_eq!(segs, vec!["a".to_string(), "".to_string(), "b".to_string()]);
}
