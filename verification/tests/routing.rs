use blink::Method;
use blink::RouteTable;

#[test]
fn exact_match_returns_registered_handler() {
    let mut t: RouteTable<u64> = RouteTable::new();
    t.register(Method::Get, "/users".to_string(), 1);
    t.register(Method::Get, "/posts".to_string(), 2);
    let path = "/users".to_string();
    assert_eq!(t.dispatch(Method::Get, &path), Some(&1));
    let path = "/posts".to_string();
    assert_eq!(t.dispatch(Method::Get, &path), Some(&2));
}

#[test]
fn exact_match_beats_wildcard() {
    let mut t: RouteTable<u64> = RouteTable::new();
    t.register(Method::Get, "/a/:id".to_string(), 10);
    t.register(Method::Get, "/a/b".to_string(), 20);
    let path = "/a/b".to_string();
    assert_eq!(t.dispatch(Method::Get, &path), Some(&20));
    let path = "/a/c".to_string();
    assert_eq!(t.dispatch(Method::Get, &path), Some(&10));
}

#[test]
fn last_registration_wins() {
    let mut t: RouteTable<u64> = RouteTable::new();
    t.register(Method::Get, "/x".to_string(), 1);
    t.register(Method::Get, "/x".to_string(), 2);
    let path = "/x".to_string();
    assert_eq!(t.dispatch(Method::Get, &path), Some(&2));
    assert_eq!(t.exact_lookup(Method::Get, &path), Some(&2));
}

#[test]
fn method_must_match() {
    let mut t: RouteTable<u64> = RouteTable::new();
    t.register(Method::Get, "/x".to_string(), 1);
    let path = "/x".to_string();
    assert_eq!(t.dispatch(Method::Post, &path), None);
    assert_eq!(t.exact_lookup(Method::Post, &path), None);
}

#[test]
fn exact_lookup_ignores_wildcards() {
    let mut t: RouteTable<u64> = RouteTable::new();
    t.register(Method::Get, "/a/:id".to_string(), 1);
    let path = "/a/42".to_string();
    assert_eq!(t.exact_lookup(Method::Get, &path), None);
    assert_eq!(t.dispatch(Method::Get, &path), Some(&1));
}

#[test]
fn empty_table_finds_nothing() {
    let t: RouteTable<u64> = RouteTable::new();
    let path = "/x".to_string();
    assert_eq!(t.dispatch(Method::Get, &path), None);
}

#[test]
fn empty_pattern_is_accepted() {
    let mut t: RouteTable<u64> = RouteTable::new();
    t.register(Method::Get, "".to_string(), 7);
    let path = "".to_string();
    assert_eq!(t.dispatch(Method::Get, &path), Some(&7));
}

#[test]
fn entries_for_lists_routes_of_one_method() {
    let mut t: RouteTable<u64> = RouteTable::new();
    t.register(Method::Get, "/a".to_string(), 1);
    t.register(Method::Get, "/b".to_string(), 2);
    t.register(Method::Post, "/a".to_string(), 3);
    let entries = t.entries_for(Method::Get);
    assert_eq!(entries.len(), 2);
    let mut patterns: Vec<&str> = entries.iter().map(|e| e.0.as_str()).collect();
    patterns.sort();
    assert_eq!(patterns, vec!["/a", "/b"]);
    for (pattern, handler) in entries {
        if pattern == "/a" {
            assert_eq!(*handler, 1);
        } else {
            assert_eq!(*handler, 2);
        }
    }
}

#[test]
fn repeated_dispatch_is_stable() {
    let mut t: RouteTable<u64> = RouteTable::new();
    t.register(Method::Get, "/a/:id".to_string(), 1);
    t.register(Method::Get, "/a/b".to_string(), 2);
    let path = "/a/q".to_string();
    let first = t.dispatch(Method::Get, &path);
    for _ in 0..16 {
        assert_eq!(t.dispatch(Method::Get, &path), first);
    }
}

#[test]
fn end_to_end_parameterized_routes() {
    let mut t: RouteTable<u64> = RouteTable::new();
    t.register(Method::Get, "/test/:param/test2".to_string(), 1);
    t.register(Method::Post, "/test/:param/test2".to_string(), 2);
    t.register(Method::Post, "/test/:user/test2".to_string(), 3);

    let path = "/test/42/test2".to_string();
    assert_eq!(t.dispatch(Method::Get, &path), Some(&1));

    let r = t.dispatch(Method::Post, &path);
    assert!(r == Some(&2) || r == Some(&3));

    assert_eq!(t.dispatch(Method::Delete, &path), None);
}
