use rcdu::glob;

#[test]
fn basics() {
    assert!(glob::matches("node_modules", "node_modules"));
    assert!(!glob::matches("node_modules", "node_module"));
    assert!(glob::matches("*.log", "error.log"));
    assert!(glob::matches("*.log", ".log"));
    assert!(!glob::matches("*.log", "log.txt"));
    assert!(glob::matches("*cache*", "my_cache_dir"));
    assert!(glob::matches("file?.txt", "file1.txt"));
    assert!(!glob::matches("file?.txt", "file12.txt"));
    assert!(glob::matches("*", "anything"));
    assert!(glob::matches("[abc]at", "cat"));
    assert!(!glob::matches("[abc]at", "rat"));
    assert!(glob::matches("[a-z]*", "hello"));
    assert!(glob::matches("[!0-9]*", "abc"));
    assert!(!glob::matches("[!0-9]*", "9abc"));
}

#[test]
fn stars_match_any_run() {
    assert!(glob::matches("a*b*c", "axxbyyc"));
    assert!(glob::matches("a*b*c", "abc"));
    assert!(!glob::matches("a*b*c", "acb"));
    assert!(glob::matches("**", ""));
    assert!(glob::matches("", ""));
    assert!(!glob::matches("", "x"));
    assert!(!glob::matches("?", ""));
}

#[test]
fn negated_classes_admit_the_rest() {
    for body in ["a", "abc", "a-f0", "-", "x-", "b-a"] {
        for c in ["a", "b", "f", "-", "x", "0", "!", "^", "é"] {
            let name = format!("{c}z");
            let plain = glob::matches(&format!("[{body}]z"), &name);
            assert_eq!(glob::matches(&format!("[!{body}]z"), &name), !plain, "{body} {c}");
            assert_eq!(glob::matches(&format!("[^{body}]z"), &name), !plain, "{body} {c}");
        }
    }
}

#[test]
fn classes_end_at_their_bracket() {
    let pattern: Vec<char> = "x[!a-c]yz".chars().collect();
    assert_eq!(glob::match_class(&pattern, 1, 'b'), (false, 7));
    assert_eq!(glob::match_class(&pattern, 1, 'd'), (true, 7));
    let plain: Vec<char> = "[a-c]".chars().collect();
    assert_eq!(glob::match_class(&plain, 0, 'b'), (true, 5));
    assert_eq!(glob::match_class(&plain, 0, 'd'), (false, 5));
}
