use russdns::blocklist::Blocklist;
use russdns::shared::SharedBlocklist;

fn list(names: &[&str]) -> Blocklist {
    let lines: Vec<String> = names.iter().map(|s| s.to_string()).collect();
    Blocklist::from_lines(&lines)
}

#[test]
fn test_subdomain_matching() {
    let blocklist = list(&["example.com"]);

    assert!(blocklist.is_blocked("example.com"));
    assert!(blocklist.is_blocked("www.example.com"));
    assert!(blocklist.is_blocked("api.sub.example.com"));
    assert!(!blocklist.is_blocked("example.org"));
    assert!(!blocklist.is_blocked("com"));
}

#[test]
fn parent_of_listed_name_is_not_blocked() {
    let blocklist = list(&["sub.example.com"]);
    assert!(blocklist.is_blocked("a.sub.example.com"));
    assert!(!blocklist.is_blocked("example.com"));
    assert!(!blocklist.is_blocked("other.example.com"));
}

#[test]
fn case_and_trailing_dot_are_ignored() {
    let blocklist = list(&["example.com"]);
    assert_eq!(blocklist.is_blocked("Example.COM."), blocklist.is_blocked("example.com"));
    assert!(blocklist.is_blocked("Example.COM."));
    assert!(blocklist.is_blocked("WWW.EXAMPLE.COM"));
    assert!(!blocklist.is_blocked("example.com.."));
}

#[test]
fn top_level_label_blocks_only_itself() {
    let blocklist = list(&["com"]);
    assert!(blocklist.is_blocked("com"));
    assert!(blocklist.is_blocked("COM."));
    assert!(!blocklist.is_blocked("example.com"));
    assert!(!blocklist.is_blocked("www.example.com"));
}

#[test]
fn blank_and_comment_lines_are_skipped() {
    let blocklist = list(&["# trackers", "", "   ", "  Ads.Example.NET  ", "#example.org"]);
    assert!(blocklist.is_blocked("ads.example.net"));
    assert!(blocklist.is_blocked("x.ads.example.net"));
    assert!(!blocklist.is_blocked("example.org"));
    assert!(!blocklist.is_blocked(""));
}

#[test]
fn empty_blocklist_blocks_nothing() {
    let blocklist = Blocklist::new_empty();
    assert!(!blocklist.is_blocked("example.com"));
    assert!(!blocklist.is_blocked(""));
    assert!(!blocklist.is_blocked("."));
}

#[test]
fn canonical_form_is_lower_case_without_root_dot() {
    let c: String = russdns::blocklist::canonicalize("WwW.Example.COM.").into_iter().collect();
    assert_eq!(c, "www.example.com");
    let again: String = russdns::blocklist::canonicalize(&c).into_iter().collect();
    assert_eq!(again, c);
    assert!(russdns::blocklist::canonicalize("").is_empty());
    assert!(russdns::blocklist::canonicalize(".").is_empty());
}

#[test]
fn shared_blocklist_reload_replaces_whole_snapshot() {
    let shared = SharedBlocklist::new(list(&["example.com"]));
    let before = shared.snapshot();
    assert!(shared.snapshot().is_blocked("www.example.com"));
    shared.replace(list(&["example.org"]));
    assert!(!shared.snapshot().is_blocked("www.example.com"));
    assert!(shared.snapshot().is_blocked("example.org"));
    assert!(before.is_blocked("www.example.com"));
    assert!(!before.is_blocked("example.org"));
}

#[test]
fn non_ascii_letters_are_folded() {
    let blocklist = list(&["ä.x.y"]);
    assert!(blocklist.is_blocked("Ä.x.y"));
    assert!(blocklist.is_blocked("www.Ä.X.Y."));
    let upper = list(&["Ä.X.Y"]);
    assert!(upper.is_blocked("ä.x.y"));
    let c: String = russdns::blocklist::canonicalize("ÄÖÜ.Example.").into_iter().collect();
    assert_eq!(c, "äöü.example");
}

#[test]
fn lone_dot_line_names_nothing() {
    let blocklist = list(&[".", " . ", "example.com"]);
    assert!(!blocklist.is_blocked(""));
    assert!(!blocklist.is_blocked("."));
    assert!(!blocklist.is_blocked("org"));
    assert!(blocklist.is_blocked("example.com"));
}
