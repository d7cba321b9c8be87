use locatew::codec::compress_lines;
use locatew::query::{
    basename, build_globset, consume_entry, display_of, entry_matches, is_usize, prep_pattern,
    query_db,
};

fn b(s: &str) -> Vec<u8> {
    s.as_bytes().to_vec()
}

fn pats(words: &[&str]) -> Vec<Vec<u8>> {
    words.iter().map(|w| b(w)).collect()
}

#[test]
fn pipeline_preserves_decode_order() {
    let lines = vec![b("C:\\a"), b("C:\\a\\b"), b("C:\\b\\")];
    let db = compress_lines(&lines).unwrap();
    let gs = build_globset(&pats(&["*"]), true).unwrap();
    let out = query_db(&db, &gs, false, false, None).unwrap();
    assert_eq!(out, vec![b("C:\\a"), b("C:\\a\\b"), b("C:\\b")]);
}

#[test]
fn end_to_end_bob_query() {
    let lines = vec![b("C:\\Users"), b("C:\\Users\\Bob"), b("C:\\Windows")];
    let db = compress_lines(&lines).unwrap();
    let gs = build_globset(&pats(&["bob"]), true).unwrap();
    let out = query_db(&db, &gs, false, false, None).unwrap();
    assert_eq!(out, vec![b("C:\\Users\\Bob")]);
}

#[test]
fn case_sensitive_query_distinguishes() {
    let lines = vec![b("C:\\Users\\Bob")];
    let db = compress_lines(&lines).unwrap();
    let gs = build_globset(&pats(&["bob"]), false).unwrap();
    let out = query_db(&db, &gs, false, false, None).unwrap();
    assert!(out.is_empty());
    let gs2 = build_globset(&pats(&["Bob"]), false).unwrap();
    let out2 = query_db(&db, &gs2, false, false, None).unwrap();
    assert_eq!(out2, vec![b("C:\\Users\\Bob")]);
}

#[test]
fn all_semantics_requires_every_pattern() {
    let lines = vec![b("C:\\Users"), b("C:\\Users\\Bob"), b("C:\\Windows")];
    let db = compress_lines(&lines).unwrap();
    let gs = build_globset(&pats(&["users", "bob"]), true).unwrap();
    let every = query_db(&db, &gs, true, false, None).unwrap();
    assert_eq!(every, vec![b("C:\\Users\\Bob")]);
    let any = query_db(&db, &gs, false, false, None).unwrap();
    assert_eq!(any, vec![b("C:\\Users"), b("C:\\Users\\Bob")]);
}

#[test]
fn basename_matching_skips_directories() {
    let lines = vec![b("C:\\bob\\"), b("C:\\Users\\bob.txt"), b("C:\\bob\\readme.md")];
    let db = compress_lines(&lines).unwrap();
    let gs = build_globset(&pats(&["bob"]), true).unwrap();
    let out = query_db(&db, &gs, false, true, None).unwrap();
    assert_eq!(out, vec![b("C:\\Users\\bob.txt")]);
}

#[test]
fn limit_stops_after_first_match() {
    let lines = vec![b("C:\\a1"), b("C:\\a2"), b("C:\\a3")];
    let db = compress_lines(&lines).unwrap();
    let gs = build_globset(&pats(&["a"]), true).unwrap();
    let out = query_db(&db, &gs, false, false, Some(1)).unwrap();
    assert_eq!(out, vec![b("C:\\a1")]);
    let out2 = query_db(&db, &gs, false, false, Some(2)).unwrap();
    assert_eq!(out2, vec![b("C:\\a1"), b("C:\\a2")]);
}

#[test]
fn malformed_pattern_is_refused() {
    // an unclosed character class never compiles, so the set cannot build
    assert!(build_globset(&pats(&["["]), true).is_err());
    assert!(build_globset(&pats(&["a", "["]), true).is_err());
    assert!(build_globset(&pats(&["a"]), true).is_ok());
}

#[test]
fn prep_pattern_implicit_globbing() {
    assert_eq!(prep_pattern(&b("/raw*x")), b("raw*x"));
    assert_eq!(prep_pattern(&b("*x")), b("*x"));
    assert_eq!(prep_pattern(&b("x*")), b("x*"));
    assert_eq!(prep_pattern(&b("x")), b("*x*"));
    assert_eq!(prep_pattern(&b("")), b("**"));
}

#[test]
fn basename_and_display_forms() {
    assert_eq!(basename(&b("C:\\a\\b.txt")), b("b.txt"));
    assert_eq!(basename(&b("noslash")), b("noslash"));
    assert_eq!(basename(&b("C:\\dir\\")), b(""));
    assert_eq!(display_of(&b("C:\\dir\\")), b("C:\\dir"));
    assert_eq!(display_of(&b("C:\\file")), b("C:\\file"));
}

#[test]
fn entry_matches_single_pattern_ignores_all_flag() {
    let gs = build_globset(&pats(&["bob"]), true).unwrap();
    assert!(entry_matches(&gs, true, &b("C:\\Bob")));
    assert!(entry_matches(&gs, false, &b("C:\\Bob")));
    assert!(!entry_matches(&gs, false, &b("C:\\Alice")));
}

#[test]
fn consume_entry_counts_and_stops() {
    let gs = build_globset(&pats(&["a"]), true).unwrap();
    let mut ctr: usize = 0;
    let (emit, stop) = consume_entry(&gs, false, false, Some(2), &mut ctr, &b("C:\\a1"));
    assert_eq!(emit, Some(b("C:\\a1")));
    assert!(!stop);
    assert_eq!(ctr, 1);
    let (emit2, stop2) = consume_entry(&gs, false, false, Some(2), &mut ctr, &b("C:\\zzz"));
    assert_eq!(emit2, None);
    assert!(!stop2);
    assert_eq!(ctr, 1);
    let (emit3, stop3) = consume_entry(&gs, false, false, Some(2), &mut ctr, &b("C:\\a2"));
    assert_eq!(emit3, Some(b("C:\\a2")));
    assert!(stop3);
    assert_eq!(ctr, 2);
}

#[test]
fn is_usize_accepts_machine_integers() {
    assert!(is_usize(&String::from("12")).is_ok());
    assert!(is_usize(&String::from("+5")).is_ok());
    assert!(is_usize(&String::from("0")).is_ok());
    assert!(is_usize(&String::from("18446744073709551615")).is_ok());
}

#[test]
fn is_usize_rejects_everything_else() {
    assert_eq!(is_usize(&String::from("")), Err(String::from("")));
    assert_eq!(is_usize(&String::from("a")), Err(String::from("a")));
    assert_eq!(is_usize(&String::from("-1")), Err(String::from("-1")));
    assert_eq!(is_usize(&String::from("+")), Err(String::from("+")));
    assert_eq!(is_usize(&String::from("1 2")), Err(String::from("1 2")));
    assert_eq!(
        is_usize(&String::from("18446744073709551616")),
        Err(String::from("18446744073709551616"))
    );
}
