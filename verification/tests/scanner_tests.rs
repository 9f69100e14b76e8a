use issue_refs::scanner::{scan, ScanError};

#[test]
fn dedup_two_ids_sorted() {
    let refs = scan("JIRA-", "JIRA-42 then JIRA-42 again then JIRA-7").unwrap();
    assert_eq!(refs.len(), 2);
    assert_eq!(refs[0].numeric_id, 7);
    assert_eq!(refs[0].matched_text, "JIRA-7");
    assert_eq!(refs[1].numeric_id, 42);
    assert_eq!(refs[1].matched_text, "JIRA-42");
}

#[test]
fn fixed_point_example() {
    let refs = scan("ABC-", "see ABC-3 and ABC-3 again, also ABC-15").unwrap();
    let texts: Vec<&str> = refs.iter().map(|r| r.matched_text.as_str()).collect();
    assert_eq!(texts, vec!["ABC-3", "ABC-15"]);
    assert_eq!(refs[0].numeric_id, 3);
    assert_eq!(refs[1].numeric_id, 15);
}

#[test]
fn no_matches_is_empty_not_error() {
    let refs = scan("JIRA-", "nothing to see here, not even JIRA-x or JIRA").unwrap();
    assert!(refs.is_empty());
}

#[test]
fn empty_text_is_empty() {
    let refs = scan("JIRA-", "").unwrap();
    assert!(refs.is_empty());
}

#[test]
fn matched_text_starts_with_prefix_and_digit() {
    let refs = scan("AB-", "AB-1 xAB-23y AB- AB-x AB-450").unwrap();
    for r in &refs {
        assert!(r.matched_text.starts_with("AB-"));
        let rest = &r.matched_text["AB-".len()..];
        assert!(rest.chars().next().unwrap().is_ascii_digit());
    }
    assert_eq!(refs.len(), 3);
}

#[test]
fn embedded_token_still_matches() {
    let refs = scan("AB-", "xAB-123y").unwrap();
    assert_eq!(refs.len(), 1);
    assert_eq!(refs[0].numeric_id, 123);
    assert_eq!(refs[0].matched_text, "AB-123");
}

#[test]
fn scan_is_idempotent_on_ids() {
    let text = "Z-9 noise Z-2 Z-9 Z-100 Z-2";
    let a = scan("Z-", text).unwrap();
    let b = scan("Z-", text).unwrap();
    let ids_a: Vec<u32> = a.iter().map(|r| r.numeric_id).collect();
    let ids_b: Vec<u32> = b.iter().map(|r| r.numeric_id).collect();
    assert_eq!(ids_a, ids_b);
    assert_eq!(ids_a, vec![2, 9, 100]);
}

#[test]
fn largest_id_fits() {
    let refs = scan("ID-", "ID-4294967295").unwrap();
    assert_eq!(refs.len(), 1);
    assert_eq!(refs[0].numeric_id, u32::MAX);
}

#[test]
fn overflowing_digit_run_fails_the_scan() {
    let err = scan("ID-", "ID-4294967296").unwrap_err();
    assert_eq!(err, ScanError::Overflow);
    let err = scan("ID-", "ID-1 and ID-99999999999999999999").unwrap_err();
    assert_eq!(err, ScanError::Overflow);
}

#[test]
fn leading_zeros_collapse_to_one_id() {
    let refs = scan("ID-", "ID-042 then ID-42").unwrap();
    assert_eq!(refs.len(), 1);
    assert_eq!(refs[0].numeric_id, 42);
    assert_eq!(refs[0].matched_text, "ID-042");
}

#[test]
fn empty_prefix_matches_digit_runs() {
    let refs = scan("", "a 12 b 7").unwrap();
    let ids: Vec<u32> = refs.iter().map(|r| r.numeric_id).collect();
    assert_eq!(ids, vec![7, 12]);
    assert_eq!(refs[0].matched_text, "7");
    assert_eq!(refs[1].matched_text, "12");
}

#[test]
fn maximal_digit_run_is_taken() {
    let refs = scan("Q-", "Q-1234567").unwrap();
    assert_eq!(refs.len(), 1);
    assert_eq!(refs[0].numeric_id, 1234567);
    assert_eq!(refs[0].matched_text, "Q-1234567");
}
