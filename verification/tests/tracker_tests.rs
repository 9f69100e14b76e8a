use issue_refs::tracker::{
    connectivity_response, decode_issue_summary, issue_url, project_search_url, summary_line,
    summary_to_result, IssueSummary, TrackerCredentials, TrackerError,
};

#[test]
fn decode_summary_and_line() {
    let body = "{\"fields\":{\"summary\":\"Fix login bug\"}}";
    let summary = decode_issue_summary("XYZ-9", body).unwrap();
    assert_eq!(summary.issue_key, "XYZ-9");
    assert_eq!(summary.summary, "Fix login bug");
    assert_eq!(summary_line(&summary), "XYZ-9 Fix login bug");
}

#[test]
fn decode_ignores_other_fields() {
    let body = "{\"id\":\"10002\",\"fields\":{\"summary\":\"Do it\",\"labels\":[1,2]},\"extra\":null}";
    let summary = decode_issue_summary("AB-1", body).unwrap();
    assert_eq!(summary.summary, "Do it");
}

#[test]
fn decode_missing_fields_key_fails() {
    let body = "{\"nothing\":{\"summary\":\"Fix login bug\"}}";
    let err = decode_issue_summary("XYZ-9", body).unwrap_err();
    assert!(matches!(err, TrackerError::Decode));
}

#[test]
fn decode_missing_summary_fails() {
    let body = "{\"fields\":{\"description\":\"words\"}}";
    let err = decode_issue_summary("XYZ-9", body).unwrap_err();
    assert!(matches!(err, TrackerError::Decode));
}

#[test]
fn decode_non_string_summary_fails() {
    let body = "{\"fields\":{\"summary\":5}}";
    let err = decode_issue_summary("XYZ-9", body).unwrap_err();
    assert!(matches!(err, TrackerError::Decode));
}

#[test]
fn decode_invalid_json_fails() {
    let err = decode_issue_summary("XYZ-9", "not json at all").unwrap_err();
    assert!(matches!(err, TrackerError::Decode));
}

#[test]
fn summary_result_from_decoded_value() {
    let ok = summary_to_result("K-1", Some(String::from("done"))).unwrap();
    assert_eq!(ok.issue_key, "K-1");
    assert_eq!(ok.summary, "done");
    let err = summary_to_result("K-1", None).unwrap_err();
    assert!(matches!(err, TrackerError::Decode));
}

#[test]
fn probe_url_is_project_search() {
    assert_eq!(
        project_search_url("https://example.test"),
        "https://example.test/rest/api/3/project/search"
    );
}

#[test]
fn issue_url_names_the_issue() {
    assert_eq!(
        issue_url("https://example.test", "XYZ-9"),
        "https://example.test/rest/api/3/issue/XYZ-9"
    );
}

#[test]
fn connectivity_probe_returns_body_unchanged() {
    let body = String::from("plain text, not JSON: 200 OK");
    assert_eq!(connectivity_response(body), "plain text, not JSON: 200 OK");
}

#[test]
fn credentials_hold_plain_strings() {
    let creds = TrackerCredentials {
        base_url: String::from("https://example.test"),
        username: String::from("user"),
        token: String::from("abc"),
    };
    assert_eq!(creds.base_url, "https://example.test");
    assert_eq!(creds.username, "user");
    assert_eq!(creds.token, "abc");
}

#[test]
fn summary_struct_fields_are_open() {
    let s = IssueSummary { issue_key: String::from("A-1"), summary: String::from("x y") };
    assert_eq!(summary_line(&s), "A-1 x y");
}
