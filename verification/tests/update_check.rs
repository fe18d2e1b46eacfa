use h7cad::update_check::{extract_tag, latest_if_outdated};

const GITHUB_BODY: &str = "{\"url\":\"https://api.github.com/repos/x/y/releases/1\",\"html_url\":\"https://github.com/x/y/releases/tag/v0.3.1\",\"id\":1,\"tag_name\":\"v0.3.1\",\"target_commitish\":\"main\",\"name\":\"v0.3.1\"}";

#[test]
fn extracts_tag_from_release_json() {
    assert_eq!(extract_tag(GITHUB_BODY), Some("v0.3.1".to_string()));
}

#[test]
fn extracts_first_tag_only() {
    let body = "\"tag_name\":\"a\" \"tag_name\":\"b\"";
    assert_eq!(extract_tag(body), Some("a".to_string()));
}

#[test]
fn extract_handles_missing_parts() {
    assert_eq!(extract_tag(""), None);
    assert_eq!(extract_tag("{\"name\":\"v1\"}"), None);
    assert_eq!(extract_tag("{\"tag_name\": \"v1\"}"), None);
    assert_eq!(extract_tag("{\"tag_name\":\"v1"), None);
    assert_eq!(extract_tag("\"tag_name\":\"\""), Some(String::new()));
}

#[test]
fn extract_keeps_non_ascii() {
    assert_eq!(extract_tag("ß\"tag_name\":\"v1.0-β\"…"), Some("v1.0-β".to_string()));
}

#[test]
fn newer_release_is_reported() {
    assert_eq!(latest_if_outdated(GITHUB_BODY, "0.3.0"), Some("0.3.1".to_string()));
    assert_eq!(latest_if_outdated(GITHUB_BODY, "0.2.9"), Some("0.3.1".to_string()));
    assert_eq!(latest_if_outdated(GITHUB_BODY, "0.3"), Some("0.3.1".to_string()));
}

#[test]
fn same_release_is_not_reported() {
    assert_eq!(latest_if_outdated(GITHUB_BODY, "0.3.1"), None);
}

#[test]
fn every_leading_v_is_stripped() {
    let body = "\"tag_name\":\"vvv2\"";
    assert_eq!(latest_if_outdated(body, "2"), None);
    assert_eq!(latest_if_outdated(body, "1"), Some("2".to_string()));
    let body = "\"tag_name\":\"1.v2\"";
    assert_eq!(latest_if_outdated(body, "0"), Some("1.v2".to_string()));
}

#[test]
fn body_without_tag_reports_nothing() {
    assert_eq!(latest_if_outdated("rate limit exceeded", "0.1.0"), None);
    assert_eq!(latest_if_outdated("", ""), None);
}

#[test]
fn written_tag_reads_back() {
    for tag in ["", "v1", "v2.0.0-rc.1", "release ß"] {
        let body = format!("{{\"id\":7,\"tag_name\":\"{}\",\"name\":\"x\"}}", tag);
        assert_eq!(extract_tag(&body), Some(tag.to_string()));
    }
}

#[test]
fn older_release_is_not_reported() {
    let body = "{\"tag_name\":\"v0.0.1\"}";
    assert_eq!(latest_if_outdated(body, "0.1.0"), None);
    assert_eq!(latest_if_outdated(GITHUB_BODY, "0.3.2"), None);
    assert_eq!(latest_if_outdated(GITHUB_BODY, "1.0.0"), None);
    assert_eq!(latest_if_outdated(GITHUB_BODY, "0.10.0"), None);
}

#[test]
fn versions_compare_by_semver_precedence() {
    let body = "\"tag_name\":\"v1.10.0\"";
    assert_eq!(latest_if_outdated(body, "1.9.7"), Some("1.10.0".to_string()));
    assert_eq!(latest_if_outdated(body, "1.010.0"), None);
    assert_eq!(latest_if_outdated(body, "1.10.0+build.7"), None);
    let body = "\"tag_name\":\"v2.0.0-rc1\"";
    assert_eq!(latest_if_outdated(body, "1.99.99"), Some("2.0.0-rc1".to_string()));
    assert_eq!(latest_if_outdated(body, "2.0.0"), None);
    let body = "\"tag_name\":\"v18446744073709551616.0.0\"";
    assert_eq!(
        latest_if_outdated(body, "18446744073709551615.9.9"),
        Some("18446744073709551616.0.0".to_string())
    );
}

#[test]
fn final_release_is_newer_than_its_release_candidate() {
    let body = "{\"tag_name\":\"v1.0.0\"}";
    assert_eq!(latest_if_outdated(body, "1.0.0-rc"), Some("1.0.0".to_string()));
}

#[test]
fn release_candidate_is_older_than_the_final_release() {
    let body = "{\"tag_name\":\"v1.0.0-rc.1\"}";
    assert_eq!(latest_if_outdated(body, "1.0.0"), None);
}

#[test]
fn non_semver_tags_are_reported_when_they_differ() {
    let body = "\"tag_name\":\"nightly\"";
    assert_eq!(latest_if_outdated(body, "0.1.0"), Some("nightly".to_string()));
    let body = "\"tag_name\":\"v1.10\"";
    assert_eq!(latest_if_outdated(body, "1.10"), None);
    assert_eq!(latest_if_outdated(body, "1.10.0"), Some("1.10".to_string()));
}
