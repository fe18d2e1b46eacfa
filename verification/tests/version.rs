use h7cad::version::{
    compare_digit_runs, ident_order_of, semver_parts, split_parts, text_order_of,
    version_is_newer,
};

fn chars(s: &str) -> Vec<char> {
    s.chars().collect()
}

fn newer(a: &str, b: &str) -> bool {
    version_is_newer(&chars(a), &chars(b))
}

#[test]
fn digit_runs_compare_as_numbers() {
    assert_eq!(compare_digit_runs(&chars("9"), &chars("10")), -1);
    assert_eq!(compare_digit_runs(&chars("10"), &chars("9")), 1);
    assert_eq!(compare_digit_runs(&chars("007"), &chars("7")), 0);
    assert_eq!(compare_digit_runs(&chars(""), &chars("0")), 0);
    assert_eq!(compare_digit_runs(&chars("123"), &chars("124")), -1);
    assert_eq!(
        compare_digit_runs(&chars("99999999999999999999999"), &chars("99999999999999999999998")),
        1
    );
}

#[test]
fn parts_split_at_dots() {
    assert_eq!(split_parts(&chars("1.2.3")), vec![chars("1"), chars("2"), chars("3")]);
    assert_eq!(split_parts(&chars("")), vec![chars("")]);
    assert_eq!(split_parts(&chars("a..b.")), vec![chars("a"), chars(""), chars("b"), chars("")]);
}

#[test]
fn semver_recognition() {
    let p = semver_parts(&chars("1.2.3-rc.1+build.5")).unwrap();
    assert_eq!(p.core, vec![chars("1"), chars("2"), chars("3")]);
    assert_eq!(p.pre, Some(vec![chars("rc"), chars("1")]));
    let p = semver_parts(&chars("0.4.0+x-y")).unwrap();
    assert_eq!(p.pre, None);
    for bad in ["", "1", "1.2", "1.2.3.4", "1..3", "a.b.c", "1.2.3-", "1.2.3-a..b", "1.2.3-a_b", "v1.2.3"] {
        assert!(semver_parts(&chars(bad)).is_none(), "{}", bad);
    }
}

#[test]
fn identifiers_order() {
    assert_eq!(text_order_of(&chars("alpha"), &chars("beta")), -1);
    assert_eq!(text_order_of(&chars("alpha"), &chars("alph")), 1);
    assert_eq!(text_order_of(&chars("B"), &chars("a")), -1);
    assert_eq!(ident_order_of(&chars("11"), &chars("2")), 1);
    assert_eq!(ident_order_of(&chars("11"), &chars("a")), -1);
    assert_eq!(ident_order_of(&chars("rc"), &chars("rc")), 0);
}

#[test]
fn semver_precedence_chain() {
    let chain = [
        "1.0.0-alpha",
        "1.0.0-alpha.1",
        "1.0.0-alpha.beta",
        "1.0.0-beta",
        "1.0.0-beta.2",
        "1.0.0-beta.11",
        "1.0.0-rc.1",
        "1.0.0",
        "1.0.1",
        "1.1.0",
        "2.0.0",
    ];
    for i in 0..chain.len() {
        assert!(!newer(chain[i], chain[i]));
        for j in 0..chain.len() {
            assert_eq!(newer(chain[i], chain[j]), i > j, "{} vs {}", chain[i], chain[j]);
        }
    }
}

#[test]
fn build_metadata_is_ignored() {
    assert!(!newer("1.0.0+b2", "1.0.0+b1"));
    assert!(!newer("1.0.0+b1", "1.0.0"));
    assert!(newer("1.0.1+b1", "1.0.0+b9"));
}

#[test]
fn non_semver_versions_differ_or_not() {
    assert!(newer("nightly", "1.0.0"));
    assert!(newer("1.0", "1.0.0"));
    assert!(!newer("1.0", "1.0"));
}
