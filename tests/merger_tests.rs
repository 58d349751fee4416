use merge_deps::{
    differ, format_requirements, merge, parse_requirements, version_greater,
    version_greater_given,
};

fn merge_test(base: &str, other: &str) -> String {
    merge_three(base, base, other)
}

fn merge_three(base: &str, current: &str, other: &str) -> String {
    let base_reqs = parse_requirements(base);
    let other_reqs = parse_requirements(other);
    let mut current_reqs = parse_requirements(current);
    let diff = differ(&base_reqs, &other_reqs);
    merge(&mut current_reqs, diff);
    format_requirements(&current_reqs)
}

#[test]
fn test_add_dep() {
    assert_eq!(merge_test("", "new-dep"), "new-dep");
}

#[test]
fn test_remove_dep() {
    assert_eq!(merge_test("new-dep", ""), "");
}

#[test]
fn test_upgrade_version() {
    assert_eq!(merge_test("new-dep==0.1", "new-dep==0.2"), "new-dep==0.2");
}

#[test]
fn test_keep_higher_version() {
    assert_eq!(merge_test("new-dep==0.2", "new-dep==0.1"), "new-dep==0.2");
}

#[test]
fn test_change_constraint() {
    assert_eq!(merge_test("new-dep<=0.1", "new-dep==0.2"), "new-dep==0.2");
}

#[test]
fn test_remove_version() {
    assert_eq!(merge_test("new-dep==0.1", "new-dep"), "new-dep");
}

#[test]
fn test_three_part_version() {
    assert_eq!(merge_test("dep==1.1.2", "dep==1.1.0"), "dep==1.1.2");
}

#[test]
fn test_preserve_comments() {
    assert_eq!(
        merge_test("# comment\ndep==1 # c2", "# comment\ndep==2 # c2"),
        "# comment\ndep==2 # c2"
    );
}

#[test]
fn test_extras() {
    assert_eq!(merge_test("dep[opt]==0.1", "dep[opt]==0.2"), "dep[opt]==0.2");
}

#[test]
fn test_vcs_revision() {
    assert_eq!(
        merge_test(
            "git+ssh://git@url.git#egg=fragment",
            "git+ssh://git@url.git@1.0#egg=fragment"
        ),
        "git+ssh://git@url.git@1.0#egg=fragment"
    );
}

#[test]
fn merge_identical_inputs_changes_nothing() {
    let text = "# top\na==1.0\nb\ngit://h/r@1#egg=r";
    assert_eq!(merge_three(text, text, text), text);
}

#[test]
fn merge_upgrade_taken_from_other() {
    assert_eq!(merge_three("dep==1.0", "dep==1.0", "dep==2.0"), "dep==2.0");
}

#[test]
fn merge_never_downgrades_working_copy() {
    assert_eq!(merge_three("dep==2.0", "dep==2.0", "dep==1.0"), "dep==2.0");
    assert_eq!(merge_three("dep==1.0", "dep==2.0", "dep==1.0"), "dep==2.0");
}

#[test]
fn merge_lower_revision_is_ignored() {
    assert_eq!(
        merge_three("git://h/r@2.0", "git://h/r@2.0", "git://h/r@1.0"),
        "git://h/r@2.0"
    );
}

#[test]
fn merge_update_of_missing_dependency_is_dropped() {
    assert_eq!(merge_three("dep==1", "other", "dep==2"), "other");
}

#[test]
fn merge_add_already_present_is_not_duplicated() {
    assert_eq!(merge_three("", "dep==1", "dep==2"), "dep==1");
}

#[test]
fn merge_additions_go_last_and_comments_stay() {
    assert_eq!(
        merge_three("# a\nx\n# b", "# a\nx\n# b\ny", "new\n# a\n# b"),
        "# a\n# b\ny\nnew"
    );
}

#[test]
fn round_trip_of_plain_text() {
    let text = "# deps\nrequests[security] >= 2.0  # web\n\ngit+https://u@h/p@v1#egg=p\n  indented";
    assert_eq!(format_requirements(&parse_requirements(text)), text);
}

#[test]
fn format_joins_with_line_feeds() {
    assert_eq!(format_requirements(&parse_requirements("a\r\nb\n")), "a\nb");
    assert_eq!(format_requirements(&parse_requirements("")), "");
}

#[test]
fn semver_ordering_is_used_when_both_parse() {
    assert!(version_greater("1.10.0", "1.9.0"));
    assert!(!version_greater("1.0.0-alpha", "1.0.0"));
    assert!(version_greater("1.0.0-beta", "1.0.0-alpha"));
}

#[test]
fn numeric_ordering_is_used_otherwise() {
    assert!(version_greater("1.10", "1.9"));
    assert!(version_greater("1.1.2", "1.1"));
    assert!(!version_greater("1.1", "1.1"));
    assert!(!version_greater("", ""));
    assert!(version_greater("2.x", "1.9"));
    assert!(!version_greater("99999999999999999999", "1"));
    assert!(version_greater("+3", "2"));
}

#[test]
fn given_semver_verdict_decides() {
    assert!(!version_greater_given(Some(false), "2", "1"));
    assert!(version_greater_given(Some(true), "1", "2"));
    assert!(version_greater_given(None, "2", "1"));
}
