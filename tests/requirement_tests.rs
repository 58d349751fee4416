use merge_deps::{parse_requirements, Requirement};

#[test]
fn parse_simple() {
    let req = Requirement::parse("requests");
    assert_eq!(req.name.as_deref(), Some("requests"));
    assert_eq!(req.version, None);
}

#[test]
fn parse_versioned() {
    let req = Requirement::parse("requests==2.28.0");
    assert_eq!(req.name.as_deref(), Some("requests"));
    assert_eq!(req.constraint.as_deref(), Some("=="));
    assert_eq!(req.version.as_deref(), Some("2.28.0"));
}

#[test]
fn parse_with_extras() {
    let req = Requirement::parse("requests[security]==2.28.0");
    assert_eq!(req.name.as_deref(), Some("requests[security]"));
    assert_eq!(req.version.as_deref(), Some("2.28.0"));
}

#[test]
fn parse_vcs() {
    let req = Requirement::parse("git+ssh://git@github.com/user/repo.git@1.0.0#egg=mypackage");
    assert_eq!(req.name.as_deref(), Some("git+ssh://github.com/user/repo.git"));
    assert_eq!(req.revision.as_deref(), Some("1.0.0"));
    assert_eq!(req.fragment.as_deref(), Some("egg=mypackage"));
}

#[test]
fn parse_vcs_no_revision() {
    let req = Requirement::parse("git+ssh://git@github.com/user/repo.git#egg=mypackage");
    assert_eq!(req.name.as_deref(), Some("git+ssh://github.com/user/repo.git"));
    assert_eq!(req.revision, None);
    assert_eq!(req.fragment.as_deref(), Some("egg=mypackage"));
}

#[test]
fn set_version() {
    let mut req = Requirement::parse("requests==2.28.0");
    req.set_version(Some("2.29.0"));
    assert_eq!(req.line, "requests==2.29.0");
    assert_eq!(req.version.as_deref(), Some("2.29.0"));
}

#[test]
fn set_revision() {
    let mut req = Requirement::parse("git+ssh://git@url.git#egg=fragment");
    req.set_revision(Some("1.0"));
    assert_eq!(req.line, "git+ssh://git@url.git@1.0#egg=fragment");
    assert_eq!(req.revision.as_deref(), Some("1.0"));
}

#[test]
fn parse_comment_has_no_identity() {
    let req = Requirement::parse("# comment");
    assert_eq!(req.line, "# comment");
    assert_eq!(req.name, None);
    assert_eq!(req.constraint, None);
    assert_eq!(req.version, None);
}

#[test]
fn parse_blank_line() {
    let req = Requirement::parse("");
    assert_eq!(req.line, "");
    assert_eq!(req.name, None);
}

#[test]
fn parse_spaces_around_operator() {
    let req = Requirement::parse("dep >= 1.2 # pinned");
    assert_eq!(req.name.as_deref(), Some("dep"));
    assert_eq!(req.constraint.as_deref(), Some(">="));
    assert_eq!(req.version.as_deref(), Some("1.2"));
}

#[test]
fn parse_unsupported_operator_is_bare_name() {
    let req = Requirement::parse("dep~=1.2");
    assert_eq!(req.name.as_deref(), Some("dep"));
    assert_eq!(req.constraint, None);
    assert_eq!(req.version, None);
}

#[test]
fn parse_broken_extras_is_bare_name() {
    let req = Requirement::parse("dep[]==1.0");
    assert_eq!(req.name.as_deref(), Some("dep"));
    assert_eq!(req.version, None);
}

#[test]
fn parse_vcs_plain_git_scheme_without_login() {
    let req = Requirement::parse("git://host/repo.git@v2");
    assert_eq!(req.name.as_deref(), Some("git://host/repo.git"));
    assert_eq!(req.revision.as_deref(), Some("v2"));
    assert_eq!(req.fragment, None);
}

#[test]
fn parse_vcs_login_without_path_falls_back() {
    let req = Requirement::parse("git+https://user@");
    assert_eq!(req.name.as_deref(), Some("git+https://user"));
    assert_eq!(req.revision, None);
}

#[test]
fn parse_unknown_scheme_is_bare_name() {
    let req = Requirement::parse("svn+ssh://host/repo");
    assert_eq!(req.name.as_deref(), Some("svn"));
}

#[test]
fn parse_unicode_word_name() {
    let req = Requirement::parse("café==1.0");
    assert_eq!(req.name.as_deref(), Some("café"));
    assert_eq!(req.version.as_deref(), Some("1.0"));
}

#[test]
fn parse_unicode_digits_in_version() {
    let req = Requirement::parse("dep==\u{0661}\u{0662}");
    assert_eq!(req.version.as_deref(), Some("\u{0661}\u{0662}"));
}

#[test]
fn parse_fragment_stops_at_unicode_space() {
    let req = Requirement::parse("git://host/p#frag\u{00A0}tail");
    assert_eq!(req.fragment.as_deref(), Some("frag"));
}

#[test]
fn set_version_replaces_first_occurrence_only() {
    let mut req = Requirement::parse("dep==1 # was 1");
    req.set_version(Some("2"));
    assert_eq!(req.line, "dep==2 # was 1");
}

#[test]
fn set_version_to_none_deletes_text() {
    let mut req = Requirement::parse("dep==1.0");
    req.set_version(None);
    assert_eq!(req.line, "dep==");
    assert_eq!(req.version, None);
}

#[test]
fn set_version_appends_when_absent() {
    let mut req = Requirement::parse("dep");
    req.set_version(Some("1.0"));
    assert_eq!(req.line, "dep1.0");
}

#[test]
fn set_constraint_replaces_operator() {
    let mut req = Requirement::parse("dep<=0.1");
    req.set_constraint(Some("=="));
    assert_eq!(req.line, "dep==0.1");
    assert_eq!(req.constraint.as_deref(), Some("=="));
}

#[test]
fn set_constraint_none_on_bare_name_is_noop() {
    let mut req = Requirement::parse("dep");
    req.set_constraint(None);
    assert_eq!(req.line, "dep");
}

#[test]
fn set_revision_appends_without_fragment() {
    let mut req = Requirement::parse("git://host/repo");
    req.set_revision(Some("abc"));
    assert_eq!(req.line, "git://host/repo@abc");
}

#[test]
fn set_revision_replaces_existing() {
    let mut req = Requirement::parse("git://host/repo@1.0#egg=x");
    req.set_revision(Some("2.0"));
    assert_eq!(req.line, "git://host/repo@2.0#egg=x");
}

#[test]
fn set_revision_none_deletes_text() {
    let mut req = Requirement::parse("git://host/repo@1.0#egg=x");
    req.set_revision(None);
    assert_eq!(req.line, "git://host/repo@#egg=x");
    assert_eq!(req.revision, None);
}

#[test]
fn parse_requirements_keeps_every_line() {
    let reqs = parse_requirements("a\n\n# c\nb==1");
    assert_eq!(reqs.len(), 4);
    assert_eq!(reqs[1].line, "");
    assert_eq!(reqs[2].name, None);
    assert_eq!(reqs[3].version.as_deref(), Some("1"));
}

#[test]
fn parse_requirements_line_endings() {
    let reqs = parse_requirements("a\r\nb\n");
    assert_eq!(reqs.len(), 2);
    assert_eq!(reqs[0].line, "a");
    assert_eq!(reqs[1].line, "b");
    assert_eq!(parse_requirements("").len(), 0);
}
