use merge_deps::{differ, parse_requirements, DiffOp};

#[test]
fn test_add() {
    let old = parse_requirements("");
    let new = parse_requirements("new-dep");
    let diff = differ(&old, &new);

    assert_eq!(diff.len(), 1);
    assert!(matches!(&diff[0], DiffOp::Add(r) if r.name.as_deref() == Some("new-dep")));
}

#[test]
fn test_remove() {
    let old = parse_requirements("old-dep");
    let new = parse_requirements("");
    let diff = differ(&old, &new);

    assert_eq!(diff.len(), 1);
    assert!(matches!(&diff[0], DiffOp::Remove(name) if name == "old-dep"));
}

#[test]
fn test_update() {
    let old = parse_requirements("dep==1.0");
    let new = parse_requirements("dep==2.0");
    let diff = differ(&old, &new);

    assert_eq!(diff.len(), 1);
    assert!(matches!(&diff[0], DiffOp::Update(r) if r.version.as_deref() == Some("2.0")));
}

#[test]
fn test_no_change() {
    let old = parse_requirements("dep==1.0");
    let new = parse_requirements("dep==1.0");
    let diff = differ(&old, &new);

    assert!(diff.is_empty());
}

#[test]
fn diff_formatting_change_is_update() {
    let old = parse_requirements("dep==1.0");
    let new = parse_requirements("dep == 1.0");
    let diff = differ(&old, &new);
    assert_eq!(diff.len(), 1);
    assert!(matches!(&diff[0], DiffOp::Update(r) if r.line == "dep == 1.0"));
}

#[test]
fn diff_orders_changes_before_removals() {
    let old = parse_requirements("gone\nkept==1\n# note");
    let new = parse_requirements("# other note\nkept==2\nfresh");
    let diff = differ(&old, &new);
    assert_eq!(diff.len(), 3);
    assert!(matches!(&diff[0], DiffOp::Update(r) if r.line == "kept==2"));
    assert!(matches!(&diff[1], DiffOp::Add(r) if r.line == "fresh"));
    assert!(matches!(&diff[2], DiffOp::Remove(n) if n == "gone"));
}

#[test]
fn diff_duplicate_identity_uses_last() {
    let old = parse_requirements("dep==1\ndep==2");
    let new = parse_requirements("dep==2");
    let diff = differ(&old, &new);
    assert!(diff.is_empty());
}
