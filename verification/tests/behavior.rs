use path_jail::{Jail, JailError};
use tempfile::tempdir;

#[test]
fn absolute_join_is_invalid_input() {
    let dir = tempdir().unwrap();
    let jail = Jail::new(dir.path().to_str().unwrap()).unwrap();

    let err = jail.join("/etc/passwd").unwrap_err();
    assert!(matches!(err, JailError::InvalidPath(_)));
    assert_eq!(err.message(), "invalid path: absolute paths not allowed");
}

#[test]
fn relative_contains_is_invalid_input() {
    let dir = tempdir().unwrap();
    let jail = Jail::new(dir.path().to_str().unwrap()).unwrap();

    let err = jail.contains("etc/passwd").unwrap_err();
    assert!(matches!(err, JailError::InvalidPath(_)));
    assert_eq!(err.message(), "invalid path: path must be absolute");
}

#[test]
fn dot_dot_at_root_reports_escape() {
    let dir = tempdir().unwrap();
    let jail = Jail::new(dir.path().to_str().unwrap()).unwrap();

    let err = jail.join("..").unwrap_err();
    match err {
        JailError::EscapedRoot { attempted, root } => {
            assert_eq!(attempted, "..");
            assert_eq!(root, jail.root());
        }
        other => panic!("expected an escape failure, got {:?}", other),
    }
}

#[test]
fn missing_root_is_io_failure() {
    let dir = tempdir().unwrap();
    let missing = format!("{}/no_such_dir", dir.path().to_str().unwrap());

    let err = Jail::new(&missing).unwrap_err();
    assert!(matches!(err, JailError::Io(_)));
}

#[test]
fn missing_absolute_path_is_io_failure() {
    let dir = tempdir().unwrap();
    let jail = Jail::new(dir.path().to_str().unwrap()).unwrap();

    let missing = format!("{}/no_such_entry", jail.root());
    let err = jail.contains(&missing).unwrap_err();
    assert!(matches!(err, JailError::Io(_)));
}

#[test]
fn outside_absolute_path_reports_escape() {
    let dir = tempdir().unwrap();
    let jail = Jail::new(dir.path().to_str().unwrap()).unwrap();

    let err = jail.contains("/").unwrap_err();
    match err {
        JailError::EscapedRoot { attempted, root } => {
            assert_eq!(attempted, "/");
            assert_eq!(root, jail.root());
        }
        other => panic!("expected an escape failure, got {:?}", other),
    }
}

#[test]
fn resolver_and_verifier_agree() {
    let dir = tempdir().unwrap();
    let jail = Jail::new(dir.path().to_str().unwrap()).unwrap();

    // An existing path resolves to the same canonical text either way.
    let via_resolver = jail.join(".").unwrap();
    let via_verifier = jail.contains(jail.root()).unwrap();
    assert_eq!(via_resolver, via_verifier);
    assert_eq!(via_resolver, jail.root());
}

#[test]
fn empty_input_resolves_to_root() {
    let dir = tempdir().unwrap();
    let jail = Jail::new(dir.path().to_str().unwrap()).unwrap();

    assert_eq!(jail.join("").unwrap(), jail.root());
}

#[test]
fn dot_components_are_transparent() {
    let dir = tempdir().unwrap();
    let jail = Jail::new(dir.path().to_str().unwrap()).unwrap();

    assert_eq!(jail.join("./foo/./bar").unwrap(), jail.join("foo/bar").unwrap());
}

#[test]
fn root_is_canonicalized() {
    let dir = tempdir().unwrap();
    let base = dir.path().to_str().unwrap();
    let jail = Jail::new(base).unwrap();

    // A `.`-laden spelling of the same directory canonicalizes to the same root.
    let dotted = format!("{}/.", base);
    let jail2 = Jail::new(&dotted).unwrap();
    assert_eq!(jail2.root(), jail.root());
    assert!(!jail2.root().ends_with("/."));
}

#[test]
fn repeated_separators_collapse() {
    let dir = tempdir().unwrap();
    let jail = Jail::new(dir.path().to_str().unwrap()).unwrap();

    assert_eq!(jail.join("a//b").unwrap(), jail.join("a/b").unwrap());
}

#[test]
fn internal_parent_navigation_of_new_paths() {
    let dir = tempdir().unwrap();
    let jail = Jail::new(dir.path().to_str().unwrap()).unwrap();

    // `..` between not-yet-existing segments stays inside the jail.
    let path = jail.join("a/b/../c").unwrap();
    assert!(path.starts_with(jail.root()));
    assert!(path.ends_with("a/c"));
}
