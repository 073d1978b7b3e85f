use path_jail::Jail;
use tempfile::tempdir;

#[test]
fn blocks_traversal() {
    let dir = tempdir().unwrap();
    let jail = Jail::new(dir.path().to_str().unwrap()).unwrap();

    // Try to escape
    assert!(jail.join("../secret").is_err());
    assert!(jail.join("../../etc/passwd").is_err());
    assert!(jail.join("foo/../../secret").is_err());
}

#[test]
fn allows_safe_new_files() {
    let dir = tempdir().unwrap();
    let jail = Jail::new(dir.path().to_str().unwrap()).unwrap();

    // "new_file.txt" doesn't exist yet, but should be valid
    let path = jail.join("subdir/new_file.txt").unwrap();

    // It should be absolute and start with the jail root (which is canonicalized)
    assert!(path.starts_with(jail.root()));
    assert!(path.ends_with("new_file.txt"));
}

#[test]
fn blocks_absolute_input() {
    let dir = tempdir().unwrap();
    let jail = Jail::new(dir.path().to_str().unwrap()).unwrap();

    let err = jail.join("/etc/passwd");
    assert!(err.is_err());
}

#[test]
fn blocks_dot_dot_at_root() {
    let dir = tempdir().unwrap();
    let jail = Jail::new(dir.path().to_str().unwrap()).unwrap();

    // Even a single .. at root should fail
    assert!(jail.join("..").is_err());
}

#[test]
fn handles_dot_components() {
    let dir = tempdir().unwrap();
    let jail = Jail::new(dir.path().to_str().unwrap()).unwrap();

    // Current dir components should be ignored
    let path = jail.join("./foo/./bar").unwrap();
    assert!(path.ends_with("foo/bar"));
}
