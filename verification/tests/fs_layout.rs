use path_jail::Jail;
use symlink::symlink_dir;
use tempfile::tempdir;

#[test]
fn allows_internal_parent_navigation() {
    let dir = tempdir().unwrap();
    let jail = Jail::new(dir.path().to_str().unwrap()).unwrap();

    // Create a/b directory structure
    fs_err::create_dir_all(dir.path().join("a/b")).unwrap();

    // Navigate with .. but stay inside jail
    let path = jail.join("a/b/../c").unwrap();
    assert!(path.starts_with(jail.root()));
    assert!(path.ends_with("a/c"));
}

#[test]
fn catches_symlink_escape() {
    let dir = tempdir().unwrap();
    let jail = Jail::new(dir.path().to_str().unwrap()).unwrap();

    // Create a symlink pointing outside the jail
    let link = dir.path().join("evil");
    symlink_dir("/etc", &link).unwrap();

    // Attempting to traverse through the symlink should fail
    assert!(jail.join("evil/passwd").is_err());
}

#[test]
fn allows_internal_symlinks() {
    let dir = tempdir().unwrap();
    let jail = Jail::new(dir.path().to_str().unwrap()).unwrap();

    // Create a real directory and a symlink pointing to it (inside jail)
    fs_err::create_dir(dir.path().join("real")).unwrap();
    symlink_dir(dir.path().join("real"), dir.path().join("link")).unwrap();

    // Symlink inside jail should be allowed
    let path = jail.join("link").unwrap();
    assert!(path.starts_with(jail.root()));
}

#[test]
fn internal_symlink_resolves_to_target() {
    let dir = tempdir().unwrap();
    let jail = Jail::new(dir.path().to_str().unwrap()).unwrap();

    fs_err::create_dir(dir.path().join("real")).unwrap();
    symlink_dir(dir.path().join("real"), dir.path().join("link")).unwrap();

    // The resolved path is the canonical target, not the link's name
    let path = jail.join("link").unwrap();
    assert_eq!(path, jail.join("real").unwrap());
    assert!(path.ends_with("real"));
}
