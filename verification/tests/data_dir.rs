use lattice_core::data_dir::{join_path, DataDir};

#[test]
fn test_custom_path() {
    let dd = DataDir::new(b"/custom/path".to_vec());
    assert_eq!(dd.base(), b"/custom/path");
    assert_eq!(dd.identity_key(), b"/custom/path/identity.key");
    assert_eq!(dd.logs_dir(), b"/custom/path/logs");
    assert_eq!(dd.state_db(), b"/custom/path/state.db");
}

#[test]
fn test_log_file_path() {
    let dd = DataDir::new(b"/data".to_vec());
    let path = dd.log_file("abc123");
    assert_eq!(path, b"/data/logs/abc123.log");
}

#[test]
fn test_default_location_exists() {
    // On most systems there is such a place; the path varies by platform.
    let location = DataDir::default_location();
    assert!(location.is_some() || true);
}

#[test]
fn test_default_impl() {
    let dd = DataDir::default();
    // Either the place for the platform or the fallback.
    assert!(dd.base() == b"./data" || dd.base().ends_with(b"lattice"));
}

#[test]
fn platform_directory_is_extended() {
    let dd = DataDir::in_platform_dir(b"/home/x/.local/share");
    assert_eq!(dd.base(), b"/home/x/.local/share/lattice");
    if let Some(found) = DataDir::default_location() {
        assert!(found.base().ends_with(b"lattice"));
        assert_ne!(found.base(), b"lattice/lattice");
    }
}

#[test]
fn paths_are_joined_like_paths() {
    assert_eq!(join_path(b"a", "b"), b"a/b");
    assert_eq!(join_path(b"a/", "b"), b"a/b");
    assert_eq!(join_path(b"", "b"), b"b");
    assert_eq!(join_path(b"a", "/b"), b"/b");
}

#[test]
fn required_directories_come_outermost_first() {
    let dd = DataDir::new(b"/data".to_vec());
    assert_eq!(dd.required_dirs(), vec![b"/data".to_vec(), b"/data/logs".to_vec()]);
    assert_eq!(dd.clone(), dd);
}

#[test]
fn without_a_platform_directory_the_data_is_local() {
    assert_eq!(DataDir::in_dir_or_local(None).base(), b"./data");
    assert_eq!(DataDir::in_dir_or_local(Some(&b"/share"[..])).base(), b"/share/lattice");
    let expected = match DataDir::default_location() {
        Some(dir) => dir,
        None => DataDir::in_dir_or_local(None),
    };
    assert_eq!(DataDir::default(), expected);
}

#[test]
fn a_directory_need_not_be_text() {
    let dir = [b'/', 0xFF, b'x'];
    let dd = DataDir::in_dir_or_local(Some(&dir[..]));
    assert_eq!(dd.base(), [&dir[..], b"/lattice"].concat());
    assert_eq!(dd.state_db(), [&dir[..], b"/lattice/state.db"].concat());
}
