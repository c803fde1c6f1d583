use mirror_sync::paths::{
    get_disabled_path, get_enabled_path, get_filename, is_disabled_filename, is_junk_file,
    should_skip_path,
};

#[test]
fn disabled_path_marks_the_basename() {
    assert_eq!(get_disabled_path("uniforms/home.png"), "uniforms/-home.png");
    assert_eq!(get_disabled_path("top.png"), "-top.png");
    assert_eq!(get_disabled_path("a/b/c.dat"), "a/b/-c.dat");
}

#[test]
fn enabled_path_strips_the_marker() {
    assert_eq!(
        get_enabled_path("uniforms/-home.png"),
        Some("uniforms/home.png".to_string())
    );
    assert_eq!(get_enabled_path("-top.png"), Some("top.png".to_string()));
    assert_eq!(get_enabled_path("uniforms/home.png"), None);
    assert_eq!(get_enabled_path("a-b/c.png"), None);
}

#[test]
fn enable_inverts_disable() {
    for p in ["a.txt", "d/e/f.bin", "x/-already.png", "d/.odd"] {
        let disabled = get_disabled_path(p);
        assert_eq!(get_enabled_path(&disabled), Some(p.to_string()));
    }
}

#[test]
fn disable_inverts_enable() {
    for p in ["-a.txt", "d/e/-f.bin", "x/--double.png"] {
        let enabled = get_enabled_path(p).unwrap();
        assert_eq!(get_disabled_path(&enabled), p);
    }
}

#[test]
fn filename_is_the_last_component() {
    assert_eq!(get_filename("a/b/c.txt"), "c.txt");
    assert_eq!(get_filename("c.txt"), "c.txt");
    assert_eq!(get_filename("a/"), "");
}

#[test]
fn dash_prefix_means_disabled() {
    assert!(is_disabled_filename("-c.txt"));
    assert!(!is_disabled_filename("c.txt"));
    assert!(!is_disabled_filename(""));
}

#[test]
fn user_customs_and_hidden_components_are_skipped() {
    assert!(should_skip_path("user-customs/stadium.png"));
    assert!(should_skip_path("deep/user-customs/x.png"));
    assert!(should_skip_path("a/user-customs"));
    assert!(should_skip_path(".git/config"));
    assert!(should_skip_path("a/.hidden/b.png"));
    assert!(should_skip_path("a/.hidden"));
    assert!(!should_skip_path("a/b.png"));
    assert!(!should_skip_path("a/-b.png"));
    // The reserved name counts only as a complete path component.
    assert!(!should_skip_path("xuser-customsy/z.png"));
    assert!(!should_skip_path("user-customs2/z.png"));
    assert!(!should_skip_path("auser-customs/z.png"));
}

#[test]
fn junk_files_are_hidden_or_known_os_metadata() {
    assert!(is_junk_file(".DS_Store"));
    assert!(is_junk_file("Thumbs.db"));
    assert!(is_junk_file("THUMBS.DB"));
    assert!(is_junk_file("desktop.ini"));
    assert!(is_junk_file("Desktop.INI"));
    assert!(is_junk_file("ehthumbs.db"));
    assert!(!is_junk_file("texture.png"));
    assert!(!is_junk_file("thumbs_db"));
}
