use mirror_sync::version::compare_versions;

#[test]
fn equal_versions_compare_equal() {
    assert_eq!(compare_versions("1.2.3".to_string(), "1.2.3".to_string()), 0);
    assert_eq!(compare_versions("0.0.0".to_string(), "0.0.0".to_string()), 0);
}

#[test]
fn missing_parts_read_as_zero() {
    assert_eq!(compare_versions("1.0.0".to_string(), "1".to_string()), 0);
    assert_eq!(compare_versions("1.2".to_string(), "1.2.1".to_string()), -1);
    assert_eq!(compare_versions("2".to_string(), "1.9.9".to_string()), 1);
}

#[test]
fn comparison_is_positional_not_textual() {
    assert_eq!(compare_versions("1.10.0".to_string(), "1.9.0".to_string()), 1);
    assert_eq!(compare_versions("0.9".to_string(), "1.0".to_string()), -1);
}

#[test]
fn non_numeric_segments_are_passed_over() {
    assert_eq!(compare_versions("1.x.2".to_string(), "1.2".to_string()), 0);
    assert_eq!(compare_versions("".to_string(), "0.0".to_string()), 0);
}
