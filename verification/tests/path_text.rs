use cargo_tags::paths::{parse_path, to_display, NormPath};

fn segments(p: &NormPath) -> Vec<String> {
    p.segments.clone()
}

#[test]
fn parsing_splits_on_separators() {
    let p = parse_path("/repo/src/a.rs");
    assert_eq!(segments(&p), vec!["repo".to_string(), "src".to_string(), "a.rs".to_string()]);
}

#[test]
fn parsing_drops_empty_and_current_components() {
    let p = parse_path("/repo//src/./a.rs/");
    assert_eq!(segments(&p), vec!["repo".to_string(), "src".to_string(), "a.rs".to_string()]);
}

#[test]
fn parsing_resolves_parent_references() {
    let p = parse_path("/repo/src/../lib/b.rs");
    assert_eq!(segments(&p), vec!["repo".to_string(), "lib".to_string(), "b.rs".to_string()]);
}

#[test]
fn parent_references_stop_at_the_root() {
    let p = parse_path("/../../repo");
    assert_eq!(segments(&p), vec!["repo".to_string()]);
}

#[test]
fn two_spellings_normalize_alike() {
    let a = parse_path("/repo/src/../src/c.rs");
    let b = parse_path("/repo//src/./c.rs");
    assert!(a.same_path(&b));
}

#[test]
fn parent_of_a_file_is_its_directory() {
    let p = parse_path("/repo/src/a.rs");
    let d = p.parent();
    assert_eq!(segments(&d), vec!["repo".to_string(), "src".to_string()]);
}

#[test]
fn display_renders_root_and_nested_paths() {
    let dirs = vec![parse_path("/"), parse_path("/repo/src")];
    assert_eq!(to_display(&dirs), vec!["/".to_string(), "/repo/src".to_string()]);
}
