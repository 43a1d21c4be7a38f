use docdustry::address::{derived_id, html_path, invert_path, is_markdown, rel_url, shorthash};

fn hex6(s: &str) -> String {
    format!("{:x}", md5::compute(s))[..6].to_string()
}

#[test]
fn output_path_hashes_parent_directory() {
    assert_eq!(shorthash("a/b/c.md"), hex6("a/b"));
    assert_eq!(html_path("a/b/c.md"), format!("{}/c.html", hex6("a/b")));
    assert_eq!(html_path("top.md"), format!("{}/top.html", hex6("")));
    assert_eq!(html_path("d/x.tar.md"), format!("{}/x.tar.html", hex6("d")));
}

#[test]
fn output_path_is_stable_and_collision_free() {
    assert_eq!(html_path("x/c.md"), html_path("x/c.md"));
    assert_ne!(html_path("x/c.md"), html_path("y/c.md"));
    assert_ne!(html_path("x/c.md"), html_path("x/d.md"));
}

#[test]
fn url_is_one_level_up() {
    assert_eq!(rel_url("a/c.md"), format!("../{}/c.html", hex6("a")));
}

#[test]
fn derived_identifier_is_md5_of_path_and_title() {
    let a = derived_id("dir/x.md", "T");
    assert_eq!(a, format!("{:x}", md5::compute("dir/x.mdT")));
    assert_eq!(a.len(), 32);
    assert!(a.chars().all(|c| "0123456789abcdef".contains(c)));
    assert_eq!(a, derived_id("dir/x.md", "T"));
    assert_ne!(a, derived_id("dir/y.md", "T"));
}

fn strings(v: &[&str]) -> Vec<String> {
    v.iter().map(|s| s.to_string()).collect()
}

#[test]
fn invert_path_answers_each_component() {
    let cwd = strings(&["home", "me", "proj"]);
    assert_eq!(invert_path(&strings(&["..", "site"]), &cwd), Some(strings(&["..", "proj"])));
    assert_eq!(invert_path(&strings(&["..", "foo"]), &strings(&["x", "src"])), Some(strings(&["..", "src"])));
    assert_eq!(invert_path(&strings(&["out"]), &cwd), Some(strings(&[".."])));
    assert_eq!(invert_path(&strings(&["..", ".."]), &cwd), Some(strings(&["me", "proj"])));
    assert_eq!(invert_path(&strings(&[]), &cwd), Some(strings(&[])));
}

#[test]
fn invert_path_above_root_fails() {
    assert_eq!(invert_path(&strings(&[".."]), &strings(&[])), None);
    assert_eq!(invert_path(&strings(&["..", "..", ".."]), &strings(&["a", "b"])), None);
}

#[test]
fn markdown_extension() {
    assert!(is_markdown("a/b.md"));
    assert!(is_markdown("x.tar.md"));
    assert!(!is_markdown("a/.md"));
    assert!(!is_markdown("a/b.mdx"));
    assert!(!is_markdown("a.md/b"));
    assert!(!is_markdown("README"));
    assert_eq!(shorthash("a/b.md").len(), 6);
}
