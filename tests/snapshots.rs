use kompari::names::{contains, is_image_file_name, join, name_less, same_name};
use kompari::snapshots::{dead_snapshot_names, find_dead_snapshots, list_image_dir, snapshot_removals};

fn strings(items: &[&str]) -> Vec<String> {
    items.iter().map(|s| s.to_string()).collect()
}

#[test]
fn dead_snapshot_is_the_one_not_regenerated() {
    let current = strings(&["a.png"]);
    let snapshots = strings(&["a.png", "b.png"]);
    assert_eq!(dead_snapshot_names(&current, &snapshots), strings(&["b.png"]));
    assert_eq!(
        find_dead_snapshots("tests/current", &current, &snapshots),
        strings(&["tests/current/b.png"])
    );
}

#[test]
fn dead_snapshots_removed_only_when_asked() {
    let dead = strings(&["b.png"]);
    assert_eq!(
        snapshot_removals("tests/snapshots", &dead, true),
        strings(&["tests/snapshots/b.png"])
    );
    assert!(snapshot_removals("tests/snapshots", &dead, false).is_empty());
}

#[test]
fn dead_snapshots_sorted_and_unique() {
    let current = strings(&["b.png"]);
    let snapshots = strings(&["z.png", "b.png", "c.png", "z.png"]);
    assert_eq!(dead_snapshot_names(&current, &snapshots), strings(&["c.png", "z.png"]));
    assert!(dead_snapshot_names(&snapshots, &snapshots).is_empty());
}

#[test]
fn clean_twice_removes_nothing_more() {
    let entries = strings(&["a.png", "notes.txt", "C.PNG", ".png"]);
    let removed = list_image_dir("dir", &entries);
    assert_eq!(removed, strings(&["dir/a.png", "dir/C.PNG"]));
    let remaining: Vec<String> = entries.into_iter().filter(|e| !is_image_file_name(e)).collect();
    assert_eq!(remaining, strings(&["notes.txt", ".png"]));
    assert!(list_image_dir("dir", &remaining).is_empty());
}

#[test]
fn join_puts_one_separator() {
    assert_eq!(join("dir", "a.png"), "dir/a.png");
    assert_eq!(join("dir/", "a.png"), "dir/a.png");
    assert_eq!(join("", "a.png"), "a.png");
    assert_eq!(join("dir", "/abs.png"), "/abs.png");
}

#[test]
fn name_order_is_by_code_point() {
    assert!(name_less("a.png", "b.png"));
    assert!(name_less("B.png", "a.png"));
    assert!(name_less("ab", "abc"));
    assert!(!name_less("abc", "abc"));
    assert!(name_less("z", "é"));
    assert!(same_name("é.png", "é.png"));
    assert!(!same_name("a.png", "a.pn"));
}

#[test]
fn substring_search() {
    assert!(contains("button_red.png", "red"));
    assert!(contains("anything", ""));
    assert!(!contains("Button", "button"));
    assert!(!contains("ab", "abc"));
}
