use view3d::files::{
    approved_file, check_model_loaded, dir_list_approved_files, handle_file_nav_down,
    handle_file_nav_up, sort_entries, FileEntry, SortMode,
};

fn entry(name: &str, last_modified: u64) -> FileEntry {
    FileEntry { name: String::from(name), last_modified }
}

#[test]
fn approval_rules() {
    // Hidden names are rejected, directories or not.
    assert!(!approved_file(&String::from(".hidden.glb"), false));
    assert!(!approved_file(&String::from(".git"), true));
    // Directories are listed.
    assert!(approved_file(&String::from("textures"), true));
    // Model files by extension, case-insensitively.
    assert!(approved_file(&String::from("a.glb"), false));
    assert!(approved_file(&String::from("A.GLB"), false));
    assert!(approved_file(&String::from("scene.gltf"), false));
    assert!(approved_file(&String::from("scene.GlTf"), false));
    // Everything else is not.
    assert!(!approved_file(&String::from("a.png"), false));
    assert!(!approved_file(&String::from("glb"), false));
    assert!(!approved_file(&String::from("notes.txt"), false));
    assert!(!approved_file(&String::from(""), false));
}

#[test]
fn listing_filters_and_sorts_by_name() {
    let entries = vec![
        (false, entry("B.glb", 5)),
        (false, entry("a.glb", 9)),
        (true, entry("models", 1)),
        (false, entry(".secret.glb", 2)),
        (false, entry("readme.txt", 3)),
    ];
    let r = dir_list_approved_files(entries, SortMode::Name);
    let names: Vec<&str> = r.iter().map(|e| e.name.as_str()).collect();
    // The directory leads; files follow in case-folded name order, so
    // "a.glb" sorts before "B.glb" even though 'B' < 'a' by code point.
    assert_eq!(names, vec!["models", "a.glb", "B.glb"]);
}

#[test]
fn listing_sorts_by_date() {
    let entries = vec![
        (false, entry("new.glb", 3)),
        (false, entry("old.glb", 900)),
        (true, entry("dir", 50)),
    ];
    let r = dir_list_approved_files(entries, SortMode::Date);
    let names: Vec<&str> = r.iter().map(|e| e.name.as_str()).collect();
    // Directories first, then ascending by seconds-since-modified.
    assert_eq!(names, vec!["dir", "new.glb", "old.glb"]);
}

#[test]
fn sorting_permutes_in_place() {
    let mut v = vec![
        (false, entry("c.glb", 1)),
        (true, entry("zoo", 2)),
        (false, entry("A.glb", 3)),
    ];
    sort_entries(&mut v, SortMode::Name);
    let names: Vec<&str> = v.iter().map(|(_, e)| e.name.as_str()).collect();
    assert_eq!(names, vec!["zoo", "A.glb", "c.glb"]);
}

#[test]
fn nav_up_steps_and_wraps() {
    let list = vec![entry("a.glb", 0), entry("b.glb", 0), entry("c.glb", 0)];
    assert_eq!(handle_file_nav_up(&list, &String::from("b.glb")), Some(0));
    assert_eq!(handle_file_nav_up(&list, &String::from("a.glb")), Some(2));
    assert_eq!(handle_file_nav_up(&list, &String::from("missing.glb")), None);
}

#[test]
fn nav_down_steps_and_wraps() {
    let list = vec![entry("a.glb", 0), entry("b.glb", 0), entry("c.glb", 0)];
    assert_eq!(handle_file_nav_down(&list, &String::from("b.glb")), Some(2));
    assert_eq!(handle_file_nav_down(&list, &String::from("c.glb")), Some(0));
    assert_eq!(handle_file_nav_down(&list, &String::from("missing.glb")), None);
}

#[test]
fn model_stats_totals() {
    // Two meshes: 10 vertices with 9 indices (3 triangles), and 5
    // vertices with 7 indices (2 whole triangles).
    let meshes = vec![(10usize, 9usize), (5usize, 7usize)];
    let info = check_model_loaded(&meshes);
    assert_eq!(info.vertex_count, 15);
    assert_eq!(info.polygon_count, 5);

    let none: Vec<(usize, usize)> = Vec::new();
    let empty = check_model_loaded(&none);
    assert_eq!(empty.vertex_count, 0);
    assert_eq!(empty.polygon_count, 0);
}

#[test]
fn model_stats_saturate() {
    let meshes = vec![(usize::MAX, 3usize), (2usize, 0usize)];
    let info = check_model_loaded(&meshes);
    assert_eq!(info.vertex_count, usize::MAX);
    assert_eq!(info.polygon_count, 1);
}
