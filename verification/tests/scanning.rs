use webp_batch::scan::{ext_supported, get_folder_file_paths, path_wanted, strip_root};

#[test]
fn supported_extensions_ignore_case() {
    assert!(ext_supported("png"));
    assert!(ext_supported("PNG"));
    assert!(ext_supported("jPeG"));
    assert!(ext_supported("gif"));
    assert!(ext_supported("WEBP"));
    assert!(!ext_supported("txt"));
    assert!(!ext_supported("pn"));
    assert!(!ext_supported(""));
}

#[test]
fn wanted_needs_a_supported_extension() {
    assert!(path_wanted("a/b/x.png"));
    assert!(path_wanted("a/b/X.JPG"));
    assert!(!path_wanted("a/b/x.txt"));
    assert!(!path_wanted("a/b/png"));
    assert!(!path_wanted("a/b/.png"));
}

#[test]
fn strip_root_gives_relative_path() {
    assert_eq!(strip_root("a/b/x.png", "a"), Some(String::from("b/x.png")));
    assert_eq!(strip_root("a/x.png", "a"), Some(String::from("x.png")));
    assert_eq!(strip_root("ab/x.png", "a"), None);
    assert_eq!(strip_root("b/x.png", "a"), None);
    assert_eq!(strip_root("a", "a"), None);
}

#[test]
fn scan_keeps_each_supported_file_once() {
    let files = vec![
        String::from("a/b/x.png"),
        String::from("a/notes.txt"),
        String::from("a/c/y.GIF"),
        String::from("a/c/z.webp"),
        String::from("a/README"),
    ];
    let out = get_folder_file_paths(&files, "a").unwrap();
    assert_eq!(out.len(), 3);
    assert_eq!(out[0].path, "a/b/x.png");
    assert_eq!(out[0].tree_path, "b/x.png");
    assert_eq!(out[1].path, "a/c/y.GIF");
    assert_eq!(out[1].tree_path, "c/y.GIF");
    assert_eq!(out[2].path, "a/c/z.webp");
    assert_eq!(out[2].tree_path, "c/z.webp");
}

#[test]
fn scan_fails_when_a_kept_file_escapes_the_root() {
    let files = vec![String::from("a/b/x.png"), String::from("elsewhere/y.png")];
    assert!(get_folder_file_paths(&files, "a").is_err());
}

#[test]
fn scan_ignores_unwanted_files_outside_the_root() {
    let files = vec![String::from("a/b/x.png"), String::from("elsewhere/notes.txt")];
    let out = get_folder_file_paths(&files, "a").unwrap();
    assert_eq!(out.len(), 1);
    assert_eq!(out[0].tree_path, "b/x.png");
}

#[test]
fn scan_of_empty_listing_is_empty() {
    let files: Vec<String> = Vec::new();
    let out = get_folder_file_paths(&files, "a").unwrap();
    assert!(out.is_empty());
}
