use webp_batch::pathname::{file_name, join, parent_dir, replace_ext};
use webp_batch::resolve::{candidate_path, contains_path, dec_string, get_available_file_path};

#[test]
fn file_name_of_nested_path() {
    assert_eq!(file_name("a/b/x.png"), "x.png");
    assert_eq!(file_name("x.png"), "x.png");
    assert_eq!(file_name("a/b/"), "");
}

#[test]
fn parent_dir_of_relative_path() {
    assert_eq!(parent_dir("b/x.png"), "b");
    assert_eq!(parent_dir("a/b/x.png"), "a/b");
    assert_eq!(parent_dir("x.png"), "");
}

#[test]
fn join_inserts_one_separator() {
    assert_eq!(join("out", "b"), "out/b");
    assert_eq!(join("out/", "b"), "out/b");
    assert_eq!(join("out", ""), "out");
    assert_eq!(join("", "b"), "b");
}

#[test]
fn replace_ext_keeps_stem_and_directory() {
    assert_eq!(replace_ext("a/b/x.png", "webp"), "a/b/x.webp");
    assert_eq!(replace_ext("x.tar.gz", "webp"), "x.tar.webp");
    assert_eq!(replace_ext("x", "webp"), "x.webp");
    assert_eq!(replace_ext(".hidden", "webp"), ".hidden.webp");
}

#[test]
fn dec_string_writes_decimal() {
    assert_eq!(dec_string(0), "0");
    assert_eq!(dec_string(7), "7");
    assert_eq!(dec_string(12), "12");
    assert_eq!(dec_string(907), "907");
}

#[test]
fn candidate_appends_counter_before_extension() {
    assert_eq!(candidate_path("out/x.webp", 1), "out/x-1.webp");
    assert_eq!(candidate_path("out/x.webp", 12), "out/x-12.webp");
    assert_eq!(candidate_path("x.webp", 3), "x-3.webp");
}

#[test]
fn contains_path_finds_exact_entry() {
    let listing = vec![String::from("out/x.webp"), String::from("out/y.webp")];
    assert!(contains_path(&listing, "out/x.webp"));
    assert!(!contains_path(&listing, "out/z.webp"));
}

#[test]
fn resolve_returns_free_path_unchanged() {
    let listing = vec![String::from("out/y.webp")];
    assert_eq!(get_available_file_path("out/x.webp", &listing), "out/x.webp");
}

#[test]
fn resolve_returns_free_path_even_without_extension() {
    let listing = vec![String::from("out/y.webp")];
    assert_eq!(get_available_file_path("out/x", &listing), "out/x");
}

#[test]
fn resolve_suffixes_counter_on_collision() {
    let listing = vec![String::from("out/x.webp")];
    assert_eq!(get_available_file_path("out/x.webp", &listing), "out/x-1.webp");
}

#[test]
fn resolve_skips_taken_counters() {
    let listing = vec![
        String::from("out/x.webp"),
        String::from("out/x-1.webp"),
        String::from("out/x-2.webp"),
    ];
    assert_eq!(get_available_file_path("out/x.webp", &listing), "out/x-3.webp");
}

#[test]
fn resolve_never_repeats_in_sequence() {
    let mut listing = vec![String::from("out/x.webp")];
    let first = get_available_file_path("out/x.webp", &listing);
    listing.push(first.clone());
    let second = get_available_file_path("out/x.webp", &listing);
    assert_eq!(first, "out/x-1.webp");
    assert_eq!(second, "out/x-2.webp");
    assert_ne!(first, second);
}
