use file_index::background::{parse_update_time, process_search_request, update_all_drives};
use file_index::search_engine::{Search, SearchEngine};

#[test]
fn search_engine_test_new() {
    let search = Search::new();
    assert!(search.indexed_files.is_empty());
    assert_eq!(search.root_dir, String::from("C:\\"));
}

#[test]
fn test_set_root_dir() {
    let mut search = Search::new();
    let new_root = String::from("D:\\");
    search.set_root_dir(new_root.clone());
    assert_eq!(search.root_dir, new_root);
}

#[test]
fn test_generate_and_get_index() {
    let mut search = Search::new();
    let entries = vec![String::from("/usr/bin/cmd"), String::from("/tmp/notes.txt")];
    search.generate_index(&entries);
    assert_eq!(search.get_index(), &entries);
}

#[test]
fn test_flat_save_and_load_round_trip() {
    let mut search = Search::new();
    search.set_root_dir(String::from("D:\\"));
    let entries = vec![String::from("/usr/bin/cmd"), String::from("/tmp/notes.txt")];
    search.generate_index(&entries);

    let (name, bytes) = search.save_index();
    assert_eq!(name, "index D");

    let mut fresh = Search::new();
    fresh.load_index(Some(&bytes));
    assert_eq!(fresh.get_index(), &entries);
}

#[test]
fn test_flat_load_absent_or_corrupt() {
    let mut search = Search::new();
    search.generate_index(&vec![String::from("/a")]);
    search.load_index(None);
    assert!(search.get_index().is_empty());

    search.load_index(Some(&vec![9u8, 9, 9]));
    assert!(search.get_index().is_empty());
}

#[test]
fn test_search_matches_file_names() {
    let mut search = Search::new();
    let entries = vec![
        String::from("/usr/bin/cmd.exe"),
        String::from("/tmp/readme.txt"),
        String::from("C:\\tools\\cmdline.txt"),
    ];
    search.generate_index(&entries);

    let r = search.search(&String::from("cmd"));
    assert_eq!(
        r,
        vec![
            String::from("/usr/bin/cmd.exe"),
            String::from("C:\\tools\\cmdline.txt"),
        ]
    );
}

#[test]
fn test_search_uses_regex_syntax() {
    let mut search = Search::new();
    let entries = vec![
        String::from("/a/cat.txt"),
        String::from("/b/cut.txt"),
        String::from("/c/copy.txt"),
    ];
    search.generate_index(&entries);

    // the dot matches any character, anchors work
    let r = search.search(&String::from("^c.t"));
    assert_eq!(r, vec![String::from("/a/cat.txt"), String::from("/b/cut.txt")]);
}

#[test]
fn test_search_invalid_pattern_falls_back() {
    let mut search = Search::new();
    let entries = vec![
        String::from("/a/cat.txt"),
        String::from("/b/NoneSuch.log"),
    ];
    search.generate_index(&entries);

    // "(" does not compile; the fallback pattern matches the literal None
    let r = search.search(&String::from("("));
    assert_eq!(r, vec![String::from("/b/NoneSuch.log")]);
}

#[test]
fn test_parse_update_time_number() {
    assert_eq!(parse_update_time("123", 600), 123);
    assert_eq!(parse_update_time("0", 600), 0);
    assert_eq!(parse_update_time("+7", 600), 7);
    assert_eq!(parse_update_time("18446744073709551615", 600), u64::MAX);
}

#[test]
fn test_parse_update_time_fallback() {
    assert_eq!(parse_update_time("", 600), 600);
    assert_eq!(parse_update_time("abc", 600), 600);
    assert_eq!(parse_update_time("12x", 600), 600);
    assert_eq!(parse_update_time("+", 600), 600);
    assert_eq!(parse_update_time("18446744073709551616", 600), 600);
    assert_eq!(parse_update_time("99999999999999999999999", 600), 600);
}

#[test]
fn test_process_search_request() {
    let mut engine = Search::new();
    let entries = vec![String::from("/d/one.txt"), String::from("/d/two.txt")];
    let (name, bytes) = process_search_request(&mut engine, "D:\\", &entries);

    assert_eq!(name, "index D");
    assert_eq!(engine.get_root_dir(), "D:\\");
    // the in-memory list is released once the shard is handed over
    assert!(engine.get_index().is_empty());

    let mut fresh = Search::new();
    fresh.load_index(Some(&bytes));
    assert_eq!(fresh.get_index(), &entries);
}

#[test]
fn test_update_all_drives() {
    let drives = update_all_drives();
    assert_eq!(drives.len(), 26);
    assert_eq!(drives[0], "A:\\");
    assert_eq!(drives[2], "C:\\");
    assert_eq!(drives[25], "Z:\\");
}
