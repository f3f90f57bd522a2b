use file_index::codec::decode_node;
use file_index::data::Node;
use file_index::generate::{FileEntry, Search};

fn entry(name: &str, dir: &str) -> FileEntry {
    FileEntry { name: String::from(name), dir: String::from(dir) }
}

#[test]
fn test_exact_query_scenario() {
    let mut search = Search::new();
    let entries = vec![entry("cmd.exe", "/usr/bin"), entry("cmd.old", "/tmp")];
    search.generate_index(&entries, '*');

    let r = search.search("cmd.exe").unwrap();
    assert_eq!(r, vec![String::from("/usr/bin/cmd.exe")]);
}

#[test]
fn test_wildcard_query_scenario() {
    let mut search = Search::new();
    let entries = vec![entry("cmd.exe", "/usr/bin"), entry("cmd.old", "/tmp")];
    search.generate_index(&entries, '*');

    let r = search.search("cmd?").unwrap();
    assert_eq!(r.len(), 2);
    assert!(r.contains(&String::from("/usr/bin/cmd.exe")));
    assert!(r.contains(&String::from("/tmp/cmd.old")));
}

#[test]
fn test_query_miss_scenario() {
    let mut search = Search::new();
    let entries = vec![entry("cmd.exe", "/usr/bin"), entry("cmd.old", "/tmp")];
    search.generate_index(&entries, '*');

    assert!(search.search("cmdx").is_err());
}

#[test]
fn test_query_empty_index_fails() {
    let mut search = Search::new();
    assert!(search.search("anything").is_err());
    assert!(search.search("a?").is_err());
}

#[test]
fn test_wildcard_superset_of_exact() {
    let mut search = Search::new();
    let entries = vec![
        entry("cmd", "/a"),
        entry("cmd.exe", "/b"),
        entry("cmdline", "/c"),
    ];
    search.generate_index(&entries, '*');

    let exact = search.search("cmd").unwrap();
    let wild = search.search("cmd?").unwrap();
    // the exact results stand first in the wildcard results, in order
    assert!(wild.len() >= exact.len());
    assert_eq!(&wild[..exact.len()], &exact[..]);
    assert_eq!(exact, vec![String::from("/a/cmd")]);
    assert_eq!(wild.len(), 3);
}

#[test]
fn test_extension_query() {
    let mut search = Search::new();
    let entries = vec![entry("cmd.exe", "/usr/bin"), entry("notes.txt", "/home")];
    search.generate_index(&entries, '*');

    // extension lookups descend the reserved dot bucket
    let r = search.search(".exe").unwrap();
    assert_eq!(r, vec![String::from("/usr/bin/cmd.exe")]);
    let all_txt = search.search(".txt?").unwrap();
    assert_eq!(all_txt, vec![String::from("/home/notes.txt")]);
}

#[test]
fn test_selector_restricts_crawl() {
    let mut search = Search::new();
    let entries = vec![entry("cmd.exe", "/usr/bin"), entry("notes.txt", "/home")];
    search.generate_index(&entries, 'c');

    assert!(search.search("cmd.exe").is_ok());
    assert!(search.search("notes.txt").is_err());
}

#[test]
fn test_hidden_files_left_out_of_primary() {
    let mut search = Search::new();
    let entries = vec![entry(".bashrc", "/home/user"), entry("readme", "/home/user")];
    search.generate_index(&entries, '*');

    // hidden names never reach the primary index ...
    assert!(search.search(".bashrc").is_err());
    assert!(search.search("readme").is_ok());
    // ... but still feed the extension index under their own name
    let r = search.search("..bashrc").unwrap();
    assert_eq!(r, vec![String::from("/home/user/.bashrc")]);
}

#[test]
fn test_generate_is_full_rebuild() {
    let mut search = Search::new();
    let first = vec![entry("old.txt", "/a")];
    search.generate_index(&first, '*');
    let second = vec![entry("new.txt", "/b")];
    search.generate_index(&second, '*');

    assert!(search.search("old.txt").is_err());
    assert!(search.search("new.txt").is_ok());
}

#[test]
fn test_generate_index_idempotent() {
    let entries = vec![
        entry("cmd.exe", "/usr/bin"),
        entry("cmd.old", "/tmp"),
        entry(".hidden", "/h"),
        entry("Makefile", "/src"),
    ];
    let mut s1 = Search::new();
    s1.generate_index(&entries, '*');
    let mut s2 = Search::new();
    s2.generate_index(&entries, '*');
    // prior state must not matter either
    s2.generate_index(&entries, '*');

    // identical contents: the persisted shards are byte-for-byte equal
    let shards1 = s1.save_index("scope");
    let shards2 = s2.save_index("scope");
    assert_eq!(shards1, shards2);
    assert!(!shards1.is_empty());
}

#[test]
fn test_save_and_load_index() {
    let mut search = Search::new();
    let entries = vec![entry("cmd.exe", "/usr/bin"), entry("cmd.old", "/tmp")];
    search.generate_index(&entries, '*');

    let shards = search.save_index("idx");
    // saving clears the in-memory index
    assert_eq!(search.index.len(), 1);
    assert!(search.index.is_empty());

    let c_shard = shards
        .iter()
        .find(|(name, _)| name == "idx/data-cfalse")
        .expect("bucket file for c");
    let mut fresh = Search::new();
    fresh.load_index('c', Some(&c_shard.1));
    assert_eq!(
        fresh.search("cmd.exe").unwrap(),
        vec![String::from("/usr/bin/cmd.exe")]
    );
    assert_eq!(
        fresh.search("cmd?").unwrap(),
        vec![String::from("/usr/bin/cmd.exe"), String::from("/tmp/cmd.old")]
    );
}

#[test]
fn test_save_empty_index_is_noop() {
    let mut search = Search::new();
    let shards = search.save_index("idx");
    assert!(shards.is_empty());
}

#[test]
fn test_case_buckets_get_distinct_files() {
    let mut search = Search::new();
    let entries = vec![entry("cmd", "/lower"), entry("Cmd", "/upper")];
    search.generate_index(&entries, '*');

    let shards = search.save_index("idx");
    let names: Vec<&String> = shards.iter().map(|(n, _)| n).collect();
    assert!(names.contains(&&String::from("idx/data-cfalse")));
    assert!(names.contains(&&String::from("idx/data-Ctrue")));

    // loading the lower-case bucket must not return upper-case entries
    let c_shard = shards.iter().find(|(n, _)| n == "idx/data-cfalse").unwrap();
    let mut fresh = Search::new();
    fresh.load_index('c', Some(&c_shard.1));
    assert_eq!(fresh.search("cmd").unwrap(), vec![String::from("/lower/cmd")]);
    assert!(fresh.search("Cmd").is_err());
}

#[test]
fn test_load_missing_shard_resets_index() {
    let mut search = Search::new();
    let entries = vec![entry("cmd", "/bin")];
    search.generate_index(&entries, '*');

    search.load_index('z', None);
    assert!(search.index.is_empty());
    assert!(search.search("cmd").is_err());
}

#[test]
fn test_load_corrupt_shard_resets_index() {
    let mut search = Search::new();
    search.load_index('c', Some(&vec![1u8, 2, 3]));
    assert!(search.index.is_empty());

    // trailing garbage after a valid shard is corruption too
    let mut donor = Search::new();
    donor.generate_index(&vec![entry("cmd", "/bin")], '*');
    let shards = donor.save_index("idx");
    let mut bytes = shards[0].1.clone();
    bytes.push(0);
    search.load_index('c', Some(&bytes));
    assert!(search.index.is_empty());
}

#[test]
fn test_node_encoding_round_trip() {
    let mut node = Node::new();
    node.insert("key", String::from("/some/path"));
    node.insert("key", String::from("/other/path"));
    node.insert("kin", String::from("/a"));

    let bytes = node.encode();
    let (decoded, consumed) = decode_node(&bytes, 0).expect("decodes");
    assert_eq!(consumed, bytes.len());
    assert_eq!(decoded.len(), node.len());
    let vals = decoded.get("key").unwrap().val();
    assert_eq!(vals.len(), 2);
    assert_eq!(vals[0], "/some/path");
    assert_eq!(vals[1], "/other/path");
    assert_eq!(decoded.get("kin").unwrap().val()[0], "/a");
}

#[test]
fn test_decode_rejects_garbage() {
    assert!(decode_node(&vec![], 0).is_none());
    assert!(decode_node(&vec![0xff; 7], 0).is_none());
    let huge_count = vec![0xffu8; 16];
    assert!(decode_node(&huge_count, 0).is_none());
}
