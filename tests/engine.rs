use std::collections::BTreeMap;

use dedupe::detect::{find_duplicates, DuplicateGroup};
use dedupe::hasher::ContentHasher;
use dedupe::index::{fresh_record, index_key, needs_rehash};
use dedupe::record::{decimal_bytes, parse_u64_bytes, FileEntry};
use dedupe::relocate::{plan_relocation, relocation_outcome, Relocation};

fn entry(path: &str, hash: &str, mtime: u64) -> FileEntry {
    FileEntry { path: path.to_string(), hash: hash.to_string(), mtime }
}

fn digest(chunks: &[&[u8]]) -> String {
    let mut h = ContentHasher::new();
    for c in chunks {
        h.update(c);
    }
    h.finalize_hex()
}

/// One scan over an in-memory index: returns how many files were hashed.
fn scan(store: &mut BTreeMap<Vec<u8>, Vec<u8>>, files: &[(&str, u64, &str)]) -> usize {
    let mut hashed = 0;
    for (path, mtime, content) in files {
        let key = index_key(path);
        if needs_rehash(store.get(&key).map(|v| v.as_slice()), *mtime) {
            hashed += 1;
            let (k, v) = fresh_record(path, digest(&[content.as_bytes()]), *mtime);
            store.insert(k, v);
        }
    }
    hashed
}

fn sorted_groups(groups: Vec<DuplicateGroup>) -> Vec<(String, Vec<String>)> {
    let mut out: Vec<(String, Vec<String>)> = groups
        .into_iter()
        .map(|g| {
            let mut p = g.paths;
            p.sort();
            (g.hash, p)
        })
        .collect();
    out.sort();
    out
}

#[test]
fn record_encodes_fields_in_order() {
    let e = entry("dir/a.txt", "abc123", 1700000000);
    assert_eq!(e.to_bytes(), b"dir/a.txt|abc123|1700000000".to_vec());
}

#[test]
fn record_round_trips() {
    let e = entry("ä/ö.txt", "ff00", u64::MAX);
    let back = FileEntry::from_bytes(&e.to_bytes()).unwrap();
    assert_eq!(back.path, e.path);
    assert_eq!(back.hash, e.hash);
    assert_eq!(back.mtime, e.mtime);
}

#[test]
fn record_with_empty_fields_round_trips() {
    let back = FileEntry::from_bytes(b"||0").unwrap();
    assert_eq!(back.path, "");
    assert_eq!(back.hash, "");
    assert_eq!(back.mtime, 0);
}

#[test]
fn malformed_records_are_rejected() {
    assert!(FileEntry::from_bytes(b"").is_none());
    assert!(FileEntry::from_bytes(b"a|b").is_none());
    assert!(FileEntry::from_bytes(b"a|b|1|2").is_none());
    assert!(FileEntry::from_bytes(b"a|b|x1").is_none());
    assert!(FileEntry::from_bytes(b"a|b|").is_none());
    assert!(FileEntry::from_bytes(b"a|b|-1").is_none());
    assert!(FileEntry::from_bytes(b"a|b|18446744073709551616").is_none());
    assert!(FileEntry::from_bytes(&[0xff, b'|', b'h', b'|', b'1']).is_none());
}

#[test]
fn record_mtime_accepts_plus_sign() {
    assert_eq!(FileEntry::from_bytes(b"a|b|+7").unwrap().mtime, 7);
    assert_eq!(FileEntry::from_bytes(b"a|b|18446744073709551615").unwrap().mtime, u64::MAX);
}

#[test]
fn decimal_digits() {
    assert_eq!(decimal_bytes(0), b"0".to_vec());
    assert_eq!(decimal_bytes(907), b"907".to_vec());
    assert_eq!(parse_u64_bytes(b"0042"), Some(42));
    assert_eq!(parse_u64_bytes(b"+"), None);
    assert_eq!(parse_u64_bytes(b"99999999999999999999"), None);
}

#[test]
fn index_key_is_path_bytes() {
    assert_eq!(index_key("/data/ä.txt"), "/data/ä.txt".as_bytes().to_vec());
    assert_ne!(index_key("/data/a.txt"), index_key("/data/b.txt"));
}

#[test]
fn cache_decision() {
    let stored = entry("a", "h", 10).to_bytes();
    assert!(needs_rehash(None, 10));
    assert!(!needs_rehash(Some(&stored), 10));
    assert!(needs_rehash(Some(&stored), 11));
    assert!(needs_rehash(Some(b"garbage"), 10));
}

#[test]
fn fresh_record_is_keyed_by_path() {
    let (k, v) = fresh_record("x/y", "d".to_string(), 5);
    assert_eq!(k, b"x/y".to_vec());
    assert_eq!(v, b"x/y|d|5".to_vec());
}

#[test]
fn digest_ignores_chunking() {
    let whole = digest(&[b"hello"]);
    assert_eq!(whole, digest(&[b"he", b"llo"]));
    assert_eq!(whole, digest(&[b"", b"h", b"ello", b""]));
    assert_eq!(whole, blake3::hash(b"hello").to_hex().to_string());
    assert_eq!(whole.len(), 64);
    assert_ne!(whole, digest(&[b"hello!"]));
}

#[test]
fn rescan_of_unchanged_tree_hashes_nothing() {
    let files = [("r/a.txt", 1, "one"), ("r/b.txt", 2, "two"), ("r/c.txt", 3, "one")];
    let mut store = BTreeMap::new();
    assert_eq!(scan(&mut store, &files), 3);
    let first = store.clone();
    assert_eq!(scan(&mut store, &files), 0);
    assert_eq!(store, first);
}

#[test]
fn changed_mtime_is_rehashed() {
    let mut store = BTreeMap::new();
    scan(&mut store, &[("r/a.txt", 1, "old")]);
    assert_eq!(scan(&mut store, &[("r/a.txt", 2, "new")]), 1);
    let e = FileEntry::from_bytes(&store[&index_key("r/a.txt")]).unwrap();
    assert_eq!(e.hash, digest(&[b"new"]));
    assert_eq!(e.mtime, 2);
}

#[test]
fn unchanged_mtime_hides_content_change() {
    let mut store = BTreeMap::new();
    scan(&mut store, &[("r/a.txt", 1, "old")]);
    assert_eq!(scan(&mut store, &[("r/a.txt", 1, "new")]), 0);
    let e = FileEntry::from_bytes(&store[&index_key("r/a.txt")]).unwrap();
    assert_eq!(e.hash, digest(&[b"old"]));
}

#[test]
fn walk_order_does_not_change_index() {
    let files = [("r/a", 1, "x"), ("r/b", 2, "y"), ("r/c", 3, "x"), ("r/d", 4, "z")];
    let mut reversed = files;
    reversed.reverse();
    let shuffled = [files[2], files[0], files[3], files[1]];
    let mut s1 = BTreeMap::new();
    let mut s2 = BTreeMap::new();
    let mut s3 = BTreeMap::new();
    scan(&mut s1, &files);
    scan(&mut s2, &reversed);
    scan(&mut s3, &shuffled);
    assert_eq!(s1, s2);
    assert_eq!(s1, s3);
}

#[test]
fn grouping_keeps_shared_digests_only() {
    let values = vec![
        entry("p1", "a", 1).to_bytes(),
        entry("p2", "a", 1).to_bytes(),
        entry("p3", "b", 1).to_bytes(),
        entry("p4", "c", 1).to_bytes(),
        entry("p5", "c", 1).to_bytes(),
        entry("p6", "c", 1).to_bytes(),
    ];
    let groups = sorted_groups(find_duplicates(&values));
    assert_eq!(
        groups,
        vec![
            ("a".to_string(), vec!["p1".to_string(), "p2".to_string()]),
            ("c".to_string(), vec!["p4".to_string(), "p5".to_string(), "p6".to_string()]),
        ]
    );
}

#[test]
fn grouping_skips_malformed_values() {
    let values = vec![
        entry("p1", "a", 1).to_bytes(),
        b"not a record".to_vec(),
        entry("p2", "a", 2).to_bytes(),
    ];
    let groups = find_duplicates(&values);
    assert_eq!(groups.len(), 1);
    assert_eq!(groups[0].paths, vec!["p1".to_string(), "p2".to_string()]);
}

#[test]
fn grouping_of_nothing_is_empty() {
    assert!(find_duplicates(&Vec::new()).is_empty());
    let single = vec![entry("p1", "a", 1).to_bytes()];
    assert!(find_duplicates(&single).is_empty());
}

#[test]
fn relocation_moves_all_but_first() {
    let groups = vec![DuplicateGroup {
        hash: "h".to_string(),
        paths: vec!["x/a.txt".to_string(), "y/b.txt".to_string(), "z/c.txt".to_string()],
    }];
    let plan = plan_relocation(&groups, "dup");
    assert_eq!(plan.len(), 2);
    assert_eq!(plan[0].source, "y/b.txt");
    assert_eq!(plan[0].target.as_deref(), Some("dup/b.txt"));
    assert_eq!(plan[1].source, "z/c.txt");
    assert_eq!(plan[1].target.as_deref(), Some("dup/c.txt"));
    assert!(plan.iter().all(|m| m.source != "x/a.txt"));
}

#[test]
fn relocation_without_file_name_has_no_target() {
    let groups = vec![DuplicateGroup {
        hash: "h".to_string(),
        paths: vec!["a".to_string(), "b/..".to_string()],
    }];
    let plan = plan_relocation(&groups, "dup");
    assert_eq!(plan.len(), 1);
    assert_eq!(plan[0].target, None);
}

#[test]
fn relocation_reports_first_failure() {
    let plan: Vec<Relocation> = ["p", "q", "r"]
        .iter()
        .map(|s| Relocation { source: s.to_string(), target: Some(format!("d/{}", s)) })
        .collect();
    assert!(relocation_outcome(&plan, &vec![true, true, true]).is_ok());
    assert_eq!(relocation_outcome(&plan, &vec![true, false, false]).unwrap_err().source, "q");
    assert!(relocation_outcome(&Vec::new(), &Vec::new()).is_ok());
}

#[test]
fn hello_scenario() {
    let h = digest(&[b"hello"]);
    let values = vec![
        fresh_record("a.txt", h.clone(), 1).1,
        fresh_record("b.txt", h.clone(), 1).1,
    ];
    let groups = find_duplicates(&values);
    assert_eq!(groups.len(), 1);
    assert_eq!(groups[0].hash, h);
    assert_eq!(groups[0].paths, vec!["a.txt".to_string(), "b.txt".to_string()]);
    let plan = plan_relocation(&groups, "dup");
    assert_eq!(plan.len(), 1);
    assert_eq!(plan[0].source, "b.txt");
    assert_eq!(plan[0].target.as_deref(), Some("dup/b.txt"));
}
