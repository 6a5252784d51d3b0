use code_sync::cache::ChangeCache;
use code_sync::fingerprint::fingerprint;
use code_sync::walk::{contains_bytes, is_ignored, observed, WalkEntry};

fn frags() -> Vec<String> {
    [".env", "output", "dist", "target", "build"].iter().map(|s| s.to_string()).collect()
}

#[test]
fn fingerprint_is_deterministic() {
    let a = fingerprint(b"some bytes");
    let b = fingerprint(b"some bytes");
    assert_eq!(a, b);
    assert_ne!(fingerprint(b"some bytes"), fingerprint(b"other bytes"));
}

#[test]
fn fingerprint_known_values() {
    assert_eq!(fingerprint(b""), "e3b0c44298fc1c149afbf4c8996fb92427ae41e4649b934ca495991b7852b855");
    assert_eq!(fingerprint(b"hello"), "2cf24dba5fb0a30e26e83b2ac5b9e29e1b161e5c1fa7425e73043362938b9824");
    assert_eq!(fingerprint(b"hello").len(), 64);
}

#[test]
fn substring_search() {
    assert!(contains_bytes(b"/root/target/x", b"target"));
    assert!(contains_bytes(b"abc", b""));
    assert!(contains_bytes(b"", b""));
    assert!(contains_bytes(b"abc", b"abc"));
    assert!(contains_bytes(b"abc", b"c"));
    assert!(!contains_bytes(b"ab", b"abc"));
    assert!(!contains_bytes(b"aab", b"abb"));
}

#[test]
fn ignored_fragments() {
    let f = frags();
    assert!(is_ignored("/w/project/target/debug/x.o", &f));
    assert!(is_ignored("/w/project/.env", &f));
    assert!(is_ignored("/w/project/my_build_notes.txt", &f));
    assert!(!is_ignored("/w/project/src/main.rs", &f));
    assert!(!is_ignored("/w/project/src/main.rs", &Vec::new()));
}

#[test]
fn observed_skips_ignored_and_non_files() {
    let entries = vec![
        WalkEntry { path: "/w/a.txt".to_string(), is_file: true },
        WalkEntry { path: "/w/dist".to_string(), is_file: false },
        WalkEntry { path: "/w/dist/bundle.js".to_string(), is_file: true },
        WalkEntry { path: "/w/src".to_string(), is_file: false },
        WalkEntry { path: "/w/src/lib.rs".to_string(), is_file: true },
        WalkEntry { path: "/w/output/new_later.txt".to_string(), is_file: true },
    ];
    assert_eq!(observed(&entries, &frags()), vec![0, 4]);
    assert_eq!(observed(&Vec::new(), &frags()), Vec::<usize>::new());
}

#[test]
fn cache_put_get_keys() {
    let mut c = ChangeCache::new();
    assert_eq!(c.get(&"x".to_string()), None);
    assert!(c.keys().is_empty());
    c.put("x".to_string(), "1".to_string());
    c.put("y".to_string(), "2".to_string());
    c.put("x".to_string(), "3".to_string());
    assert_eq!(c.get(&"x".to_string()), Some("3".to_string()));
    assert_eq!(c.get(&"y".to_string()), Some("2".to_string()));
    assert!(c.contains(&"y".to_string()));
    assert!(!c.contains(&"z".to_string()));
    let mut k = c.keys();
    k.sort();
    assert_eq!(k, vec!["x".to_string(), "y".to_string()]);
}
