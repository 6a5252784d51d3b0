use code_sync::cache::ChangeCache;
use code_sync::fingerprint::fingerprint;
use code_sync::reconcile::{Cycle, FileRecord};
use std::collections::BTreeMap;

/// An in-memory document store: name to (content, hash).
type Store = BTreeMap<String, (Vec<u8>, String)>;

struct Outcome {
    cache: ChangeCache,
    upserts: Vec<(String, String)>,
    deletes: Vec<String>,
}

fn records(files: &[(&str, &str)]) -> Vec<FileRecord> {
    files
        .iter()
        .map(|(p, c)| FileRecord::new(p.to_string(), c.as_bytes().to_vec(), "t".to_string()))
        .collect()
}

fn run_cycle(cache: &ChangeCache, files: &[(&str, &str)], store: &mut Store) -> Outcome {
    let mut cycle = Cycle::start(cache, records(files));
    let mut upserts = Vec::new();
    while let Some(i) = cycle.next_write() {
        let r = cycle.record(i);
        store.insert(r.path.clone(), (r.content.clone(), r.fingerprint.clone()));
        upserts.push((r.path.clone(), r.fingerprint.clone()));
        cycle.confirm_write();
    }
    let names: Vec<String> = store.keys().cloned().collect();
    let deletes = cycle.deletions(&names);
    for n in &deletes {
        store.remove(n);
    }
    Outcome { cache: cycle.into_cache(), upserts, deletes }
}

fn fp(s: &str) -> String {
    fingerprint(s.as_bytes())
}

#[test]
fn create_scenario() {
    let mut store = Store::new();
    let first = run_cycle(&ChangeCache::new(), &[], &mut store);
    assert_eq!(first.upserts.len(), 0);
    assert_eq!(first.deletes.len(), 0);
    let second = run_cycle(&first.cache, &[("a.txt", "hello")], &mut store);
    assert_eq!(second.upserts, vec![("a.txt".to_string(), fp("hello"))]);
    assert_eq!(second.deletes.len(), 0);
    assert_eq!(
        store.get("a.txt").map(|d| d.1.clone()),
        Some("2cf24dba5fb0a30e26e83b2ac5b9e29e1b161e5c1fa7425e73043362938b9824".to_string())
    );
}

#[test]
fn modify_scenario() {
    let mut store = Store::new();
    let one = run_cycle(&ChangeCache::new(), &[("a.txt", "hello"), ("b.txt", "keep")], &mut store);
    assert_eq!(one.upserts.len(), 2);
    let two = run_cycle(&one.cache, &[("a.txt", "world"), ("b.txt", "keep")], &mut store);
    assert_eq!(two.upserts, vec![("a.txt".to_string(), fp("world"))]);
    assert_eq!(two.deletes.len(), 0);
    assert_eq!(store.get("a.txt").map(|d| d.1.clone()), Some(fp("world")));
    assert_eq!(store.get("b.txt").map(|d| d.1.clone()), Some(fp("keep")));
    assert_eq!(two.cache.get(&"a.txt".to_string()), Some(fp("world")));
}

#[test]
fn delete_scenario() {
    let mut store = Store::new();
    let one = run_cycle(&ChangeCache::new(), &[("a.txt", "hello")], &mut store);
    let two = run_cycle(&one.cache, &[], &mut store);
    assert_eq!(two.upserts.len(), 0);
    assert_eq!(two.deletes, vec!["a.txt".to_string()]);
    assert!(store.is_empty());
    assert!(!two.cache.contains(&"a.txt".to_string()));
}

#[test]
fn no_op_scenario() {
    let mut store = Store::new();
    let files = [("a.txt", "hello"), ("src/b.rs", "fn b() {}")];
    let one = run_cycle(&ChangeCache::new(), &files, &mut store);
    let two = run_cycle(&one.cache, &files, &mut store);
    assert_eq!(two.upserts.len(), 0);
    assert_eq!(two.deletes.len(), 0);
    let three = run_cycle(&two.cache, &files, &mut store);
    assert_eq!(three.upserts.len(), 0);
    assert_eq!(three.deletes.len(), 0);
    assert_eq!(store.len(), 2);
}

#[test]
fn rewrite_with_same_bytes_is_not_sent() {
    let mut store = Store::new();
    let one = run_cycle(&ChangeCache::new(), &[("a.txt", "hello")], &mut store);
    let again = String::from("hel") + "lo";
    let two = run_cycle(&one.cache, &[("a.txt", again.as_str())], &mut store);
    assert_eq!(two.upserts.len(), 0);
}

#[test]
fn rename_converges() {
    let mut store = Store::new();
    let one = run_cycle(&ChangeCache::new(), &[("old.txt", "x"), ("z.txt", "z")], &mut store);
    let two = run_cycle(&one.cache, &[("new.txt", "x"), ("z.txt", "zz")], &mut store);
    assert_eq!(two.deletes, vec!["old.txt".to_string()]);
    assert_eq!(two.upserts.len(), 2);
    let names: Vec<&String> = store.keys().collect();
    assert_eq!(names, vec!["new.txt", "z.txt"]);
    assert_eq!(store.get("z.txt").map(|d| d.1.clone()), Some(fp("zz")));
    assert_eq!(store.get("new.txt").map(|d| d.0.clone()), Some(b"x".to_vec()));
}

#[test]
fn remote_only_documents_are_deleted() {
    let mut store = Store::new();
    store.insert("stray".to_string(), (vec![], fp("")));
    let one = run_cycle(&ChangeCache::new(), &[("a.txt", "hello")], &mut store);
    assert_eq!(one.deletes, vec!["stray".to_string()]);
    assert_eq!(store.len(), 1);
}

#[test]
fn write_set_in_scan_order() {
    let mut prior = ChangeCache::new();
    prior.put("b".to_string(), fp("b"));
    let cycle = Cycle::start(&prior, records(&[("a", "a"), ("b", "b"), ("c", "c")]));
    assert_eq!(cycle.next_write(), Some(0));
    let mut cycle = cycle;
    cycle.confirm_write();
    assert_eq!(cycle.next_write(), Some(2));
    cycle.confirm_write();
    assert_eq!(cycle.next_write(), None);
}

#[test]
fn aborted_cycle_keeps_only_confirmed_writes() {
    let mut prior = ChangeCache::new();
    prior.put("a".to_string(), fp("old"));
    prior.put("keep".to_string(), fp("k"));
    let mut cycle = Cycle::start(&prior, records(&[("a", "new"), ("keep", "k"), ("c", "c")]));
    assert_eq!(cycle.next_write(), Some(0));
    cycle.confirm_write();
    // the upsert of "c" fails: the cycle stops here
    let cache = cycle.into_cache();
    assert_eq!(cache.get(&"a".to_string()), Some(fp("new")));
    assert_eq!(cache.get(&"keep".to_string()), Some(fp("k")));
    assert_eq!(cache.get(&"c".to_string()), None);
    let mut keys = cache.keys();
    keys.sort();
    assert_eq!(keys, vec!["a".to_string(), "keep".to_string()]);
}

#[test]
fn record_carries_content_fingerprint() {
    let r = FileRecord::new("p".to_string(), b"hello".to_vec(), "2024-01-01T00:00:00+00:00".to_string());
    assert_eq!(r.fingerprint, "2cf24dba5fb0a30e26e83b2ac5b9e29e1b161e5c1fa7425e73043362938b9824");
    assert_eq!(r.content, b"hello".to_vec());
    assert_eq!(r.observed_at, "2024-01-01T00:00:00+00:00");
}

#[test]
fn unconfirmed_write_is_sent_next_cycle() {
    let mut store = Store::new();
    let mut cycle = Cycle::start(&ChangeCache::new(), records(&[("a", "1"), ("b", "2")]));
    assert_eq!(cycle.next_write(), Some(0));
    let r = cycle.record(0);
    store.insert(r.path.clone(), (r.content.clone(), r.fingerprint.clone()));
    cycle.confirm_write();
    // the write of "b" fails and the cycle stops
    let cache = cycle.into_cache();
    let next = run_cycle(&cache, &[("a", "1"), ("b", "2")], &mut store);
    assert_eq!(next.upserts, vec![("b".to_string(), fp("2"))]);
    assert_eq!(next.deletes.len(), 0);
    assert_eq!(store.len(), 2);
}
