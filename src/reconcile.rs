//! One reconciliation cycle: which observed files must be written, the cache
//! of what is known to be stored as writes are confirmed, and which remote
//! documents must go.

use crate::cache::ChangeCache;
use crate::fingerprint::{fingerprint, sha256_hex};
use vstd::prelude::*;

verus! {

/// A file observed in this cycle.
pub struct FileRecord {
    /// The path relative to the watched root; also the document's name.
    pub path: String,
    pub content: Vec<u8>,
    pub fingerprint: String,
    /// When the file was read, as the store's `last_synced` text.
    pub observed_at: String,
}

impl FileRecord {
    /// A record for `content` read at `path`, with its fingerprint computed.
    pub fn new(path: String, content: Vec<u8>, observed_at: String) -> (r: FileRecord)
        ensures
            r.path@ == path@,
            r.content@ == content@,
            r.observed_at@ == observed_at@,
            r.fingerprint@ == sha256_hex(content@),
    {
        let fp = fingerprint(content.as_slice());
        FileRecord { path, content, fingerprint: fp, observed_at }
    }
}

/// The record's fingerprint is the one of its content.
pub open spec fn record_wf(r: FileRecord) -> bool {
    r.fingerprint@ == sha256_hex(r.content@)
}

/// The cache already holds the record's fingerprint for its path.
pub open spec fn unchanged(prior: Map<Seq<char>, Seq<char>>, r: FileRecord) -> bool {
    prior.contains_key(r.path@) && prior[r.path@] == r.fingerprint@
}

/// No two records share a path.
pub open spec fn paths_distinct(rs: Seq<FileRecord>) -> bool {
    forall|i: int, j: int| 0 <= i < j < rs.len() ==> rs[i].path@ != rs[j].path@
}

/// `writes` lists, in ascending order, exactly the indices of the records
/// that are new or modified with respect to `prior`.
pub open spec fn is_write_set(
    prior: Map<Seq<char>, Seq<char>>,
    rs: Seq<FileRecord>,
    writes: Seq<usize>,
) -> bool {
    &&& forall|j: int, l: int| 0 <= j < l < writes.len() ==> writes[j] < writes[l]
    &&& forall|j: int| 0 <= j < writes.len() ==> writes[j] < rs.len()
    &&& forall|i: int|
        0 <= i < rs.len() ==> (!unchanged(prior, #[trigger] rs[i]) <==> writes.contains(
            i as usize,
        ))
}

/// The record at `i` is among the first `done` writes.
pub open spec fn written(writes: Seq<usize>, done: int, i: int) -> bool {
    exists|j: int| 0 <= j < done && writes[j] == i
}

/// The record at `i` is known to be stored: it was unchanged, or its write
/// was confirmed.
pub open spec fn settled(
    prior: Map<Seq<char>, Seq<char>>,
    rs: Seq<FileRecord>,
    writes: Seq<usize>,
    done: int,
    i: int,
) -> bool {
    unchanged(prior, rs[i]) || written(writes, done, i)
}

/// `m` maps exactly the paths of the settled records to their fingerprints.
pub open spec fn holds_settled(
    m: Map<Seq<char>, Seq<char>>,
    prior: Map<Seq<char>, Seq<char>>,
    rs: Seq<FileRecord>,
    writes: Seq<usize>,
    done: int,
) -> bool {
    &&& forall|i: int|
        0 <= i < rs.len() && #[trigger] settled(prior, rs, writes, done, i) ==> m.contains_key(
            rs[i].path@,
        ) && m[rs[i].path@] == rs[i].fingerprint@
    &&& forall|k: Seq<char>|
        #[trigger] m.contains_key(k) ==> exists|i: int|
            0 <= i < rs.len() && settled(prior, rs, writes, done, i) && rs[i].path@ == k
}

/// `m` maps exactly the records' paths to their fingerprints.
pub open spec fn mirrors(m: Map<Seq<char>, Seq<char>>, rs: Seq<FileRecord>) -> bool {
    &&& forall|i: int|
        0 <= i < rs.len() ==> m.contains_key(#[trigger] rs[i].path@) && m[rs[i].path@]
            == rs[i].fingerprint@
    &&& forall|k: Seq<char>|
        #[trigger] m.contains_key(k) ==> exists|i: int| 0 <= i < rs.len() && rs[i].path@ == k
}

/// The names, in order, that are absent from `keep`.
pub open spec fn stale(names: Seq<Seq<char>>, keep: Map<Seq<char>, Seq<char>>) -> Seq<Seq<char>>
    decreases names.len(),
{
    if names.len() == 0 {
        Seq::empty()
    } else {
        let rest = stale(names.drop_last(), keep);
        if keep.contains_key(names.last()) {
            rest
        } else {
            rest.push(names.last())
        }
    }
}

/// The texts of a list of strings.
pub open spec fn texts(v: Seq<String>) -> Seq<Seq<char>> {
    v.map_values(|s: String| s@)
}

/// A cycle in progress over the files observed by one scan.
pub struct Cycle {
    records: Vec<FileRecord>,
    writes: Vec<usize>,
    done: usize,
    known: ChangeCache,
    prior: Ghost<Map<Seq<char>, Seq<char>>>,
}

impl Cycle {
    /// The files observed by the scan.
    pub closed spec fn records(&self) -> Seq<FileRecord> {
        self.records@
    }

    /// The indices of the records to write, in order.
    pub closed spec fn writes(&self) -> Seq<usize> {
        self.writes@
    }

    /// How many writes have been confirmed.
    pub closed spec fn done(&self) -> int {
        self.done as int
    }

    /// What is known to be stored remotely: path to fingerprint.
    pub closed spec fn known(&self) -> Map<Seq<char>, Seq<char>> {
        self.known@
    }

    /// The cache that the cycle started from.
    pub closed spec fn prior(&self) -> Map<Seq<char>, Seq<char>> {
        self.prior@
    }

    pub closed spec fn wf(&self) -> bool {
        &&& self.known.wf()
        &&& paths_distinct(self.records@)
        &&& self.records@.len() <= usize::MAX
        &&& is_write_set(self.prior@, self.records@, self.writes@)
        &&& self.done <= self.writes@.len()
        &&& holds_settled(self.known@, self.prior@, self.records@, self.writes@, self.done as int)
    }

    /// What a well-formed cycle guarantees.
    pub proof fn lemma_wf(&self)
        requires
            self.wf(),
        ensures
            paths_distinct(self.records()),
            is_write_set(self.prior(), self.records(), self.writes()),
            0 <= self.done() <= self.writes().len(),
            holds_settled(self.known(), self.prior(), self.records(), self.writes(), self.done()),
    {
    }

    /// Starts a cycle: every record whose fingerprint `prior` already holds
    /// is known to be stored and needs no write; every other record, new or
    /// modified, is to be written, in scan order. Nothing is confirmed yet.
    pub fn start(prior: &ChangeCache, records: Vec<FileRecord>) -> (r: Cycle)
        requires
            prior.wf(),
            paths_distinct(records@),
        ensures
            r.wf(),
            r.records() == records@,
            r.prior() == prior@,
            r.done() == 0,
            is_write_set(prior@, records@, r.writes()),
            holds_settled(r.known(), prior@, records@, r.writes(), 0),
    {
        let mut known = ChangeCache::new();
        let mut writes: Vec<usize> = Vec::new();
        let mut i: usize = 0;
        while i < records.len()
            invariant
                prior.wf(),
                known.wf(),
                paths_distinct(records@),
                i <= records@.len(),
                forall|j: int, l: int| 0 <= j < l < writes@.len() ==> writes@[j] < writes@[l],
                forall|j: int| 0 <= j < writes@.len() ==> writes@[j] < i,
                forall|t: int|
                    0 <= t < i ==> (!unchanged(prior@, #[trigger] records@[t])
                        <==> writes@.contains(t as usize)),
                forall|t: int|
                    0 <= t < i && unchanged(prior@, #[trigger] records@[t]) ==> known@.contains_key(
                        records@[t].path@,
                    ) && known@[records@[t].path@] == records@[t].fingerprint@,
                forall|k: Seq<char>|
                    #[trigger] known@.contains_key(k) ==> exists|t: int|
                        0 <= t < i && unchanged(prior@, records@[t]) && records@[t].path@ == k,
            decreases records@.len() - i,
        {
            let rec = &records[i];
            let same = match prior.get(&rec.path) {
                Some(f) => f == rec.fingerprint,
                None => false,
            };
            if same {
                let ghost before = known@;
                known.put(rec.path.clone(), rec.fingerprint.clone());
                proof {
                    assert forall|t: int|
                        0 <= t < i && unchanged(prior@, #[trigger] records@[t]) implies known@.contains_key(
                        records@[t].path@,
                    ) && known@[records@[t].path@] == records@[t].fingerprint@ by {
                        assert(records@[t].path@ != records@[i as int].path@);
                    }
                    assert forall|k: Seq<char>| #[trigger] known@.contains_key(k) implies exists|t: int|
                        0 <= t < i + 1 && unchanged(prior@, records@[t]) && records@[t].path@ == k by {
                        if k != records@[i as int].path@ {
                            assert(before.contains_key(k));
                        }
                    }
                }
            } else {
                let ghost before = writes@;
                writes.push(i);
                proof {
                    assert forall|t: int| 0 <= t < i implies #[trigger] writes@.contains(t as usize)
                        == before.contains(t as usize) by {
                        if before.contains(t as usize) {
                            let w = choose|w: int| 0 <= w < before.len() && before[w] == t as usize;
                            assert(writes@[w] == t as usize);
                        }
                        if writes@.contains(t as usize) {
                            let w = choose|w: int| 0 <= w < writes@.len() && writes@[w] == t as usize;
                            assert(w < before.len());
                            assert(before[w] == t as usize);
                        }
                    }
                    assert(writes@[writes@.len() - 1] == i);
                }
            }
            i = i + 1;
        }
        let ghost g = prior@;
        let count: usize = records.len();
        assert(records@.len() == count);
        let r = Cycle { records, writes, done: 0, known, prior: Ghost(g) };
        proof {
            assert forall|t: int|
                0 <= t < r.records@.len() && #[trigger] settled(g, r.records@, r.writes@, 0, t)
                implies r.known@.contains_key(r.records@[t].path@)
                && r.known@[r.records@[t].path@] == r.records@[t].fingerprint@ by {
                assert(unchanged(g, r.records@[t]));
            }
            assert forall|k: Seq<char>| #[trigger] r.known@.contains_key(k) implies exists|t: int|
                0 <= t < r.records@.len() && settled(g, r.records@, r.writes@, 0, t)
                    && r.records@[t].path@ == k by {
                let t = choose|t: int|
                    0 <= t < r.records@.len() && unchanged(g, r.records@[t]) && r.records@[t].path@
                        == k;
                assert(settled(g, r.records@, r.writes@, 0, t));
            }
        }
        r
    }

    /// The index of the record to write next, or `None` once every write of
    /// the cycle has been confirmed.
    pub fn next_write(&self) -> (r: Option<usize>)
        requires
            self.wf(),
        ensures
            self.done() < self.writes().len() ==> r == Some(self.writes()[self.done()]),
            self.done() >= self.writes().len() ==> r is None,
    {
        if self.done < self.writes.len() {
            Some(self.writes[self.done])
        } else {
            None
        }
    }

    /// The record at `i`.
    pub fn record(&self, i: usize) -> (r: &FileRecord)
        requires
            i < self.records().len(),
        ensures
            *r == self.records()[i as int],
    {
        &self.records[i]
    }

    /// Records that the store confirmed the next write: its path and
    /// fingerprint join what is known to be stored.
    pub fn confirm_write(&mut self)
        requires
            old(self).wf(),
            old(self).done() < old(self).writes().len(),
        ensures
            final(self).wf(),
            final(self).records() == old(self).records(),
            final(self).writes() == old(self).writes(),
            final(self).prior() == old(self).prior(),
            final(self).done() == old(self).done() + 1,
            final(self).known() == old(self).known().insert(
                old(self).records()[old(self).writes()[old(self).done()] as int].path@,
                old(self).records()[old(self).writes()[old(self).done()] as int].fingerprint@,
            ),
    {
        let i = self.writes[self.done];
        let count: usize = self.writes.len();
        assert(self.done < count);
        let ghost before = self.known@;
        let ghost d = self.done as int;
        let path = self.records[i].path.clone();
        let fp = self.records[i].fingerprint.clone();
        self.known.put(path, fp);
        self.done = self.done + 1;
        proof {
            let rs = self.records@;
            let w = self.writes@;
            let p = self.prior@;
            assert forall|t: int| 0 <= t < rs.len() implies #[trigger] settled(p, rs, w, d + 1, t)
                == (settled(p, rs, w, d, t) || t == i) by {
                if written(w, d + 1, t) && !written(w, d, t) {
                    let j = choose|j: int| 0 <= j < d + 1 && w[j] == t;
                    if j < d {
                        assert(written(w, d, t));
                    }
                }
                if t == i {
                    assert(w[d] == t);
                }
                if written(w, d, t) {
                    let j = choose|j: int| 0 <= j < d && w[j] == t;
                    assert(written(w, d + 1, t));
                }
            }
            assert forall|t: int|
                0 <= t < rs.len() && #[trigger] settled(p, rs, w, d + 1, t) implies self.known@.contains_key(
                rs[t].path@,
            ) && self.known@[rs[t].path@] == rs[t].fingerprint@ by {
                if t != i {
                    assert(rs[t].path@ != rs[i as int].path@);
                    assert(settled(p, rs, w, d, t));
                }
            }
            assert forall|k: Seq<char>| #[trigger] self.known@.contains_key(k) implies exists|t: int|
                0 <= t < rs.len() && settled(p, rs, w, d + 1, t) && rs[t].path@ == k by {
                if k == rs[i as int].path@ {
                    assert(settled(p, rs, w, d + 1, i as int));
                } else {
                    assert(before.contains_key(k));
                    let t = choose|t: int| 0 <= t < rs.len() && settled(p, rs, w, d, t) && rs[t].path@ == k;
                    assert(settled(p, rs, w, d + 1, t));
                }
            }
        }
    }

    /// Once every write is confirmed, what is known to be stored is exactly
    /// the scan's files with their fingerprints.
    pub proof fn lemma_complete(&self)
        requires
            self.wf(),
            self.done() == self.writes().len(),
        ensures
            mirrors(self.known(), self.records()),
    {
        let rs = self.records@;
        let w = self.writes@;
        let p = self.prior@;
        let d = self.done as int;
        assert forall|t: int| 0 <= t < rs.len() implies #[trigger] settled(p, rs, w, d, t) by {
            if !unchanged(p, rs[t]) {
                assert(w.contains(t as usize));
                let j = choose|j: int| 0 <= j < w.len() && w[j] == t as usize;
                assert(written(w, d, t));
            }
        }
        assert forall|t: int| 0 <= t < rs.len() implies self.known@.contains_key(
            #[trigger] rs[t].path@,
        ) && self.known@[rs[t].path@] == rs[t].fingerprint@ by {
            assert(settled(p, rs, w, d, t));
        }
    }

    /// The names of the remote documents to delete: those of `remote_names`,
    /// in order, whose path the cycle does not know to be stored. Asked only
    /// once every write is confirmed, so that nothing this scan found is
    /// taken for gone.
    pub fn deletions(&self, remote_names: &Vec<String>) -> (r: Vec<String>)
        requires
            self.wf(),
            self.done() == self.writes().len(),
        ensures
            texts(r@) == stale(texts(remote_names@), self.known()),
    {
        let ghost names = texts(remote_names@);
        let mut r: Vec<String> = Vec::new();
        let mut i: usize = 0;
        while i < remote_names.len()
            invariant
                self.wf(),
                i <= remote_names@.len(),
                names == texts(remote_names@),
                texts(r@) == stale(names.take(i as int), self.known@),
            decreases remote_names@.len() - i,
        {
            let name = &remote_names[i];
            let ghost before = r@;
            assert(names.take(i + 1).drop_last() =~= names.take(i as int));
            assert(names.take(i + 1).last() == name@);
            if !self.known.contains(name) {
                r.push(name.clone());
                assert(texts(r@) =~= texts(before).push(name@));
            }
            i = i + 1;
        }
        assert(names.take(remote_names@.len() as int) =~= names);
        r
    }

    /// Ends the cycle, handing back what is known to be stored, to be the
    /// next cycle's cache. After an aborted cycle that is the unchanged files
    /// and the confirmed writes; a write that was not confirmed leaves its
    /// path out, so that the next cycle sends the file again.
    pub fn into_cache(self) -> (r: ChangeCache)
        requires
            self.wf(),
        ensures
            r.wf(),
            r@ == self.known(),
            self.done() == self.writes().len() ==> mirrors(r@, self.records()),
    {
        if self.done == self.writes.len() {
            proof {
                self.lemma_complete();
            }
        }
        self.known
    }
}

} // verus!
