//! What a cycle achieves against a remote store, modelled as a map from
//! document name to stored hash.

use crate::fingerprint::sha256_hex;
use crate::reconcile::{
    holds_settled, is_write_set, mirrors, paths_distinct, record_wf, settled, stale, unchanged,
    written, FileRecord,
};
use vstd::prelude::*;

verus! {

/// Every cached path is stored remotely, with the cached hash.
pub open spec fn agrees(cache: Map<Seq<char>, Seq<char>>, remote: Map<Seq<char>, Seq<char>>) -> bool {
    forall|k: Seq<char>|
        #[trigger] cache.contains_key(k) ==> remote.contains_key(k) && remote[k] == cache[k]
}

/// The store after upserting, in order, the records at `writes`.
pub open spec fn upserted(
    remote: Map<Seq<char>, Seq<char>>,
    rs: Seq<FileRecord>,
    writes: Seq<usize>,
) -> Map<Seq<char>, Seq<char>>
    decreases writes.len(),
{
    if writes.len() == 0 {
        remote
    } else {
        let r = rs[writes.last() as int];
        upserted(remote, rs, writes.drop_last()).insert(r.path@, r.fingerprint@)
    }
}

/// The store after deleting the documents named in `names`.
pub open spec fn deleted(remote: Map<Seq<char>, Seq<char>>, names: Seq<Seq<char>>) -> Map<
    Seq<char>,
    Seq<char>,
> {
    remote.remove_keys(names.to_set())
}

/// No record at `w` has path `k`.
pub open spec fn untouched(rs: Seq<FileRecord>, w: Seq<usize>, k: Seq<char>) -> bool {
    forall|j: int| 0 <= j < w.len() ==> #[trigger] rs[w[j] as int].path@ != k
}

proof fn lemma_upserted(remote: Map<Seq<char>, Seq<char>>, rs: Seq<FileRecord>, w: Seq<usize>)
    requires
        paths_distinct(rs),
        forall|j: int, l: int| 0 <= j < l < w.len() ==> w[j] < w[l],
        forall|j: int| 0 <= j < w.len() ==> w[j] < rs.len(),
    ensures
        forall|j: int|
            0 <= j < w.len() ==> upserted(remote, rs, w).contains_key(#[trigger] rs[w[j] as int].path@)
                && upserted(remote, rs, w)[rs[w[j] as int].path@] == rs[w[j] as int].fingerprint@,
        forall|k: Seq<char>|
            #[trigger] untouched(rs, w, k) ==> (upserted(remote, rs, w).contains_key(k)
                == remote.contains_key(k) && (remote.contains_key(k) ==> upserted(remote, rs, w)[k]
                == remote[k])),
    decreases w.len(),
{
    if w.len() > 0 {
        let v = w.drop_last();
        lemma_upserted(remote, rs, v);
        let last = w.last() as int;
        assert forall|j: int| 0 <= j < w.len() implies upserted(remote, rs, w).contains_key(
            #[trigger] rs[w[j] as int].path@,
        ) && upserted(remote, rs, w)[rs[w[j] as int].path@] == rs[w[j] as int].fingerprint@ by {
            if j < w.len() - 1 {
                assert(v[j] == w[j]);
                assert(rs[w[j] as int].path@ != rs[last].path@);
            }
        }
        assert forall|k: Seq<char>| #[trigger] untouched(rs, w, k) implies (upserted(
            remote,
            rs,
            w,
        ).contains_key(k) == remote.contains_key(k) && (remote.contains_key(k) ==> upserted(
            remote,
            rs,
            w,
        )[k] == remote[k])) by {
            assert(rs[w[w.len() - 1] as int].path@ != k);
            assert(rs[last].path@ != k);
            assert(upserted(remote, rs, w) == upserted(remote, rs, v).insert(rs[last].path@, rs[last].fingerprint@));
            assert forall|j: int| 0 <= j < v.len() implies #[trigger] rs[v[j] as int].path@ != k by {
                assert(v[j] == w[j]);
                assert(rs[w[j] as int].path@ != k);
            }
            assert(untouched(rs, v, k));
        }
    }
}

proof fn lemma_stale(names: Seq<Seq<char>>, keep: Map<Seq<char>, Seq<char>>)
    ensures
        forall|n: Seq<char>|
            #[trigger] stale(names, keep).contains(n) == (names.contains(n) && !keep.contains_key(
                n,
            )),
    decreases names.len(),
{
    if names.len() > 0 {
        let rest = names.drop_last();
        lemma_stale(rest, keep);
        assert forall|n: Seq<char>|
            #[trigger] stale(names, keep).contains(n) == (names.contains(n) && !keep.contains_key(
                n,
            )) by {
            if names.contains(n) && n != names.last() {
                let j = choose|j: int| 0 <= j < names.len() && names[j] == n;
                assert(rest[j] == n);
            }
            if rest.contains(n) {
                let j = choose|j: int| 0 <= j < rest.len() && rest[j] == n;
                assert(names[j] == n);
            }
            if !keep.contains_key(names.last()) {
                assert(stale(names, keep) == stale(rest, keep).push(names.last()));
                if stale(rest, keep).contains(n) {
                    let j = choose|j: int| 0 <= j < stale(rest, keep).len() && stale(rest, keep)[j] == n;
                    assert(stale(names, keep)[j] == n);
                }
                if stale(names, keep).contains(n) && n != names.last() {
                    let j = choose|j: int| 0 <= j < stale(names, keep).len() && stale(names, keep)[j] == n;
                    assert(stale(rest, keep)[j] == n);
                }
                assert(stale(names, keep)[stale(rest, keep).len() as int] == names.last());
            }
            assert(names[names.len() - 1] == names.last());
        }
    }
}

/// Convergence: if every path of the previous cache was stored with its
/// hash, then after a complete cycle (every write confirmed, then every
/// listed name that the cycle's cache lacks deleted) the store holds exactly
/// the scanned paths, each with the fingerprint of its current content, and
/// the cycle's cache again agrees with the store.
pub proof fn lemma_cycle_converges(
    prior: Map<Seq<char>, Seq<char>>,
    rs: Seq<FileRecord>,
    writes: Seq<usize>,
    cache: Map<Seq<char>, Seq<char>>,
    remote: Map<Seq<char>, Seq<char>>,
    listing: Seq<Seq<char>>,
)
    requires
        paths_distinct(rs),
        rs.len() <= usize::MAX,
        is_write_set(prior, rs, writes),
        mirrors(cache, rs),
        agrees(prior, remote),
        listing.to_set() == upserted(remote, rs, writes).dom(),
    ensures
        mirrors(deleted(upserted(remote, rs, writes), stale(listing, cache)), rs),
        agrees(cache, deleted(upserted(remote, rs, writes), stale(listing, cache))),
{
    let up = upserted(remote, rs, writes);
    let gone = stale(listing, cache);
    let after = deleted(up, gone);
    lemma_upserted(remote, rs, writes);
    lemma_stale(listing, cache);
    assert forall|i: int| 0 <= i < rs.len() implies after.contains_key(#[trigger] rs[i].path@)
        && after[rs[i].path@] == rs[i].fingerprint@ by {
        let p = rs[i].path@;
        assert(cache.contains_key(p));
        assert(!gone.contains(p));
        assert(!gone.to_set().contains(p));
        if writes.contains(i as usize) {
            let j = choose|j: int| 0 <= j < writes.len() && writes[j] == i as usize;
            assert(rs[writes[j] as int].path@ == p);
        } else {
            assert(unchanged(prior, rs[i]));
            assert(prior.contains_key(p));
            assert forall|j: int| 0 <= j < writes.len() implies #[trigger] rs[writes[j] as int].path@
                != p by {
                if writes[j] as int != i {
                    assert(writes[j] < rs.len());
                } else {
                    assert(writes.contains(i as usize));
                }
            }
            assert(untouched(rs, writes, p));
        }
    }
    assert forall|k: Seq<char>| #[trigger] after.contains_key(k) implies exists|i: int|
        0 <= i < rs.len() && rs[i].path@ == k by {
        assert(up.contains_key(k));
        assert(listing.to_set().contains(k));
        assert(!gone.to_set().contains(k));
        assert(!gone.contains(k));
        assert(cache.contains_key(k));
    }
    assert forall|k: Seq<char>| #[trigger] cache.contains_key(k) implies after.contains_key(k)
        && after[k] == cache[k] by {
        let i = choose|i: int| 0 <= i < rs.len() && rs[i].path@ == k;
        assert(after.contains_key(rs[i].path@));
    }
}

/// Idempotence: when neither the files nor the store changed since a cycle
/// that converged, the next cycle writes nothing and deletes nothing.
pub proof fn lemma_steady_state(
    prior: Map<Seq<char>, Seq<char>>,
    rs: Seq<FileRecord>,
    writes: Seq<usize>,
    cache: Map<Seq<char>, Seq<char>>,
    remote: Map<Seq<char>, Seq<char>>,
    listing: Seq<Seq<char>>,
)
    requires
        mirrors(prior, rs),
        mirrors(remote, rs),
        is_write_set(prior, rs, writes),
        mirrors(cache, rs),
        listing.to_set() == remote.dom(),
    ensures
        writes.len() == 0,
        stale(listing, cache).len() == 0,
{
    if writes.len() > 0 {
        let i = writes[0] as int;
        assert(writes.contains(writes[0]));
        assert(prior.contains_key(rs[i].path@));
        assert(unchanged(prior, rs[i]));
    }
    lemma_stale(listing, cache);
    let gone = stale(listing, cache);
    if gone.len() > 0 {
        let n = gone[0];
        assert(gone.contains(n));
        assert(listing.to_set().contains(n));
        assert(remote.contains_key(n));
        let i = choose|i: int| 0 <= i < rs.len() && rs[i].path@ == n;
        assert(cache.contains_key(rs[i].path@));
    }
}

/// Minimality: a file rewritten with the bytes it had when its fingerprint
/// was cached is not written.
pub proof fn lemma_same_bytes_not_written(
    prior: Map<Seq<char>, Seq<char>>,
    rs: Seq<FileRecord>,
    writes: Seq<usize>,
    i: usize,
    cached_bytes: Seq<u8>,
)
    requires
        is_write_set(prior, rs, writes),
        i < rs.len(),
        record_wf(rs[i as int]),
        prior.contains_key(rs[i as int].path@),
        prior[rs[i as int].path@] == sha256_hex(cached_bytes),
        rs[i as int].content@ == cached_bytes,
    ensures
        !writes.contains(i),
{
    assert(unchanged(prior, rs[i as int]));
}

/// A cycle that stops early, after confirming its first `done` writes and
/// deleting any names that its cache lacks, leaves a cache that still agrees
/// with the store: the next cycle starts from a sound baseline.
pub proof fn lemma_abort_keeps_agreement(
    prior: Map<Seq<char>, Seq<char>>,
    rs: Seq<FileRecord>,
    writes: Seq<usize>,
    done: int,
    known: Map<Seq<char>, Seq<char>>,
    remote: Map<Seq<char>, Seq<char>>,
    gone: Seq<Seq<char>>,
)
    requires
        paths_distinct(rs),
        rs.len() <= usize::MAX,
        is_write_set(prior, rs, writes),
        0 <= done <= writes.len(),
        holds_settled(known, prior, rs, writes, done),
        agrees(prior, remote),
        forall|n: Seq<char>| #[trigger] gone.contains(n) ==> !known.contains_key(n),
    ensures
        agrees(known, deleted(upserted(remote, rs, writes.take(done)), gone)),
{
    let w = writes.take(done);
    let up = upserted(remote, rs, w);
    let after = deleted(up, gone);
    lemma_upserted(remote, rs, w);
    assert forall|k: Seq<char>| #[trigger] known.contains_key(k) implies after.contains_key(k)
        && after[k] == known[k] by {
        let i = choose|i: int| 0 <= i < rs.len() && settled(prior, rs, writes, done, i) && rs[i].path@ == k;
        assert(known.contains_key(rs[i].path@));
        assert(!gone.contains(k));
        if written(writes, done, i) {
            let j = choose|j: int| 0 <= j < done && writes[j] == i;
            assert(w[j] == writes[j]);
            assert(rs[w[j] as int].path@ == k);
        } else {
            assert(unchanged(prior, rs[i]));
            assert forall|j: int| 0 <= j < w.len() implies #[trigger] rs[w[j] as int].path@ != k by {
                assert(w[j] == writes[j]);
                if writes[j] as int == i {
                    assert(writes.contains(i as usize));
                }
            }
            assert(untouched(rs, w, k));
        }
    }
}

} // verus!
