//! The change cache: relative path to the fingerprint last known to be
//! stored remotely.

use vstd::prelude::*;

verus! {

/// One cached path and its fingerprint.
pub struct CacheEntry {
    pub path: String,
    pub fingerprint: String,
}

/// A map from relative path to fingerprint, held as a list of entries whose
/// paths are distinct.
pub struct ChangeCache {
    entries: Vec<CacheEntry>,
    model: Ghost<Map<Seq<char>, Seq<char>>>,
}

impl View for ChangeCache {
    type V = Map<Seq<char>, Seq<char>>;

    closed spec fn view(&self) -> Map<Seq<char>, Seq<char>> {
        self.model@
    }
}

impl ChangeCache {
    /// The entries hold distinct paths, and hold exactly the model.
    pub closed spec fn wf(&self) -> bool {
        &&& forall|i: int, j: int|
            0 <= i < j < self.entries@.len() ==> self.entries@[i].path@
                != self.entries@[j].path@
        &&& forall|i: int|
            0 <= i < self.entries@.len() ==> self.model@.contains_key(
                #[trigger] self.entries@[i].path@,
            ) && self.model@[self.entries@[i].path@] == self.entries@[i].fingerprint@
        &&& forall|k: Seq<char>|
            #[trigger] self.model@.contains_key(k) ==> exists|i: int|
                0 <= i < self.entries@.len() && self.entries@[i].path@ == k
    }

    /// An empty cache.
    pub fn new() -> (r: ChangeCache)
        ensures
            r.wf(),
            r@ == Map::<Seq<char>, Seq<char>>::empty(),
    {
        ChangeCache { entries: Vec::new(), model: Ghost(Map::empty()) }
    }

    fn find(&self, path: &String) -> (r: Option<usize>)
        requires
            self.wf(),
        ensures
            match r {
                Some(i) => i < self.entries@.len() && self.entries@[i as int].path@ == path@,
                None => !self@.contains_key(path@),
            },
    {
        let mut i: usize = 0;
        while i < self.entries.len()
            invariant
                i <= self.entries@.len(),
                forall|t: int| 0 <= t < i ==> self.entries@[t].path@ != path@,
            decreases self.entries@.len() - i,
        {
            if self.entries[i].path == *path {
                return Some(i);
            }
            i = i + 1;
        }
        None
    }

    /// Whether the cache holds an entry for `path`.
    pub fn contains(&self, path: &String) -> (r: bool)
        requires
            self.wf(),
        ensures
            r == self@.contains_key(path@),
    {
        match self.find(path) {
            Some(i) => {
                assert(self@.contains_key(self.entries@[i as int].path@));
                true
            },
            None => false,
        }
    }

    /// The fingerprint cached for `path`, if any.
    pub fn get(&self, path: &String) -> (r: Option<String>)
        requires
            self.wf(),
        ensures
            r is Some <==> self@.contains_key(path@),
            r is Some ==> r->0@ == self@[path@],
    {
        match self.find(path) {
            Some(i) => {
                assert(self@.contains_key(self.entries@[i as int].path@));
                Some(self.entries[i].fingerprint.clone())
            },
            None => None,
        }
    }

    /// Records `fingerprint` for `path`, replacing what was there.
    pub fn put(&mut self, path: String, fingerprint: String)
        requires
            old(self).wf(),
        ensures
            final(self).wf(),
            final(self)@ == old(self)@.insert(path@, fingerprint@),
    {
        let ghost m = self.model@.insert(path@, fingerprint@);
        let ghost before = self.entries@;
        match self.find(&path) {
            Some(i) => {
                self.entries.set(i, CacheEntry { path, fingerprint });
                self.model = Ghost(m);
                assert forall|k: Seq<char>| #[trigger] m.contains_key(k) implies exists|t: int|
                    0 <= t < self.entries@.len() && self.entries@[t].path@ == k by {
                    if k != self.entries@[i as int].path@ {
                        let t = choose|t: int| 0 <= t < before.len() && before[t].path@ == k;
                        assert(self.entries@[t].path@ == k);
                    }
                }
            },
            None => {
                self.entries.push(CacheEntry { path, fingerprint });
                self.model = Ghost(m);
                assert forall|k: Seq<char>| #[trigger] m.contains_key(k) implies exists|t: int|
                    0 <= t < self.entries@.len() && self.entries@[t].path@ == k by {
                    if k != self.entries@[before.len() as int].path@ {
                        let t = choose|t: int| 0 <= t < before.len() && before[t].path@ == k;
                        assert(self.entries@[t].path@ == k);
                    }
                }
                assert forall|t: int| 0 <= t < before.len() implies #[trigger] self.entries@[t].path@
                    != self.entries@[before.len() as int].path@ by {
                    assert(self.entries@[t] == before[t]);
                    assert(old(self).model@.contains_key(before[t].path@));
                }
            },
        }
    }

    /// The cached paths, each once.
    pub fn keys(&self) -> (r: Vec<String>)
        requires
            self.wf(),
        ensures
            forall|i: int, j: int| 0 <= i < j < r@.len() ==> r@[i]@ != r@[j]@,
            forall|i: int| 0 <= i < r@.len() ==> self@.contains_key(#[trigger] r@[i]@),
            forall|k: Seq<char>|
                #[trigger] self@.contains_key(k) ==> exists|i: int| 0 <= i < r@.len() && r@[i]@ == k,
    {
        let mut r: Vec<String> = Vec::new();
        let mut i: usize = 0;
        while i < self.entries.len()
            invariant
                self.wf(),
                i <= self.entries@.len(),
                r@.len() == i,
                forall|t: int| 0 <= t < i ==> r@[t]@ == self.entries@[t].path@,
            decreases self.entries@.len() - i,
        {
            r.push(self.entries[i].path.clone());
            i = i + 1;
        }
        assert forall|k: Seq<char>| #[trigger] self@.contains_key(k) implies exists|t: int|
            0 <= t < r@.len() && r@[t]@ == k by {
            let t = choose|t: int| 0 <= t < self.entries@.len() && self.entries@[t].path@ == k;
            assert(r@[t]@ == k);
        }
        r
    }
}

} // verus!
