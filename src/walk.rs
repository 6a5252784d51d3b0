//! Which entries of a directory walk are observed: regular files whose path
//! holds none of the ignored fragments.

use vstd::prelude::*;
use vstd::utf8::encode_utf8;

verus! {

/// `needle` occurs in `hay` starting at byte `i`.
pub open spec fn occurs_at(hay: Seq<u8>, needle: Seq<u8>, i: int) -> bool {
    0 <= i && i + needle.len() <= hay.len() && hay.subrange(i, i + needle.len()) == needle
}

/// `needle` occurs somewhere in `hay` (the empty needle occurs everywhere).
pub open spec fn contains_fragment(hay: Seq<u8>, needle: Seq<u8>) -> bool {
    exists|i: int| occurs_at(hay, needle, i)
}

/// The path, as UTF-8 text, holds one of the fragments.
pub open spec fn ignored_by(path: Seq<char>, fragments: Seq<String>) -> bool {
    exists|k: int|
        0 <= k < fragments.len() && contains_fragment(
            encode_utf8(path),
            encode_utf8(#[trigger] fragments[k]@),
        )
}

/// One entry met while walking the watched tree.
pub struct WalkEntry {
    /// The entry's full path.
    pub path: String,
    /// The entry is a regular file.
    pub is_file: bool,
}

/// The entry belongs to a cycle's observations.
pub open spec fn admitted(e: WalkEntry, fragments: Seq<String>) -> bool {
    e.is_file && !ignored_by(e.path@, fragments)
}

fn occurs_at_exec(hay: &[u8], needle: &[u8], i: usize) -> (r: bool)
    requires
        i + needle@.len() <= hay@.len(),
    ensures
        r == occurs_at(hay@, needle@, i as int),
{
    let hay_len: usize = hay.len();
    let mut j: usize = 0;
    while j < needle.len()
        invariant
            j <= needle@.len(),
            hay_len == hay@.len(),
            i + needle@.len() <= hay@.len(),
            forall|t: int| 0 <= t < j ==> hay@[i + t] == needle@[t],
        decreases needle@.len() - j,
    {
        if hay[i + j] != needle[j] {
            assert(hay@.subrange(i as int, i + needle@.len())[j as int] != needle@[j as int]);
            return false;
        }
        j = j + 1;
    }
    assert(hay@.subrange(i as int, i + needle@.len()) =~= needle@);
    true
}

/// Whether `needle` occurs as a contiguous run of bytes in `hay`.
pub fn contains_bytes(hay: &[u8], needle: &[u8]) -> (r: bool)
    ensures
        r == contains_fragment(hay@, needle@),
{
    if needle.len() > hay.len() {
        return false;
    }
    let last: usize = hay.len() - needle.len();
    let mut i: usize = 0;
    loop
        invariant
            last == hay@.len() - needle@.len(),
            i <= last,
            forall|t: int| 0 <= t < i ==> !occurs_at(hay@, needle@, t),
        decreases last - i,
    {
        if occurs_at_exec(hay, needle, i) {
            return true;
        }
        if i == last {
            proof {
                true_if_none_left(hay@, needle@, i + 1);
            }
            return false;
        }
        i = i + 1;
    }
}

proof fn true_if_none_left(hay: Seq<u8>, needle: Seq<u8>, n: int)
    requires
        n == hay.len() - needle.len() + 1,
        forall|t: int| 0 <= t < n ==> !occurs_at(hay, needle, t),
    ensures
        !contains_fragment(hay, needle),
{
}

/// Whether the path holds one of the ignored fragments.
pub fn is_ignored(path: &str, fragments: &Vec<String>) -> (r: bool)
    ensures
        r == ignored_by(path@, fragments@),
{
    let hay = path.as_bytes();
    let mut k: usize = 0;
    while k < fragments.len()
        invariant
            k <= fragments@.len(),
            hay@ == encode_utf8(path@),
            forall|t: int|
                0 <= t < k ==> !contains_fragment(encode_utf8(path@), encode_utf8(#[trigger] fragments@[t]@)),
        decreases fragments@.len() - k,
    {
        let frag = fragments[k].as_str();
        if contains_bytes(hay, frag.as_bytes()) {
            return true;
        }
        k = k + 1;
    }
    false
}

/// The indices, in walk order, of the entries that a cycle observes: the
/// regular files whose path holds no ignored fragment.
pub fn observed(entries: &Vec<WalkEntry>, fragments: &Vec<String>) -> (r: Vec<usize>)
    ensures
        forall|j: int, l: int| 0 <= j < l < r@.len() ==> r@[j] < r@[l],
        forall|j: int| 0 <= j < r@.len() ==> r@[j] < entries@.len(),
        forall|i: int|
            0 <= i < entries@.len() ==> (admitted(#[trigger] entries@[i], fragments@)
                <==> r@.contains(i as usize)),
{
    let mut r: Vec<usize> = Vec::new();
    let mut i: usize = 0;
    while i < entries.len()
        invariant
            i <= entries@.len(),
            forall|j: int, l: int| 0 <= j < l < r@.len() ==> r@[j] < r@[l],
            forall|j: int| 0 <= j < r@.len() ==> r@[j] < i,
            forall|t: int|
                0 <= t < i ==> (admitted(#[trigger] entries@[t], fragments@) <==> r@.contains(
                    t as usize,
                )),
        decreases entries@.len() - i,
    {
        let e = &entries[i];
        if e.is_file && !is_ignored(e.path.as_str(), fragments) {
            let ghost before = r@;
            r.push(i);
            proof {
                assert forall|t: int| 0 <= t < i implies #[trigger] r@.contains(t as usize)
                    == before.contains(t as usize) by {
                    if before.contains(t as usize) {
                        let w = choose|w: int| 0 <= w < before.len() && before[w] == t as usize;
                        assert(r@[w] == t as usize);
                    }
                    if r@.contains(t as usize) {
                        let w = choose|w: int| 0 <= w < r@.len() && r@[w] == t as usize;
                        assert(w < before.len());
                        assert(before[w] == t as usize);
                    }
                }
                assert(r@[r@.len() - 1] == i);
            }
        }
        i = i + 1;
    }
    r
}

} // verus!
