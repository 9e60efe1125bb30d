//! Byte-string search used by the boundary scanner: finding the first full
//! occurrence of a delimiter, and measuring how much of a buffer's tail could
//! still be the beginning of one.

use vstd::prelude::*;
use vstd::assert_by_contradiction;

verus! {

/// The needle occurs in the haystack starting at index `i`.
pub open spec fn occurs_at(hay: Seq<u8>, needle: Seq<u8>, i: int) -> bool {
    &&& 0 <= i
    &&& i + needle.len() <= hay.len()
    &&& forall|k: int| 0 <= k < needle.len() ==> hay[i + k] == needle[k]
}

/// The last `p` bytes of the haystack equal the first `p` bytes of the
/// needle, with `p` short of a whole needle: the tail of the haystack could
/// continue into an occurrence of the needle once more bytes arrive.
pub open spec fn is_partial_suffix(hay: Seq<u8>, needle: Seq<u8>, p: int) -> bool {
    &&& 0 <= p <= hay.len()
    &&& p < needle.len()
    &&& forall|k: int| 0 <= k < p ==> hay[hay.len() - p + k] == needle[k]
}

/// Within the haystack there is a byte that rules out an occurrence of the
/// needle starting at index `s` — whatever bytes are appended later.
pub open spec fn mismatch_within(hay: Seq<u8>, needle: Seq<u8>, s: int) -> bool {
    exists|k: int| 0 <= k < needle.len() && s + k < hay.len() && hay[s + k] != needle[k]
}

/// The needle occurs somewhere in the haystack, first at index `i`.
pub open spec fn is_first_occ(hay: Seq<u8>, needle: Seq<u8>, i: int) -> bool {
    &&& occurs_at(hay, needle, i)
    &&& forall|j: int| 0 <= j < i ==> !occurs_at(hay, needle, j)
}

/// There is at most one first occurrence.
pub proof fn lemma_is_first_occ_unique(hay: Seq<u8>, needle: Seq<u8>, i: int)
    requires
        is_first_occ(hay, needle, i),
    ensures
        forall|j: int| is_first_occ(hay, needle, j) ==> j == i,
{
    assert forall|j: int| is_first_occ(hay, needle, j) implies j == i by {
        if j < i {
            assert(!occurs_at(hay, needle, j));
        }
        if i < j {
            assert(!occurs_at(hay, needle, i));
        }
    }
}

/// Whether the needle occurs in the haystack starting at index `i`.
fn matches_at(hay: &Vec<u8>, needle: &Vec<u8>, i: usize) -> (b: bool)
    requires
        i + needle@.len() <= hay@.len(),
    ensures
        b == occurs_at(hay@, needle@, i as int),
{
    let hlen = hay.len();
    let nlen = needle.len();
    let mut k: usize = 0;
    while k < nlen
        invariant
            hlen == hay@.len(),
            nlen == needle@.len(),
            i + needle@.len() <= hay@.len(),
            k <= needle@.len(),
            forall|m: int| 0 <= m < k ==> hay@[i + m] == needle@[m],
        decreases needle@.len() - k,
    {
        if hay[i + k] != needle[k] {
            return false;
        }
        k += 1;
    }
    true
}

/// The index of the first occurrence of the needle in the haystack, if any.
pub fn find_first(hay: &Vec<u8>, needle: &Vec<u8>) -> (r: Option<usize>)
    requires
        needle@.len() >= 1,
    ensures
        match r {
            Some(i) => {
                &&& occurs_at(hay@, needle@, i as int)
                &&& forall|j: int| 0 <= j < i ==> !occurs_at(hay@, needle@, j)
            },
            None => forall|j: int| !occurs_at(hay@, needle@, j),
        },
{
    let hlen = hay.len();
    let nlen = needle.len();
    if nlen > hlen {
        return None;
    }
    let mut i: usize = 0;
    while i <= hlen - nlen
        invariant
            hlen == hay@.len(),
            nlen == needle@.len(),
            needle@.len() >= 1,
            needle@.len() <= hay@.len(),
            i <= hay@.len(),
            forall|j: int| 0 <= j < i ==> !occurs_at(hay@, needle@, j),
        decreases hay@.len() - i,
    {
        if matches_at(hay, needle, i) {
            return Some(i);
        }
        i += 1;
    }
    None
}

/// Whether the last `p` bytes of the haystack equal the first `p` of the needle.
fn suffix_matches(hay: &Vec<u8>, needle: &Vec<u8>, p: usize) -> (b: bool)
    requires
        p <= hay@.len(),
        p < needle@.len(),
    ensures
        b == is_partial_suffix(hay@, needle@, p as int),
{
    let hlen = hay.len();
    let start = hlen - p;
    let mut k: usize = 0;
    while k < p
        invariant
            hlen == hay@.len(),
            start + p == hay@.len(),
            p <= hay@.len(),
            p < needle@.len(),
            start == hay@.len() - p,
            k <= p,
            forall|m: int| 0 <= m < k ==> hay@[hay@.len() - p + m] == needle@[m],
        decreases p - k,
    {
        if hay[start + k] != needle[k] {
            return false;
        }
        k += 1;
    }
    true
}

/// The length of the longest tail of the haystack that is a proper prefix of
/// the needle — the bytes that must be held back because they could still
/// grow into an occurrence of the needle.
pub fn longest_overlap(hay: &Vec<u8>, needle: &Vec<u8>) -> (o: usize)
    requires
        needle@.len() >= 1,
    ensures
        is_partial_suffix(hay@, needle@, o as int),
        forall|p: int| o < p < needle@.len() && p <= hay@.len()
            ==> !is_partial_suffix(hay@, needle@, p),
{
    let mut p: usize = if hay.len() < needle.len() - 1 {
        hay.len()
    } else {
        needle.len() - 1
    };
    loop
        invariant
            needle@.len() >= 1,
            p <= hay@.len(),
            p < needle@.len(),
            forall|q: int| p < q < needle@.len() && q <= hay@.len()
                ==> !is_partial_suffix(hay@, needle@, q),
        decreases p,
    {
        if suffix_matches(hay, needle, p) {
            return p;
        }
        if p == 0 {
            // an empty tail is trivially a prefix of the needle
            assert(is_partial_suffix(hay@, needle@, 0));
            return 0;
        }
        p -= 1;
    }
}

/// When the needle occurs nowhere in the haystack and `o` is the longest
/// partial suffix, every position left of the held-back tail already holds a
/// definite mismatch: no later bytes can complete an occurrence there.
pub proof fn lemma_overlap_mismatch(hay: Seq<u8>, needle: Seq<u8>, o: int)
    requires
        needle.len() >= 1,
        0 <= o,
        forall|p: int| o < p < needle.len() && p <= hay.len()
            ==> !is_partial_suffix(hay, needle, p),
        forall|j: int| !occurs_at(hay, needle, j),
    ensures
        forall|s: int| 0 <= s < hay.len() - o ==> mismatch_within(hay, needle, s),
{
    assert forall|s: int| 0 <= s < hay.len() - o implies mismatch_within(hay, needle, s) by {
        if s + needle.len() <= hay.len() {
            assert_by_contradiction!(mismatch_within(hay, needle, s), {
                assert forall|k: int| 0 <= k < needle.len() implies hay[s + k] == needle[k] by {
                    assert(!(s + k < hay.len() && hay[s + k] != needle[k]));
                }
                assert(occurs_at(hay, needle, s));
            });
        } else {
            let t = hay.len() - s;
            assert(o < t < needle.len() && t <= hay.len());
            assert(!is_partial_suffix(hay, needle, t));
            assert_by_contradiction!(mismatch_within(hay, needle, s), {
                assert forall|k: int| 0 <= k < t implies hay[hay.len() - t + k] == needle[k] by {
                    assert(!(s + k < hay.len() && hay[s + k] != needle[k]));
                    assert(hay.len() - t + k == s + k);
                }
                assert(is_partial_suffix(hay, needle, t));
            });
        }
    }
}

/// A first occurrence is unique: if every position before `i` carries a
/// definite mismatch and the needle occurs at `i`, then `i` is determined by
/// the haystack and the needle alone.
pub proof fn lemma_first_occurrence_unique(hay: Seq<u8>, needle: Seq<u8>, i1: int, i2: int)
    requires
        occurs_at(hay, needle, i1),
        occurs_at(hay, needle, i2),
        forall|s: int| 0 <= s < i1 ==> mismatch_within(hay, needle, s),
        forall|s: int| 0 <= s < i2 ==> mismatch_within(hay, needle, s),
    ensures
        i1 == i2,
{
    if i1 < i2 {
        assert(mismatch_within(hay, needle, i1));
        let k = choose|k: int| 0 <= k < needle.len() && i1 + k < hay.len()
            && hay[i1 + k] != needle[k];
        assert(hay[i1 + k] == needle[k]);
    } else if i2 < i1 {
        assert(mismatch_within(hay, needle, i2));
        let k = choose|k: int| 0 <= k < needle.len() && i2 + k < hay.len()
            && hay[i2 + k] != needle[k];
        assert(hay[i2 + k] == needle[k]);
    }
}

} // verus!
