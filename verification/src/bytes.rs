//! Small tools on byte slices: comparing, and copying from one place to
//! another inside a fixed region.

use crate::decompose::{index_of, lemma_index_of, lemma_index_of_is};
use vstd::prelude::*;

verus! {

/// The index of the first byte of `s` that is `b`, or the length of `s`.
pub fn find(s: &[u8], b: u8) -> (r: usize)
    ensures
        r == index_of(s@, b),
{
    let mut k: usize = 0;
    while k < s.len() && s[k] != b
        invariant
            k <= s@.len(),
            forall|j: int| 0 <= j < k ==> s@[j] != b,
        decreases s@.len() - k,
    {
        k += 1;
    }
    proof {
        lemma_index_of_is(s@, b, k as int);
    }
    k
}

/// Whether `s` holds the byte `b`.
pub fn contains(s: &[u8], b: u8) -> (r: bool)
    ensures
        r == s@.contains(b),
{
    let k = find(s, b);
    proof {
        lemma_index_of(s@, b);
        if k < s@.len() {
            assert(s@.contains(s@[k as int]));
        }
    }
    k < s.len()
}

/// Whether the two slices hold the same bytes.
pub fn equal(a: &[u8], b: &[u8]) -> (r: bool)
    ensures
        r == (a@ == b@),
{
    if a.len() != b.len() {
        return false;
    }
    let mut k: usize = 0;
    while k < a.len()
        invariant
            k <= a@.len(),
            a@.len() == b@.len(),
            forall|j: int| 0 <= j < k ==> a@[j] == b@[j],
        decreases a@.len() - k,
    {
        if a[k] != b[k] {
            return false;
        }
        k += 1;
    }
    assert(a@ =~= b@);
    true
}

/// Whether `s` begins with `prefix`.
pub fn starts_with(s: &[u8], prefix: &[u8]) -> (r: bool)
    ensures
        r == prefix@.is_prefix_of(s@),
{
    if prefix.len() > s.len() {
        return false;
    }
    let mut k: usize = 0;
    while k < prefix.len()
        invariant
            k <= prefix@.len(),
            prefix@.len() <= s@.len(),
            forall|j: int| 0 <= j < k ==> s@[j] == prefix@[j],
        decreases prefix@.len() - k,
    {
        if s[k] != prefix[k] {
            assert(s@.subrange(0, prefix@.len() as int)[k as int] != prefix@[k as int]);
            return false;
        }
        k += 1;
    }
    assert(prefix@ =~= s@.subrange(0, prefix@.len() as int));
    true
}

/// Whether `s` ends with `suffix`.
pub fn ends_with(s: &[u8], suffix: &[u8]) -> (r: bool)
    ensures
        r == suffix@.is_suffix_of(s@),
{
    if suffix.len() > s.len() {
        return false;
    }
    let off: usize = s.len() - suffix.len();
    let mut k: usize = 0;
    while k < suffix.len()
        invariant
            k <= suffix@.len(),
            suffix@.len() <= s@.len(),
            off == s@.len() - suffix@.len(),
            s@.len() <= usize::MAX,
            forall|j: int| 0 <= j < k ==> s@[off + j] == suffix@[j],
        decreases suffix@.len() - k,
    {
        if s[off + k] != suffix[k] {
            assert(s@.subrange(off as int, s@.len() as int)[k as int] != suffix@[k as int]);
            return false;
        }
        k += 1;
    }
    assert(suffix@ =~= s@.subrange(off as int, s@.len() as int));
    true
}

/// Writes `src` over the bytes of `dst` that start at `at`.
pub fn copy_into(dst: &mut [u8], at: usize, src: &[u8])
    requires
        at + src@.len() <= old(dst)@.len(),
    ensures
        final(dst)@.len() == old(dst)@.len(),
        forall|j: int| at <= j < at + src@.len() ==> final(dst)@[j] == src@[j - at],
        forall|j: int|
            0 <= j < old(dst)@.len() && !(at <= j < at + src@.len()) ==> final(dst)@[j]
                == old(dst)@[j],
{
    let total: usize = dst.len();
    let mut k: usize = 0;
    while k < src.len()
        invariant
            k <= src@.len(),
            total == dst@.len(),
            at + src@.len() <= dst@.len(),
            dst@.len() == old(dst)@.len(),
            forall|j: int| at <= j < at + k ==> dst@[j] == src@[j - at],
            forall|j: int|
                0 <= j < dst@.len() && !(at <= j < at + k) ==> dst@[j] == old(dst)@[j],
        decreases src@.len() - k,
    {
        dst[at + k] = src[k];
        k += 1;
    }
}

/// Moves the `count` bytes that start at `from` to the place that starts at
/// `to`. The two ranges may overlap.
pub fn move_within(buf: &mut [u8], from: usize, to: usize, count: usize)
    requires
        from + count <= old(buf)@.len(),
        to + count <= old(buf)@.len(),
    ensures
        final(buf)@.len() == old(buf)@.len(),
        forall|j: int| to <= j < to + count ==> final(buf)@[j] == old(buf)@[j - to + from],
        forall|j: int|
            0 <= j < old(buf)@.len() && !(to <= j < to + count) ==> final(buf)@[j] == old(buf)@[j],
{
    let total: usize = buf.len();
    if to <= from {
        let mut k: usize = 0;
        while k < count
            invariant
                k <= count,
                total == buf@.len(),
                to <= from,
                from + count <= buf@.len(),
                buf@.len() == old(buf)@.len(),
                forall|j: int| to <= j < to + k ==> buf@[j] == old(buf)@[j - to + from],
                forall|j: int|
                    0 <= j < buf@.len() && !(to <= j < to + k) ==> buf@[j] == old(buf)@[j],
            decreases count - k,
        {
            buf[to + k] = buf[from + k];
            k += 1;
        }
    } else {
        let mut k: usize = count;
        while k > 0
            invariant
                k <= count,
                total == buf@.len(),
                from < to,
                to + count <= buf@.len(),
                buf@.len() == old(buf)@.len(),
                forall|j: int| to + k <= j < to + count ==> buf@[j] == old(buf)@[j - to + from],
                forall|j: int|
                    0 <= j < buf@.len() && !(to + k <= j < to + count) ==> buf@[j] == old(buf)@[j],
            decreases k,
        {
            k -= 1;
            buf[to + k] = buf[from + k];
        }
    }
}

} // verus!
