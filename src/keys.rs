//! Lexicographic order on byte strings and windows of a buffer.

use vstd::prelude::*;
use core::cmp::Ordering;

verus! {

/// The contiguous run of `n` bytes of `b` that starts at `start`.
pub open spec fn window(b: Seq<u8>, start: int, n: int) -> Seq<u8> {
    b.subrange(start, start + n)
}

/// `a` and `b` hold the same bytes at every position below `i`.
pub open spec fn agree_below(a: Seq<u8>, b: Seq<u8>, i: int) -> bool {
    forall|j: int| 0 <= j < i ==> a[j] == b[j]
}

/// Position `i` is the first one where `a` and `b` differ, and `a` is smaller there.
pub open spec fn first_diff_lt(a: Seq<u8>, b: Seq<u8>, i: int) -> bool {
    0 <= i < a.len() && i < b.len() && agree_below(a, b, i) && a[i] < b[i]
}

/// Strict lexicographic order on byte strings of equal length.
pub open spec fn key_lt(a: Seq<u8>, b: Seq<u8>) -> bool {
    exists|i: int| #[trigger] first_diff_lt(a, b, i)
}

pub proof fn lemma_key_lt_irreflexive(a: Seq<u8>)
    ensures
        !key_lt(a, a),
{
}

pub proof fn lemma_key_lt_asymmetric(a: Seq<u8>, b: Seq<u8>)
    ensures
        !(key_lt(a, b) && key_lt(b, a)),
{
    if key_lt(a, b) && key_lt(b, a) {
        let i = choose|i: int| first_diff_lt(a, b, i);
        let k = choose|k: int| first_diff_lt(b, a, k);
        if i < k {
            assert(b[i] == a[i]);
        } else if k < i {
            assert(a[k] == b[k]);
        }
    }
}

pub proof fn lemma_key_lt_transitive(a: Seq<u8>, b: Seq<u8>, c: Seq<u8>)
    requires
        key_lt(a, b),
        key_lt(b, c),
    ensures
        key_lt(a, c),
{
    let i = choose|i: int| first_diff_lt(a, b, i);
    let k = choose|k: int| first_diff_lt(b, c, k);
    if i <= k {
        assert(first_diff_lt(a, c, i));
    } else {
        assert(first_diff_lt(a, c, k));
    }
}

/// Compares `key` with the window of `buf` of the same length at `start`.
pub fn compare_window(key: &Vec<u8>, buf: &[u8], start: usize) -> (r: Ordering)
    requires
        start + key@.len() <= buf@.len(),
    ensures
        r == Ordering::Less <==> key_lt(key@, window(buf@, start as int, key@.len() as int)),
        r == Ordering::Equal <==> key@ == window(buf@, start as int, key@.len() as int),
        r == Ordering::Greater <==> key_lt(window(buf@, start as int, key@.len() as int), key@),
{
    let ghost w = window(buf@, start as int, key@.len() as int);
    let n = key.len();
    let len = buf.len();
    let mut i: usize = 0;
    while i < n
        invariant
            n == key@.len(),
            start + n <= buf@.len(),
            len == buf@.len(),
            w == window(buf@, start as int, n as int),
            i <= n,
            agree_below(key@, w, i as int),
        decreases n - i,
    {
        let a = key[i];
        let b = buf[start + i];
        if a < b {
            assert(first_diff_lt(key@, w, i as int));
            proof {
                lemma_key_lt_asymmetric(key@, w);
            }
            return Ordering::Less;
        } else if b < a {
            assert(first_diff_lt(w, key@, i as int));
            proof {
                lemma_key_lt_asymmetric(key@, w);
            }
            return Ordering::Greater;
        }
        i = i + 1;
    }
    assert(key@ =~= w);
    proof {
        lemma_key_lt_irreflexive(w);
    }
    Ordering::Equal
}

/// Compares two byte strings of equal length.
pub fn compare_keys(a: &Vec<u8>, b: &Vec<u8>) -> (r: Ordering)
    requires
        a@.len() == b@.len(),
    ensures
        r == Ordering::Less <==> key_lt(a@, b@),
        r == Ordering::Equal <==> a@ == b@,
        r == Ordering::Greater <==> key_lt(b@, a@),
{
    assert(window(b@, 0, a@.len() as int) =~= b@);
    compare_window(a, b.as_slice(), 0)
}

} // verus!
