//! Exact counts of the n-grams (sliding windows of `n` bytes) of a buffer.

use vstd::prelude::*;
use core::cmp::Ordering;
use crate::keys::{compare_keys, key_lt, lemma_key_lt_irreflexive, lemma_key_lt_transitive, window};

verus! {

/// Number of windows of length `n` in a buffer of length `len`.
pub open spec fn num_windows(len: nat, n: nat) -> nat {
    if len >= n {
        (len - n + 1) as nat
    } else {
        0
    }
}

/// Number of windows of `b` of the length of `key` that start in `[lo, hi)`
/// and equal `key`.
pub open spec fn count_range(b: Seq<u8>, key: Seq<u8>, lo: int, hi: int) -> nat
    decreases hi - lo,
{
    if hi <= lo {
        0
    } else {
        count_range(b, key, lo, hi - 1) + if window(b, hi - 1, key.len() as int) == key {
            1nat
        } else {
            0nat
        }
    }
}

/// Number of times `key` occurs in `b` as a contiguous run of bytes.
pub open spec fn occurrences(b: Seq<u8>, key: Seq<u8>) -> nat {
    count_range(b, key, 0, num_windows(b.len(), key.len()) as int)
}

/// Sum of the counts of a sequence of (key, count) entries.
pub open spec fn sum_counts(s: Seq<(Seq<u8>, nat)>) -> nat
    decreases s.len(),
{
    if s.len() == 0 {
        0
    } else {
        sum_counts(s.drop_last()) + s.last().1
    }
}

/// Keys strictly increase in lexicographic order, so each key occurs once.
pub open spec fn sorted_keys(s: Seq<(Seq<u8>, nat)>) -> bool {
    forall|i: int, j: int| 0 <= i < j < s.len() ==> key_lt(#[trigger] s[i].0, #[trigger] s[j].0)
}

/// Every key is `n` bytes long and every count is positive.
pub open spec fn well_shaped(s: Seq<(Seq<u8>, nat)>, n: nat) -> bool {
    forall|i: int| 0 <= i < s.len() ==> (#[trigger] s[i]).0.len() == n && s[i].1 >= 1
}

/// Some entry of `s` has the key `key`.
pub open spec fn has_key(s: Seq<(Seq<u8>, nat)>, key: Seq<u8>) -> bool {
    exists|i: int| 0 <= i < s.len() && (#[trigger] s[i]).0 == key
}

/// The (key, count) entries of a vector of owned entries, as mathematical values.
pub open spec fn entries_view(v: Seq<(Vec<u8>, usize)>) -> Seq<(Seq<u8>, nat)> {
    v.map_values(|e: (Vec<u8>, usize)| (e.0@, e.1 as nat))
}

/// A mapping from n-gram to its number of occurrences, ordered by key.
pub struct Histogram {
    dimension: usize,
    entries: Vec<(Vec<u8>, usize)>,
}

impl View for Histogram {
    type V = Seq<(Seq<u8>, nat)>;

    closed spec fn view(&self) -> Seq<(Seq<u8>, nat)> {
        entries_view(self.entries@)
    }
}

impl Histogram {
    /// Length of the histogram's keys.
    pub closed spec fn spec_dimension(&self) -> nat {
        self.dimension as nat
    }

    pub open spec fn wf(&self) -> bool {
        &&& self.spec_dimension() >= 1
        &&& well_shaped(self@, self.spec_dimension())
        &&& sorted_keys(self@)
        &&& sum_counts(self@) <= usize::MAX
    }

    /// Length of the histogram's keys.
    pub fn dimension(&self) -> (r: usize)
        ensures
            r == self.spec_dimension(),
    {
        self.dimension
    }

    /// Number of distinct keys.
    pub fn len(&self) -> (r: usize)
        ensures
            r == self@.len(),
    {
        self.entries.len()
    }

    /// Whether no key was observed.
    pub fn is_empty(&self) -> (r: bool)
        ensures
            r == (self@.len() == 0),
    {
        self.entries.len() == 0
    }

    /// Sum of all counts.
    pub fn total(&self) -> (r: usize)
        requires
            self.wf(),
        ensures
            r == sum_counts(self@),
    {
        let ghost s = self@;
        let mut sum: usize = 0;
        let mut i: usize = 0;
        while i < self.entries.len()
            invariant
                s == self@,
                self.wf(),
                i <= s.len(),
                sum == sum_counts(s.take(i as int)),
            decreases s.len() - i,
        {
            proof {
                assert(s.take(i + 1).drop_last() =~= s.take(i as int));
                lemma_prefix_sum_le(s, i + 1);
            }
            sum = sum + self.entries[i].1;
            i = i + 1;
        }
        assert(s.take(s.len() as int) =~= s);
        sum
    }

    /// The entries in ascending key order.
    pub fn entries(&self) -> (r: &Vec<(Vec<u8>, usize)>)
        ensures
            entries_view(r@) == self@,
    {
        &self.entries
    }
}

/// Copies the window of `n` bytes of `buf` at `start`.
fn window_vec(buf: &[u8], start: usize, n: usize) -> (r: Vec<u8>)
    requires
        start + n <= buf@.len(),
    ensures
        r@ == window(buf@, start as int, n as int),
{
    let mut r: Vec<u8> = Vec::with_capacity(n);
    let len = buf.len();
    let mut i: usize = 0;
    while i < n
        invariant
            start + n <= buf@.len(),
            len == buf@.len(),
            i <= n,
            r@ =~= window(buf@, start as int, i as int),
        decreases n - i,
    {
        r.push(buf[start + i]);
        i = i + 1;
    }
    r
}

type Entry = (Vec<u8>, usize);

/// `s` is the histogram of the windows of `n` bytes of `b` that start in
/// `[lo, hi)`.
pub open spec fn describes(s: Seq<(Seq<u8>, nat)>, b: Seq<u8>, n: nat, lo: int, hi: int) -> bool {
    &&& well_shaped(s, n)
    &&& sorted_keys(s)
    &&& forall|i: int| 0 <= i < s.len() ==> (#[trigger] s[i]).1 == count_range(b, s[i].0, lo, hi)
    &&& forall|key: Seq<u8>| key.len() == n && #[trigger] count_range(b, key, lo, hi) > 0 ==> has_key(s, key)
    &&& sum_counts(s) == hi - lo
}

proof fn lemma_count_range_split(b: Seq<u8>, key: Seq<u8>, lo: int, mid: int, hi: int)
    requires
        lo <= mid <= hi,
    ensures
        count_range(b, key, lo, hi) == count_range(b, key, lo, mid) + count_range(b, key, mid, hi),
    decreases hi - mid,
{
    if hi > mid {
        lemma_count_range_split(b, key, lo, mid, hi - 1);
    }
}

proof fn lemma_swapped_out(old_v: Seq<Entry>, new_v: Seq<Entry>, orig: Seq<(Seq<u8>, nat)>, i: int)
    requires
        0 <= i < old_v.len(),
        new_v.len() == old_v.len(),
        old_v.len() == orig.len(),
        forall|j: int| 0 <= j < old_v.len() && j != i ==> new_v[j] == old_v[j],
        forall|j: int| i <= j < orig.len() ==> #[trigger] entries_view(old_v)[j] == orig[j],
    ensures
        forall|j: int| i < j < orig.len() ==> #[trigger] entries_view(new_v)[j] == orig[j],
{
    assert forall|j: int| i < j < orig.len() implies #[trigger] entries_view(new_v)[j] == orig[j] by {
        assert(entries_view(old_v)[j] == orig[j]);
    }
}

/// Merges the histograms of two adjacent ranges of windows into the
/// histogram of their union.
#[verifier::spinoff_prover]
fn merge_histograms(
    a: Vec<Entry>,
    b: Vec<Entry>,
    buf: &[u8],
    n: usize,
    lo: usize,
    mid: usize,
    hi: usize,
) -> (c: Vec<Entry>)
    requires
        lo <= mid <= hi,
        hi - lo <= usize::MAX,
        describes(entries_view(a@), buf@, n as nat, lo as int, mid as int),
        describes(entries_view(b@), buf@, n as nat, mid as int, hi as int),
    ensures
        describes(entries_view(c@), buf@, n as nat, lo as int, hi as int),
{
    let ghost sa = entries_view(a@);
    let ghost sb = entries_view(b@);
    let mut a = a;
    let mut b = b;
    let mut c: Vec<Entry> = Vec::new();
    let mut ia: usize = 0;
    let mut ib: usize = 0;
    while ia < a.len() || ib < b.len()
        invariant
            describes(sa, buf@, n as nat, lo as int, mid as int),
            describes(sb, buf@, n as nat, mid as int, hi as int),
            lo <= mid <= hi,
            a@.len() == sa.len(),
            b@.len() == sb.len(),
            ia <= sa.len(),
            ib <= sb.len(),
            forall|j: int| ia <= j < sa.len() ==> #[trigger] entries_view(a@)[j] == sa[j],
            forall|j: int| ib <= j < sb.len() ==> #[trigger] entries_view(b@)[j] == sb[j],
            well_shaped(entries_view(c@), n as nat),
            sorted_keys(entries_view(c@)),
            forall|i: int|
                0 <= i < c@.len() ==> (#[trigger] entries_view(c@)[i]).1 == count_range(
                    buf@,
                    entries_view(c@)[i].0,
                    lo as int,
                    hi as int,
                ),
            forall|j: int| 0 <= j < ia ==> has_key(entries_view(c@), (#[trigger] sa[j]).0),
            forall|j: int| 0 <= j < ib ==> has_key(entries_view(c@), (#[trigger] sb[j]).0),
            ia < sa.len() ==> forall|i: int|
                0 <= i < c@.len() ==> key_lt((#[trigger] entries_view(c@)[i]).0, sa[ia as int].0),
            ib < sb.len() ==> forall|i: int|
                0 <= i < c@.len() ==> key_lt((#[trigger] entries_view(c@)[i]).0, sb[ib as int].0),
            sum_counts(entries_view(c@)) == sum_counts(sa.take(ia as int)) + sum_counts(
                sb.take(ib as int),
            ),
        decreases sa.len() - ia + sb.len() - ib,
    {
        let ghost sc = entries_view(c@);
        let order = if ia == a.len() {
            Ordering::Greater
        } else if ib == b.len() {
            Ordering::Less
        } else {
            assert(entries_view(a@)[ia as int].0 == a@[ia as int].0@);
            assert(entries_view(b@)[ib as int].0 == b@[ib as int].0@);
            compare_keys(&a[ia].0, &b[ib].0)
        };
        proof {
            lemma_prefix_sum_le(sa, ia as int);
            lemma_prefix_sum_le(sb, ib as int);
            if ia < sa.len() {
                assert(sa.take(ia + 1).drop_last() =~= sa.take(ia as int));
                lemma_prefix_sum_le(sa, ia + 1);
            }
            if ib < sb.len() {
                assert(sb.take(ib + 1).drop_last() =~= sb.take(ib as int));
                lemma_prefix_sum_le(sb, ib + 1);
            }
        }
        match order {
        Ordering::Less => {
            // the key of a[ia] is not among the keys of b
            let ghost k = sa[ia as int].0;
            proof {
                assert(!has_key(sb, k)) by {
                    if has_key(sb, k) {
                        let j = choose|j: int| 0 <= j < sb.len() && (#[trigger] sb[j]).0 == k;
                        lemma_key_lt_irreflexive(k);
                        if j < ib {
                            let i = choose|i: int| 0 <= i < sc.len() && (#[trigger] sc[i]).0 == sb[j].0;
                            assert(key_lt(sc[i].0, k));
                        } else if j > ib {
                            assert(key_lt(sb[ib as int].0, sb[j].0));
                            lemma_key_lt_transitive(k, sb[ib as int].0, sb[j].0);
                        }
                    }
                }
                lemma_count_range_split(buf@, k, lo as int, mid as int, hi as int);
                assert(count_range(buf@, k, mid as int, hi as int) == 0);
            }
            let ghost old_v = a@;
            let mut e: Entry = (Vec::new(), 0);
            a.set_and_swap(ia, &mut e);
            proof {
                lemma_swapped_out(old_v, a@, sa, ia as int);
                assert(entries_view(old_v)[ia as int] == sa[ia as int]);
            }
            c.push(e);
            ia = ia + 1;
            proof {
                let sc2 = entries_view(c@);
                assert(sc2 =~= sc.push(sa[ia - 1]));
                assert(sc2.drop_last() =~= sc);
                assert(sa.take(ia as int).drop_last() =~= sa.take(ia - 1));
                assert forall|j: int| 0 <= j < ia implies has_key(sc2, (#[trigger] sa[j]).0) by {
                    if j == ia - 1 {
                        assert(sc2[sc.len() as int] == sa[j]);
                    } else {
                        let i = choose|i: int| 0 <= i < sc.len() && (#[trigger] sc[i]).0 == sa[j].0;
                        assert(sc2[i] == sc[i]);
                    }
                }
                assert forall|j: int| 0 <= j < ib implies has_key(sc2, (#[trigger] sb[j]).0) by {
                    let i = choose|i: int| 0 <= i < sc.len() && (#[trigger] sc[i]).0 == sb[j].0;
                    assert(sc2[i] == sc[i]);
                }
                if ia < sa.len() {
                    assert forall|i: int| 0 <= i < sc2.len() implies key_lt(
                        (#[trigger] sc2[i]).0,
                        sa[ia as int].0,
                    ) by {
                        assert(key_lt(k, sa[ia as int].0));
                        if i < sc.len() {
                            lemma_key_lt_transitive(sc[i].0, k, sa[ia as int].0);
                        }
                    }
                }
                if ib < sb.len() {
                    assert forall|i: int| 0 <= i < sc2.len() implies key_lt(
                        (#[trigger] sc2[i]).0,
                        sb[ib as int].0,
                    ) by {
                        if i < sc.len() {
                            assert(sc2[i] == sc[i]);
                        }
                    }
                }
            }
        },
        Ordering::Greater => {
            // the key of b[ib] is not among the keys of a
            let ghost k = sb[ib as int].0;
            proof {
                assert(!has_key(sa, k)) by {
                    if has_key(sa, k) {
                        let j = choose|j: int| 0 <= j < sa.len() && (#[trigger] sa[j]).0 == k;
                        lemma_key_lt_irreflexive(k);
                        if j < ia {
                            let i = choose|i: int| 0 <= i < sc.len() && (#[trigger] sc[i]).0 == sa[j].0;
                            assert(key_lt(sc[i].0, k));
                        } else if j > ia {
                            assert(key_lt(sa[ia as int].0, sa[j].0));
                            lemma_key_lt_transitive(k, sa[ia as int].0, sa[j].0);
                        }
                    }
                }
                lemma_count_range_split(buf@, k, lo as int, mid as int, hi as int);
                assert(count_range(buf@, k, lo as int, mid as int) == 0);
            }
            let ghost old_v = b@;
            let mut e: Entry = (Vec::new(), 0);
            b.set_and_swap(ib, &mut e);
            proof {
                lemma_swapped_out(old_v, b@, sb, ib as int);
                assert(entries_view(old_v)[ib as int] == sb[ib as int]);
            }
            c.push(e);
            ib = ib + 1;
            proof {
                let sc2 = entries_view(c@);
                assert(sc2 =~= sc.push(sb[ib - 1]));
                assert(sc2.drop_last() =~= sc);
                assert(sb.take(ib as int).drop_last() =~= sb.take(ib - 1));
                assert forall|j: int| 0 <= j < ib implies has_key(sc2, (#[trigger] sb[j]).0) by {
                    if j == ib - 1 {
                        assert(sc2[sc.len() as int] == sb[j]);
                    } else {
                        let i = choose|i: int| 0 <= i < sc.len() && (#[trigger] sc[i]).0 == sb[j].0;
                        assert(sc2[i] == sc[i]);
                    }
                }
                assert forall|j: int| 0 <= j < ia implies has_key(sc2, (#[trigger] sa[j]).0) by {
                    let i = choose|i: int| 0 <= i < sc.len() && (#[trigger] sc[i]).0 == sa[j].0;
                    assert(sc2[i] == sc[i]);
                }
                if ib < sb.len() {
                    assert forall|i: int| 0 <= i < sc2.len() implies key_lt(
                        (#[trigger] sc2[i]).0,
                        sb[ib as int].0,
                    ) by {
                        assert(key_lt(k, sb[ib as int].0));
                        if i < sc.len() {
                            lemma_key_lt_transitive(sc[i].0, k, sb[ib as int].0);
                        }
                    }
                }
                if ia < sa.len() {
                    assert forall|i: int| 0 <= i < sc2.len() implies key_lt(
                        (#[trigger] sc2[i]).0,
                        sa[ia as int].0,
                    ) by {
                        if i < sc.len() {
                            assert(sc2[i] == sc[i]);
                        }
                    }
                }
            }
        },
        Ordering::Equal => {
            // the same key heads both sides: its counts add up
            let ghost k = sa[ia as int].0;
            proof {
                lemma_count_range_split(buf@, k, lo as int, mid as int, hi as int);
            }
            let ghost old_a = a@;
            let ghost old_b = b@;
            let mut e: Entry = (Vec::new(), 0);
            a.set_and_swap(ia, &mut e);
            let mut f: Entry = (Vec::new(), 0);
            b.set_and_swap(ib, &mut f);
            proof {
                lemma_swapped_out(old_a, a@, sa, ia as int);
                lemma_swapped_out(old_b, b@, sb, ib as int);
                assert(entries_view(old_a)[ia as int] == sa[ia as int]);
                assert(entries_view(old_b)[ib as int] == sb[ib as int]);
            }
            let ghost ca = e.1;
            let ghost cb = f.1;
            c.push((e.0, e.1 + f.1));
            ia = ia + 1;
            ib = ib + 1;
            proof {
                let sc2 = entries_view(c@);
                assert(sc2 =~= sc.push((k, (ca + cb) as nat)));
                assert(sc2.drop_last() =~= sc);
                assert(sa.take(ia as int).drop_last() =~= sa.take(ia - 1));
                assert(sb.take(ib as int).drop_last() =~= sb.take(ib - 1));
                assert forall|j: int| 0 <= j < ia implies has_key(sc2, (#[trigger] sa[j]).0) by {
                    if j == ia - 1 {
                        assert(sc2[sc.len() as int].0 == sa[j].0);
                    } else {
                        let i = choose|i: int| 0 <= i < sc.len() && (#[trigger] sc[i]).0 == sa[j].0;
                        assert(sc2[i] == sc[i]);
                    }
                }
                assert forall|j: int| 0 <= j < ib implies has_key(sc2, (#[trigger] sb[j]).0) by {
                    if j == ib - 1 {
                        assert(sc2[sc.len() as int].0 == sb[j].0);
                    } else {
                        let i = choose|i: int| 0 <= i < sc.len() && (#[trigger] sc[i]).0 == sb[j].0;
                        assert(sc2[i] == sc[i]);
                    }
                }
                if ia < sa.len() {
                    assert forall|i: int| 0 <= i < sc2.len() implies key_lt(
                        (#[trigger] sc2[i]).0,
                        sa[ia as int].0,
                    ) by {
                        assert(key_lt(k, sa[ia as int].0));
                        if i < sc.len() {
                            lemma_key_lt_transitive(sc[i].0, k, sa[ia as int].0);
                        }
                    }
                }
                if ib < sb.len() {
                    assert forall|i: int| 0 <= i < sc2.len() implies key_lt(
                        (#[trigger] sc2[i]).0,
                        sb[ib as int].0,
                    ) by {
                        assert(key_lt(k, sb[ib as int].0));
                        if i < sc.len() {
                            lemma_key_lt_transitive(sc[i].0, k, sb[ib as int].0);
                        }
                    }
                }
            }
        },
        }
    }
    proof {
        let sc = entries_view(c@);
        assert(sa.take(sa.len() as int) =~= sa);
        assert(sb.take(sb.len() as int) =~= sb);
        assert forall|key: Seq<u8>|
            key.len() == n && #[trigger] count_range(buf@, key, lo as int, hi as int) > 0 implies has_key(
            sc,
            key,
        ) by {
            lemma_count_range_split(buf@, key, lo as int, mid as int, hi as int);
            if count_range(buf@, key, lo as int, mid as int) > 0 {
                let j = choose|j: int| 0 <= j < sa.len() && (#[trigger] sa[j]).0 == key;
                assert(has_key(sc, sa[j].0));
            } else {
                assert(count_range(buf@, key, mid as int, hi as int) > 0);
                let j = choose|j: int| 0 <= j < sb.len() && (#[trigger] sb[j]).0 == key;
                assert(has_key(sc, sb[j].0));
            }
        }
    }
    c
}

/// The histogram of the windows of `n` bytes of `buf` that start in `[lo, hi)`.
fn histogram_of_range(buf: &[u8], n: usize, lo: usize, hi: usize) -> (s: Vec<Entry>)
    requires
        n >= 1,
        lo < hi,
        hi - 1 + n <= buf@.len(),
    ensures
        describes(entries_view(s@), buf@, n as nat, lo as int, hi as int),
    decreases hi - lo,
{
    if hi - lo == 1 {
        let key = window_vec(buf, lo, n);
        let mut s: Vec<Entry> = Vec::new();
        s.push((key, 1));
        proof {
            let sv = entries_view(s@);
            assert(sv =~= seq![(key@, 1nat)]);
            assert(sv.drop_last() =~= Seq::<(Seq<u8>, nat)>::empty());
            assert(count_range(buf@, key@, lo as int, lo as int) == 0);
            assert(count_range(buf@, key@, lo as int, hi as int) == 1);
            assert(sum_counts(sv.drop_last()) == 0);
            assert(sum_counts(sv) == 1);
            assert(well_shaped(sv, n as nat));
            assert(sorted_keys(sv));
            assert forall|k: Seq<u8>| k.len() == n && #[trigger] count_range(buf@, k, lo as int, hi as int)
                > 0 implies has_key(sv, k) by {
                assert(count_range(buf@, k, lo as int, lo as int) == 0);
                assert(sv[0].0 == k);
            }
        }
        s
    } else {
        let mid = lo + (hi - lo) / 2;
        let left = histogram_of_range(buf, n, lo, mid);
        let right = histogram_of_range(buf, n, mid, hi);
        merge_histograms(left, right, buf, n, lo, mid, hi)
    }
}

/// Builds the histogram of all windows of `dimension` bytes of `buf`,
/// taken with step one. A buffer shorter than `dimension` gives an empty
/// histogram.
pub fn calculate_histogram(buf: &[u8], dimension: usize) -> (h: Histogram)
    requires
        dimension >= 1,
    ensures
        h.wf(),
        h.spec_dimension() == dimension,
        forall|i: int| 0 <= i < h@.len() ==> (#[trigger] h@[i]).1 == occurrences(buf@, h@[i].0),
        forall|key: Seq<u8>|
            key.len() == dimension && #[trigger] occurrences(buf@, key) > 0 ==> has_key(h@, key),
        sum_counts(h@) == num_windows(buf@.len(), dimension as nat),
{
    let len = buf.len();
    if len < dimension {
        let h = Histogram { dimension, entries: Vec::new() };
        assert(h@ =~= Seq::<(Seq<u8>, nat)>::empty());
        return h;
    }
    let entries = histogram_of_range(buf, dimension, 0, len - dimension + 1);
    Histogram { dimension, entries }
}

pub proof fn lemma_distinct_keys(s: Seq<(Seq<u8>, nat)>, a: int, b: int)
    requires
        sorted_keys(s),
        0 <= a < s.len(),
        0 <= b < s.len(),
        a != b,
    ensures
        s[a].0 != s[b].0,
{
    lemma_key_lt_irreflexive(s[a].0);
    if a < b {
        assert(key_lt(s[a].0, s[b].0));
    } else {
        assert(key_lt(s[b].0, s[a].0));
    }
}

proof fn lemma_prefix_sum_le(s: Seq<(Seq<u8>, nat)>, k: int)
    requires
        0 <= k <= s.len(),
    ensures
        sum_counts(s.take(k)) <= sum_counts(s),
    decreases s.len() - k,
{
    if k < s.len() {
        lemma_prefix_sum_le(s, k + 1);
        assert(s.take(k + 1).drop_last() =~= s.take(k));
    } else {
        assert(s.take(k) =~= s);
    }
}

pub proof fn lemma_count_le_sum(s: Seq<(Seq<u8>, nat)>, k: int)
    requires
        0 <= k < s.len(),
    ensures
        s[k].1 <= sum_counts(s),
    decreases s.len(),
{
    if k < s.len() - 1 {
        lemma_count_le_sum(s.drop_last(), k);
    }
}

} // verus!
