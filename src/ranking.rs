//! Ranking of histogram entries by descending count.

use vstd::prelude::*;
use core::cmp::Ordering;
use crate::keys::{compare_keys, key_lt, lemma_key_lt_asymmetric, lemma_key_lt_irreflexive, lemma_key_lt_transitive};
use crate::histogram::{Histogram, entries_view, sorted_keys, well_shaped};

verus! {

/// `a` comes before `b` in a ranking: it has the higher count, or the same
/// count and the smaller key.
pub open spec fn ranks_before(a: (Seq<u8>, nat), b: (Seq<u8>, nat)) -> bool {
    a.1 > b.1 || (a.1 == b.1 && key_lt(a.0, b.0))
}

/// Each entry comes strictly before every later one.
pub open spec fn strictly_ranked(r: Seq<(Seq<u8>, nat)>) -> bool {
    forall|i: int, j: int| 0 <= i < j < r.len() ==> ranks_before(#[trigger] r[i], #[trigger] r[j])
}

/// `r` holds exactly the entries of `s`, in ranking order.
pub open spec fn is_ranking_of(r: Seq<(Seq<u8>, nat)>, s: Seq<(Seq<u8>, nat)>) -> bool {
    &&& strictly_ranked(r)
    &&& forall|e: (Seq<u8>, nat)| #[trigger] r.contains(e) <==> s.contains(e)
}

pub open spec fn ranked_view(r: Seq<(&Vec<u8>, &usize)>) -> Seq<(Seq<u8>, nat)> {
    r.map_values(|e: (&Vec<u8>, &usize)| (e.0@, *e.1 as nat))
}

pub proof fn lemma_ranks_before_transitive(a: (Seq<u8>, nat), b: (Seq<u8>, nat), c: (Seq<u8>, nat))
    requires
        ranks_before(a, b),
        ranks_before(b, c),
    ensures
        ranks_before(a, c),
{
    if a.1 == b.1 && b.1 == c.1 {
        lemma_key_lt_transitive(a.0, b.0, c.0);
    }
}

pub proof fn lemma_ranks_before_asymmetric(a: (Seq<u8>, nat), b: (Seq<u8>, nat))
    ensures
        !(ranks_before(a, b) && ranks_before(b, a)),
        !ranks_before(a, a),
{
    lemma_key_lt_asymmetric(a.0, b.0);
    lemma_key_lt_irreflexive(a.0);
}

/// Three-way comparison of two entries whose keys have equal length.
fn compare_entries(ak: &Vec<u8>, ac: usize, bk: &Vec<u8>, bc: usize) -> (r: Ordering)
    requires
        ak@.len() == bk@.len(),
    ensures
        r == Ordering::Less <==> ranks_before((ak@, ac as nat), (bk@, bc as nat)),
        r == Ordering::Greater <==> ranks_before((bk@, bc as nat), (ak@, ac as nat)),
        r == Ordering::Equal <==> ak@ == bk@ && ac == bc,
{
    proof {
        lemma_key_lt_asymmetric(ak@, bk@);
        lemma_key_lt_irreflexive(ak@);
    }
    if ac > bc {
        Ordering::Less
    } else if ac < bc {
        Ordering::Greater
    } else {
        compare_keys(ak, bk)
    }
}

/// All entries of the histogram, highest count first; entries with equal
/// counts keep ascending key order.
pub fn get_most_frequent_bytes(histogram: &Histogram) -> (r: Vec<(&Vec<u8>, &usize)>)
    requires
        histogram.wf(),
    ensures
        is_ranking_of(ranked_view(r@), histogram@),
        r@.len() == histogram@.len(),
{
    let entries = histogram.entries();
    let ghost s = histogram@;
    let ghost n = histogram.spec_dimension();
    let mut r: Vec<(&Vec<u8>, &usize)> = Vec::new();
    let mut i: usize = 0;
    while i < entries.len()
        invariant
            entries_view(entries@) == s,
            well_shaped(s, n),
            sorted_keys(s),
            i <= s.len(),
            r@.len() == i,
            strictly_ranked(ranked_view(r@)),
            forall|e: (Seq<u8>, nat)| #[trigger] ranked_view(r@).contains(e) <==> s.take(i as int).contains(e),
        decreases s.len() - i,
    {
        let e = &entries[i];
        let ghost x = s[i as int];
        let ghost rv = ranked_view(r@);
        assert(x == (e.0@, e.1 as nat));
        let mut pos: usize = 0;
        let mut placed = false;
        while pos < r.len() && !placed
            invariant
                rv == ranked_view(r@),
                x == (e.0@, e.1 as nat),
                x == s[i as int],
                i < s.len(),
                well_shaped(s, n),
                sorted_keys(s),
                strictly_ranked(rv),
                forall|f: (Seq<u8>, nat)| #[trigger] rv.contains(f) <==> s.take(i as int).contains(f),
                pos <= r@.len(),
                forall|k: int| 0 <= k < pos ==> ranks_before(#[trigger] rv[k], x),
                placed ==> pos < r@.len() && ranks_before(x, rv[pos as int]),
            decreases r@.len() - pos + if placed { 0int } else { 1int },
        {
            let other = r[pos];
            assert(rv[pos as int] == (other.0@, *other.1 as nat));
            assert(rv.contains(rv[pos as int]));
            let ghost k = choose|k: int| 0 <= k < i && s.take(i as int)[k] == rv[pos as int];
            assert(s[k] == rv[pos as int]);
            match compare_entries(&e.0, e.1, other.0, *other.1) {
                Ordering::Less => {
                    placed = true;
                },
                Ordering::Greater => {
                    pos = pos + 1;
                },
                Ordering::Equal => {
                    proof {
                        crate::histogram::lemma_distinct_keys(s, k, i as int);
                    }
                    pos = pos + 1;
                },
            }
        }
        r.insert(pos, (&e.0, &e.1));
        proof {
            let rv2 = ranked_view(r@);
            assert(rv2 =~= rv.insert(pos as int, x));
            assert forall|a: int, b: int| 0 <= a < b < rv2.len() implies ranks_before(
                #[trigger] rv2[a],
                #[trigger] rv2[b],
            ) by {
                if b < pos {
                } else if b == pos {
                } else if a < pos {
                    assert(rv2[b] == rv[b - 1]);
                    if b - 1 == pos {
                    } else {
                        lemma_ranks_before_transitive(x, rv[pos as int], rv[b - 1]);
                    }
                    lemma_ranks_before_transitive(rv2[a], x, rv2[b]);
                } else if a == pos {
                    assert(rv2[b] == rv[b - 1]);
                    if b - 1 > pos {
                        lemma_ranks_before_transitive(x, rv[pos as int], rv[b - 1]);
                    }
                } else {
                    assert(rv2[a] == rv[a - 1] && rv2[b] == rv[b - 1]);
                }
            }
            let t2 = s.take(i + 1);
            assert(t2 =~= s.take(i as int).push(x));
            assert forall|f: (Seq<u8>, nat)| #[trigger] rv2.contains(f) <==> t2.contains(f) by {
                if rv2.contains(f) {
                    let a = choose|a: int| 0 <= a < rv2.len() && rv2[a] == f;
                    if a < pos {
                        assert(rv.contains(rv[a]));
                    } else if a > pos {
                        assert(rv.contains(rv[a - 1]));
                    }
                    if f != x {
                        let b = choose|b: int| 0 <= b < i && s.take(i as int)[b] == f;
                        assert(t2[b] == f);
                    } else {
                        assert(t2[i as int] == f);
                    }
                }
                if t2.contains(f) {
                    let b = choose|b: int| 0 <= b < i + 1 && t2[b] == f;
                    if b == i {
                        assert(rv2[pos as int] == f);
                    } else {
                        assert(s.take(i as int)[b] == f);
                        assert(s.take(i as int).contains(f));
                        assert(rv.contains(f));
                        let a = choose|a: int| 0 <= a < rv.len() && rv[a] == f;
                        if a < pos {
                            assert(rv2[a] == f);
                        } else {
                            assert(rv2[a + 1] == f);
                        }
                    }
                }
            }
        }
        i = i + 1;
    }
    assert(s.take(s.len() as int) =~= s);
    r
}

/// The first `count` entries of the ranking of the histogram; all of them
/// when `count` is at least the number of distinct keys.
pub fn get_top_frequent_bytes(histogram: &Histogram, count: usize) -> (r: Vec<(&Vec<u8>, &usize)>)
    requires
        histogram.wf(),
    ensures
        r@.len() == if count < histogram@.len() { count as nat } else { histogram@.len() },
        strictly_ranked(ranked_view(r@)),
        forall|e: (Seq<u8>, nat)| #[trigger] ranked_view(r@).contains(e) ==> histogram@.contains(e),
        forall|e: (Seq<u8>, nat), f: (Seq<u8>, nat)|
            #[trigger] ranked_view(r@).contains(e) && #[trigger] histogram@.contains(f)
                && !ranked_view(r@).contains(f) ==> ranks_before(e, f),
        count >= histogram@.len() ==> is_ranking_of(ranked_view(r@), histogram@),
{
    let mut r = get_most_frequent_bytes(histogram);
    let ghost full = ranked_view(r@);
    r.truncate(count);
    proof {
        let rv = ranked_view(r@);
        let m = rv.len() as int;
        assert(rv =~= full.take(m));
        assert forall|e: (Seq<u8>, nat)| #[trigger] rv.contains(e) implies full.contains(e) by {
            let a = choose|a: int| 0 <= a < rv.len() && rv[a] == e;
            assert(full[a] == e);
        }
        assert forall|e: (Seq<u8>, nat), f: (Seq<u8>, nat)|
            #[trigger] rv.contains(e) && #[trigger] histogram@.contains(f) && !rv.contains(
                f,
            ) implies ranks_before(e, f) by {
            let a = choose|a: int| 0 <= a < rv.len() && rv[a] == e;
            assert(full.contains(f));
            let b = choose|b: int| 0 <= b < full.len() && full[b] == f;
            if b < m {
                assert(rv[b] == f);
            }
            assert(full[a] == e);
        }
        if count >= histogram@.len() {
            assert(rv =~= full);
        }
    }
    r
}

/// A ranking is determined by the entries it ranks: ranking the same
/// entries twice gives the same sequence. Within it, entries with equal
/// counts stand in ascending key order.
pub proof fn lemma_ranking_unique(s: Seq<(Seq<u8>, nat)>, r1: Seq<(Seq<u8>, nat)>, r2: Seq<(Seq<u8>, nat)>)
    requires
        is_ranking_of(r1, s),
        is_ranking_of(r2, s),
    ensures
        r1 == r2,
        forall|i: int, j: int|
            0 <= i < j < r1.len() && r1[i].1 == r1[j].1 ==> key_lt(#[trigger] r1[i].0, #[trigger] r1[j].0),
{
    lemma_sorted_unique(r1, r2);
}

proof fn lemma_sorted_unique(a: Seq<(Seq<u8>, nat)>, b: Seq<(Seq<u8>, nat)>)
    requires
        strictly_ranked(a),
        strictly_ranked(b),
        forall|e: (Seq<u8>, nat)| #[trigger] a.contains(e) <==> b.contains(e),
    ensures
        a == b,
    decreases a.len(),
{
    if a.len() == 0 {
        if b.len() > 0 {
            assert(b.contains(b[0]));
            assert(a.contains(b[0]));
        }
        assert(a =~= b);
    } else {
        assert(a.contains(a[0]));
        assert(b.contains(a[0]));
        let j = choose|j: int| 0 <= j < b.len() && b[j] == a[0];
        assert(b.contains(b[0]));
        assert(a.contains(b[0]));
        let i = choose|i: int| 0 <= i < a.len() && a[i] == b[0];
        lemma_ranks_before_asymmetric(a[0], b[0]);
        if i > 0 && j > 0 {
            assert(ranks_before(a[0], a[i]));
            assert(ranks_before(b[0], b[j]));
        }
        assert(a[0] == b[0]);
        let a1 = a.drop_first();
        let b1 = b.drop_first();
        assert forall|e: (Seq<u8>, nat)| #[trigger] a1.contains(e) <==> b1.contains(e) by {
            if a1.contains(e) {
                let k = choose|k: int| 0 <= k < a1.len() && a1[k] == e;
                assert(a[k + 1] == e);
                assert(a.contains(e));
                assert(ranks_before(a[0], a[k + 1]));
                lemma_ranks_before_asymmetric(e, e);
                let m = choose|m: int| 0 <= m < b.len() && b[m] == e;
                assert(m != 0);
                assert(b1[m - 1] == e);
            }
            if b1.contains(e) {
                let k = choose|k: int| 0 <= k < b1.len() && b1[k] == e;
                assert(b[k + 1] == e);
                assert(b.contains(e));
                assert(a.contains(e));
                assert(ranks_before(b[0], b[k + 1]));
                lemma_ranks_before_asymmetric(e, e);
                let m = choose|m: int| 0 <= m < a.len() && a[m] == e;
                assert(m != 0);
                assert(a1[m - 1] == e);
            }
        }
        lemma_sorted_unique(a1, b1);
        assert(a =~= b1.insert(0, b[0]));
        assert(b =~= b1.insert(0, b[0]));
    }
}

} // verus!
