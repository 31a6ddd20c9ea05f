//! Archive structure: how many entries an allow-list obliges an archive to
//! have.
//!
//! A legal archive contains one entry per distinct path implied by the
//! caller's patterns: each pattern itself plus every ancestor directory of
//! it. The count is over distinct paths in segment normal form, so the order
//! of the patterns and repeated spellings of one path cannot change it.

use vstd::prelude::*;

use crate::paths::{lemma_push_to_set, prefix_seq, prefix_strings, push_unique};

verus! {

/// Every prefix of every pattern, in pattern order.
pub open spec fn all_prefixes(ps: Seq<Seq<char>>) -> Seq<Seq<char>>
    decreases ps.len(),
{
    if ps.len() == 0 {
        Seq::empty()
    } else {
        all_prefixes(ps.drop_last()) + prefix_seq(ps.last())
    }
}

/// The number of distinct paths implied by the patterns: each pattern and
/// each ancestor of it, counted once.
pub open spec fn expected_count_spec(ps: Seq<Seq<char>>) -> nat {
    all_prefixes(ps).to_set().len()
}

/// Concatenating two sequences unions their element sets.
pub proof fn lemma_concat_to_set<A>(a: Seq<A>, b: Seq<A>)
    ensures
        (a + b).to_set() == a.to_set().union(b.to_set()),
{
    assert forall|y: A| (a + b).to_set().contains(y) <==> a.to_set().union(b.to_set()).contains(
        y,
    ) by {
        if (a + b).contains(y) {
            let j = choose|j: int| 0 <= j < (a + b).len() && (a + b)[j] == y;
            if j < a.len() {
                assert(a[j] == y);
                assert(a.contains(y));
            } else {
                assert(b[j - a.len()] == y);
                assert(b.contains(y));
            }
        }
        if a.contains(y) {
            let j = choose|j: int| 0 <= j < a.len() && a[j] == y;
            assert((a + b)[j] == y);
        }
        if b.contains(y) {
            let j = choose|j: int| 0 <= j < b.len() && b[j] == y;
            assert((a + b)[a.len() + j] == y);
        }
    }
    assert((a + b).to_set() =~= a.to_set().union(b.to_set()));
}

/// The set of paths behind `expected_count_spec`: a path is counted exactly
/// when it is a prefix of some pattern in the list, so the set depends only
/// on which patterns occur, not on their order or multiplicity.
pub proof fn lemma_all_prefixes_to_set(ps: Seq<Seq<char>>)
    ensures
        all_prefixes(ps).to_set() == Set::new(
            |x: Seq<char>|
                exists|p: Seq<char>| #[trigger] ps.to_set().contains(p) && prefix_seq(p).contains(
                    x,
                ),
        ),
    decreases ps.len(),
{
    let target = Set::new(
        |x: Seq<char>|
            exists|p: Seq<char>| #[trigger] ps.to_set().contains(p) && prefix_seq(p).contains(x),
    );
    if ps.len() == 0 {
        assert forall|x: Seq<char>| !target.contains(x) by {
            if target.contains(x) {
                let p = choose|p: Seq<char>| ps.to_set().contains(p) && prefix_seq(p).contains(x);
                assert(ps.contains(p));
            }
        }
        assert(all_prefixes(ps).to_set() =~= target);
    } else {
        let dl = ps.drop_last();
        lemma_all_prefixes_to_set(dl);
        lemma_concat_to_set(all_prefixes(dl), prefix_seq(ps.last()));
        assert(ps =~= dl.push(ps.last()));
        lemma_push_to_set(dl, ps.last());
        assert(ps.to_set() == dl.to_set().insert(ps.last()));
        assert forall|x: Seq<char>| all_prefixes(ps).to_set().contains(x) <==> target.contains(
            x,
        ) by {
            if all_prefixes(ps).to_set().contains(x) {
                if all_prefixes(dl).to_set().contains(x) {
                    let p = choose|p: Seq<char>|
                        dl.to_set().contains(p) && prefix_seq(p).contains(x);
                    assert(ps.to_set().contains(p));
                } else {
                    assert(prefix_seq(ps.last()).contains(x));
                    assert(ps.to_set().contains(ps.last()));
                }
            }
            if target.contains(x) {
                let p = choose|p: Seq<char>|
                    ps.to_set().contains(p) && prefix_seq(p).contains(x);
                if dl.to_set().contains(p) {
                    assert(all_prefixes(dl).to_set().contains(x));
                } else {
                    assert(p == ps.last());
                    assert(prefix_seq(ps.last()).to_set().contains(x));
                }
            }
        }
        assert(all_prefixes(ps).to_set() =~= target);
    }
}

/// The expected entry count is a function of the set of patterns alone:
/// reordering or repeating patterns cannot change it, and two calls on the
/// same patterns return the same integer.
pub proof fn lemma_expected_count_order_independent(ps1: Seq<Seq<char>>, ps2: Seq<Seq<char>>)
    requires
        ps1.to_set() == ps2.to_set(),
    ensures
        expected_count_spec(ps1) == expected_count_spec(ps2),
{
    lemma_all_prefixes_to_set(ps1);
    lemma_all_prefixes_to_set(ps2);
}

/// The ancestors of a path, the path itself included, shortest first, each
/// in segment normal form.
pub fn ancestors_rel(p: &str) -> (r: Vec<String>)
    ensures
        r.deep_view() == prefix_seq(p@),
{
    prefix_strings(p)
}

/// The number of entries an archive must have to satisfy the given
/// allow-list patterns: every pattern and every ancestor directory of one,
/// distinct spellings of the same path counted once.
pub fn expected_entry_count(file_globs: &Vec<String>) -> (r: usize)
    ensures
        r == expected_count_spec(file_globs.deep_view()),
{
    let ghost ps = file_globs.deep_view();
    let mut uniq: Vec<String> = Vec::new();
    let n = file_globs.len();
    let mut i: usize = 0;
    proof {
        assert(ps.len() == file_globs@.len());
        assert(all_prefixes(ps.take(0)).to_set() =~= Set::<Seq<char>>::empty());
        assert(uniq.deep_view().to_set() =~= Set::<Seq<char>>::empty());
    }
    while i < n
        invariant
            n == file_globs@.len(),
            ps == file_globs.deep_view(),
            ps.len() == n,
            i <= n,
            uniq.deep_view().to_set() =~= all_prefixes(ps.take(i as int)).to_set(),
            uniq.deep_view().no_duplicates(),
        decreases n - i,
    {
        let p = &file_globs[i];
        proof {
            assert(p@ == ps[i as int]);
        }
        let prefixes = ancestors_rel(p.as_str());
        let ghost pq = prefix_seq(ps[i as int]);
        let m = prefixes.len();
        let mut k: usize = 0;
        proof {
            assert(pq.len() == prefixes@.len());
            assert(pq.take(0).to_set() =~= Set::<Seq<char>>::empty());
            assert(uniq.deep_view().to_set() =~= all_prefixes(ps.take(i as int)).to_set().union(
                pq.take(0).to_set()));
        }
        while k < m
            invariant
                m == prefixes@.len(),
                prefixes.deep_view() == pq,
                pq.len() == m,
                k <= m,
                uniq.deep_view().to_set() =~= all_prefixes(ps.take(i as int)).to_set().union(
                    pq.take(k as int).to_set()),
                uniq.deep_view().no_duplicates(),
            decreases m - k,
        {
            let q = prefixes[k].clone();
            proof {
                assert(q@ == pq[k as int]);
            }
            push_unique(&mut uniq, q);
            proof {
                assert(pq.take(k + 1) =~= pq.take(k as int).push(pq[k as int]));
                lemma_push_to_set(pq.take(k as int), pq[k as int]);
                assert(uniq.deep_view().to_set() =~= all_prefixes(ps.take(i as int)).to_set()
                    .union(pq.take(k + 1).to_set()));
            }
            k = k + 1;
        }
        proof {
            assert(pq.take(m as int) =~= pq);
            assert(ps.take(i + 1).drop_last() =~= ps.take(i as int));
            assert(all_prefixes(ps.take(i + 1)) == all_prefixes(ps.take(i as int)) + prefix_seq(
                ps[i as int]));
            lemma_concat_to_set(all_prefixes(ps.take(i as int)), prefix_seq(ps[i as int]));
            assert(uniq.deep_view().to_set() =~= all_prefixes(ps.take(i + 1)).to_set());
        }
        i = i + 1;
    }
    proof {
        assert(ps.take(n as int) =~= ps);
        uniq.deep_view().unique_seq_to_set();
    }
    uniq.len()
}

} // verus!
