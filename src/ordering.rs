use vstd::prelude::*;
use crate::fragment::{Fragment, dissimilarity, calculate_difference};
use vstd::set_lib::{set_int_range, lemma_int_range, lemma_subset_equality};

verus! {

/// `p` lists each of `0 .. n` exactly once.
pub open spec fn is_permutation(p: Seq<int>, n: int) -> bool {
    &&& p.len() == n
    &&& forall|i: int| 0 <= i < p.len() ==> 0 <= #[trigger] p[i] < n
    &&& forall|i: int, j: int| 0 <= i < j < p.len() ==> p[i] != p[j]
}

/// Candidate `j` loses to the fragment placed at step `k` of `p`: after
/// `s[p[k - 1]]`, the placed one scores lower, or equal with an earlier index.
pub open spec fn beats(s: Seq<Fragment>, p: Seq<int>, k: int, j: int) -> bool {
    let prev = s[p[k - 1]];
    ||| dissimilarity(prev, s[p[k]]) < dissimilarity(prev, s[j])
    ||| (dissimilarity(prev, s[p[k]]) == dissimilarity(prev, s[j]) && p[k] < j)
}

/// `p` is the greedy nearest-neighbour chain over `s`: it starts with the
/// first fragment, and each later step takes, among the fragments not yet
/// placed, the one of least dissimilarity after the previous one, the earliest
/// on a tie.
pub open spec fn is_greedy_chain(s: Seq<Fragment>, p: Seq<int>) -> bool {
    &&& is_permutation(p, s.len() as int)
    &&& s.len() > 0 ==> p[0] == 0
    &&& forall|k: int, m: int| 1 <= k < m < p.len() ==> #[trigger] beats(s, p, k, p[m])
}

/// The fragments of `s` in the order `p`.
pub open spec fn arrange(s: Seq<Fragment>, p: Seq<int>) -> Seq<Fragment> {
    Seq::new(p.len(), |i: int| s[p[i]])
}

/// Orders the fragments by boundary continuity: the greedy chain that starts
/// with the first fragment and always appends the remaining fragment whose
/// left edge best continues the right edge of the last one placed.
pub fn find_best_match(slices: Vec<Fragment>) -> (r: Vec<Fragment>)
    requires
        forall|i: int| 0 <= i < slices@.len() ==> (#[trigger] slices@[i]).wf() && slices@[i].width
            > 0,
    ensures
        exists|p: Seq<int>| is_greedy_chain(slices@, p) && r@ == arrange(slices@, p),
{
    let ghost s = slices@;
    let ghost n = s.len() as int;
    let mut pool = slices;
    let mut matched: Vec<Fragment> = Vec::new();
    if pool.len() == 0 {
        proof {
            let p = Seq::<int>::empty();
            assert(arrange(s, p) =~= matched@);
            assert(is_greedy_chain(s, p));
        }
        return matched;
    }
    let ghost mut ids: Seq<int> = Seq::new(n as nat, |i: int| i);
    let ghost mut taken: Seq<int> = Seq::empty();
    let first = pool.remove(0);
    matched.push(first);
    proof {
        taken = taken.push(0);
        ids = ids.remove(0);
    }
    while pool.len() > 0
        invariant
            n == s.len(),
            forall|i: int| 0 <= i < s.len() ==> (#[trigger] s[i]).wf() && s[i].width > 0,
            taken.len() >= 1,
            taken[0] == 0,
            taken.len() + ids.len() == n,
            pool@.len() == ids.len(),
            matched@.len() == taken.len(),
            forall|i: int| 0 <= i < ids.len() ==> 0 <= #[trigger] ids[i] < n,
            forall|i: int| 0 <= i < taken.len() ==> 0 <= #[trigger] taken[i] < n,
            forall|i: int, j: int| 0 <= i < j < ids.len() ==> ids[i] < ids[j],
            forall|i: int, j: int| 0 <= i < j < taken.len() ==> taken[i] != taken[j],
            forall|i: int, j: int|
                0 <= i < taken.len() && 0 <= j < ids.len() ==> taken[i] != ids[j],
            forall|i: int| 0 <= i < ids.len() ==> pool@[i] == s[#[trigger] ids[i]],
            forall|i: int| 0 <= i < taken.len() ==> matched@[i] == s[#[trigger] taken[i]],
            forall|k: int, m: int|
                1 <= k < m < taken.len() ==> #[trigger] beats(s, taken, k, taken[m]),
            forall|k: int, j: int|
                1 <= k < taken.len() && 0 <= j < ids.len() ==> #[trigger] beats(
                    s,
                    taken,
                    k,
                    ids[j],
                ),
        decreases pool@.len(),
    {
        let last_i: usize = matched.len() - 1;
        let ghost prev = s[taken[last_i as int]];
        assert(matched@[last_i as int] == prev);
        assert(0 <= taken[last_i as int] < n);
        assert(prev.wf() && prev.width > 0);
        assert(pool@[0] == s[ids[0]]);
        let mut best: usize = 0;
        let mut best_d: u64 = calculate_difference(&matched[last_i], &pool[0]);
        let mut i: usize = 1;
        while i < pool.len()
            invariant
                forall|q: int| 0 <= q < s.len() ==> (#[trigger] s[q]).wf() && s[q].width > 0,
                pool@.len() == ids.len(),
                forall|q: int| 0 <= q < ids.len() ==> 0 <= #[trigger] ids[q] < s.len(),
                forall|q: int| 0 <= q < ids.len() ==> pool@[q] == s[#[trigger] ids[q]],
                last_i < matched@.len(),
                matched@[last_i as int] == prev,
                prev.wf() && prev.width > 0,
                1 <= i <= pool@.len(),
                best < i,
                best_d == dissimilarity(prev, s[ids[best as int]]),
                forall|q: int|
                    0 <= q < i ==> best_d <= dissimilarity(prev, #[trigger] s[ids[q]]),
                forall|q: int|
                    0 <= q < best ==> best_d < dissimilarity(prev, #[trigger] s[ids[q]]),
            decreases pool@.len() - i,
        {
            assert(pool@[i as int] == s[ids[i as int]]);
            let d = calculate_difference(&matched[last_i], &pool[i]);
            if d < best_d {
                best = i;
                best_d = d;
            }
            i = i + 1;
        }
        let chosen = pool.remove(best);
        matched.push(chosen);
        proof {
            let b = best as int;
            let old_taken = taken;
            let old_ids = ids;
            taken = taken.push(ids[b]);
            ids = ids.remove(b);
            let k = old_taken.len() as int;
            assert forall|j: int| 0 <= j < ids.len() implies #[trigger] beats(s, taken, k, ids[j]) by {
                let q = if j < b { j } else { j + 1 };
                assert(ids[j] == old_ids[q]);
                assert(taken[k - 1] == old_taken[k - 1]);
                if q < b {
                    assert(old_ids[q] < old_ids[b]);
                }
                if q > b {
                    assert(old_ids[b] < old_ids[q]);
                }
            }
            assert forall|kk: int, m: int| 1 <= kk < m < taken.len() implies #[trigger] beats(
                s,
                taken,
                kk,
                taken[m],
            ) by {
                if m < k {
                    assert(beats(s, old_taken, kk, old_taken[m]));
                } else {
                    assert(beats(s, old_taken, kk, old_ids[b]));
                }
            }
            assert forall|kk: int, j: int|
                1 <= kk < taken.len() && 0 <= j < ids.len() implies #[trigger] beats(
                s,
                taken,
                kk,
                ids[j],
            ) by {
                if kk < k {
                    let q = if j < b { j } else { j + 1 };
                    assert(ids[j] == old_ids[q]);
                    assert(beats(s, old_taken, kk, old_ids[q]));
                }
            }
            assert forall|i1: int, j1: int|
                0 <= i1 < taken.len() && 0 <= j1 < ids.len() implies taken[i1] != ids[j1] by {
                let q = if j1 < b { j1 } else { j1 + 1 };
                assert(ids[j1] == old_ids[q]);
            }
            assert forall|i1: int, j1: int| 0 <= i1 < j1 < ids.len() implies ids[i1] < ids[j1] by {
                let q1 = if i1 < b { i1 } else { i1 + 1 };
                let q2 = if j1 < b { j1 } else { j1 + 1 };
                assert(ids[i1] == old_ids[q1]);
                assert(ids[j1] == old_ids[q2]);
            }
        }
    }
    proof {
        assert(arrange(s, taken) =~= matched@);
        assert(is_greedy_chain(s, taken));
    }
    matched
}

/// The chain is a permutation of the fragments: it has as many places as
/// there are fragments, every fragment stands at some place, and no two places
/// hold the same fragment.
pub proof fn lemma_chain_is_permutation(s: Seq<Fragment>, p: Seq<int>)
    requires
        is_greedy_chain(s, p),
    ensures
        arrange(s, p).len() == s.len(),
        forall|k: int| 0 <= k < p.len() ==> #[trigger] arrange(s, p)[k] == s[p[k]],
        forall|i: int| 0 <= i < s.len() ==> #[trigger] p.contains(i),
        forall|k1: int, k2: int| 0 <= k1 < k2 < p.len() ==> p[k1] != p[k2],
{
    let n = s.len() as int;
    assert(p.no_duplicates());
    p.unique_seq_to_set();
    lemma_int_range(0, n);
    assert(p.to_set().subset_of(set_int_range(0, n)));
    lemma_subset_equality(p.to_set(), set_int_range(0, n));
    assert forall|i: int| 0 <= i < s.len() implies #[trigger] p.contains(i) by {
        assert(set_int_range(0, n).contains(i));
        assert(p.to_set().contains(i));
    }
}

proof fn lemma_chains_agree_upto(s: Seq<Fragment>, p1: Seq<int>, p2: Seq<int>, k: int)
    requires
        is_greedy_chain(s, p1),
        is_greedy_chain(s, p2),
        0 <= k <= s.len(),
    ensures
        forall|j: int| 0 <= j < k ==> p1[j] == p2[j],
    decreases k,
{
    if k > 0 {
        lemma_chains_agree_upto(s, p1, p2, k - 1);
        lemma_chain_is_permutation(s, p1);
        lemma_chain_is_permutation(s, p2);
        let n = s.len() as int;
        let i = k - 1;
        if p1[i] != p2[i] {
            let a = p1[i];
            let b = p2[i];
            assert(i >= 1);
            assert(p1.contains(b));
            let m1 = choose|m: int| 0 <= m < n && #[trigger] p1[m] == b;
            if m1 < i {
                assert(p2[m1] == b);
            }
            assert(beats(s, p1, i, p1[m1]));
            assert(p2.contains(a));
            let m2 = choose|m: int| 0 <= m < n && #[trigger] p2[m] == a;
            if m2 < i {
                assert(p1[m2] == a);
            }
            assert(beats(s, p2, i, p2[m2]));
            assert(p1[i - 1] == p2[i - 1]);
        }
    }
}

/// The chain is determined by the fragments and their order alone: two
/// chains that both meet the greedy rule over the same fragments are equal.
pub proof fn lemma_greedy_chain_unique(s: Seq<Fragment>, p1: Seq<int>, p2: Seq<int>)
    requires
        is_greedy_chain(s, p1),
        is_greedy_chain(s, p2),
    ensures
        p1 == p2,
{
    lemma_chains_agree_upto(s, p1, p2, s.len() as int);
    assert(p1 =~= p2);
}

} // verus!
