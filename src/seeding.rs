use vstd::prelude::*;
use crate::instance::{
    is_permutation,
    lemma_jobs_total_monotone,
    lemma_row_prefix_bounds,
    row_prefix,
    row_total,
    FSSPInstance,
};
use crate::perm::{identity_permutation, lemma_swap_permutation, swapped};

verus! {

/// Job `x` comes before job `y` when its total processing time is smaller, or
/// equal with a smaller index.
pub open spec fn precedes(pt: Seq<Seq<u32>>, x: usize, y: usize) -> bool {
    ||| row_total(pt[x as int]) < row_total(pt[y as int])
    ||| (row_total(pt[x as int]) == row_total(pt[y as int]) && x < y)
}

/// `s` lists its jobs by ascending total processing time, ties by index.
pub open spec fn sorted_by_total(pt: Seq<Seq<u32>>, s: Seq<usize>) -> bool {
    forall|a: int, b: int| 0 <= a < b < s.len() ==> precedes(pt, #[trigger] s[a], #[trigger] s[b])
}

/// The total processing time of every job.
pub fn job_totals(inst: &FSSPInstance) -> (totals: Vec<u32>)
    requires
        inst.wf(),
        inst.total_time() <= u32::MAX,
    ensures
        totals@.len() == inst.n_jobs,
        forall|j: int| 0 <= j < inst.n_jobs ==> #[trigger] totals@[j] == row_total(inst.times()[j]),
{
    let ghost pt = inst.times();
    let n = inst.n_jobs;
    let m = inst.n_machines;
    let mut totals: Vec<u32> = Vec::new();
    let mut j: usize = 0;
    while j < n
        invariant
            inst.wf(),
            inst.total_time() <= u32::MAX,
            pt == inst.times(),
            n == inst.n_jobs,
            m == inst.n_machines,
            0 <= j <= n,
            totals@.len() == j,
            forall|x: int| 0 <= x < j ==> #[trigger] totals@[x] == row_total(pt[x]),
        decreases n - j,
    {
        let row = &inst.processing_times[j];
        assert(row@ == pt[j as int]);
        proof {
            lemma_jobs_total_monotone(pt, j as nat, j as nat);
            lemma_jobs_total_monotone(pt, (j + 1) as nat, n as nat);
        }
        let mut sum: u32 = 0;
        let mut i: usize = 0;
        while i < m
            invariant
                row@ == pt[j as int],
                row@.len() == m,
                0 <= i <= m,
                sum == row_prefix(row@, i as nat),
                row_total(row@) <= u32::MAX,
            decreases m - i,
        {
            proof {
                lemma_row_prefix_bounds(row@, (i + 1) as nat, m as nat);
            }
            sum = sum + row[i];
            i = i + 1;
        }
        totals.push(sum);
        j = j + 1;
    }
    totals
}

/// The jobs ordered by ascending total processing time, ties by index.
pub fn order_by_total(inst: &FSSPInstance) -> (order: Vec<usize>)
    requires
        inst.wf(),
        inst.total_time() <= u32::MAX,
    ensures
        is_permutation(order@, inst.n_jobs as nat),
        sorted_by_total(inst.times(), order@),
{
    let ghost pt = inst.times();
    let n = inst.n_jobs;
    let totals = job_totals(inst);
    let mut order = identity_permutation(n);
    let mut i: usize = 0;
    while i < n
        invariant
            pt == inst.times(),
            n == inst.n_jobs,
            totals@.len() == n,
            forall|j: int| 0 <= j < n ==> #[trigger] totals@[j] == row_total(pt[j]),
            is_permutation(order@, n as nat),
            0 <= i <= n,
            forall|a: int, b: int|
                0 <= a < b < i ==> precedes(pt, #[trigger] order@[a], #[trigger] order@[b]),
            forall|a: int, b: int|
                0 <= a < i <= b < n ==> precedes(pt, #[trigger] order@[a], #[trigger] order@[b]),
        decreases n - i,
    {
        let mut least: usize = i;
        let mut k: usize = i + 1;
        while k < n
            invariant
                pt == inst.times(),
                n == inst.n_jobs,
                totals@.len() == n,
                forall|j: int| 0 <= j < n ==> #[trigger] totals@[j] == row_total(pt[j]),
                is_permutation(order@, n as nat),
                0 <= i < n,
                i <= least < k <= n,
                forall|c: int| i <= c < k && c != least ==> precedes(pt, order@[least as int], #[trigger] order@[c]),
            decreases n - k,
        {
            let x = order[k];
            let y = order[least];
            if totals[x] < totals[y] || (totals[x] == totals[y] && x < y) {
                least = k;
            }
            k = k + 1;
        }
        let ghost before = order@;
        proof {
            lemma_swap_permutation(before, n as nat, i as int, least as int);
        }
        let a = order[i];
        let b = order[least];
        order.set(i, b);
        order.set(least, a);
        assert(order@ == swapped(before, i as int, least as int));
        assert forall|c: int, d: int| 0 <= c < i + 1 <= d < n implies precedes(
            pt,
            #[trigger] order@[c],
            #[trigger] order@[d],
        ) by {
            if c < i {
                let dd = if d == least { i as int } else { d };
                assert(order@[d] == before[dd]);
            } else {
                assert(order@[c] == before[least as int]);
                let dd = if d == least { i as int } else { d };
                assert(order@[d] == before[dd]);
                assert(dd != least);
            }
        }
        i = i + 1;
    }
    order
}

/// `v` in reverse order.
pub fn reversed(v: &Vec<usize>) -> (r: Vec<usize>)
    ensures
        r@ == v@.reverse(),
{
    let n = v.len();
    let mut r: Vec<usize> = Vec::new();
    let mut k: usize = 0;
    while k < n
        invariant
            n == v@.len(),
            0 <= k <= n,
            r@.len() == k,
            forall|x: int| 0 <= x < k ==> #[trigger] r@[x] == v@[n - 1 - x],
        decreases n - k,
    {
        r.push(v[n - 1 - k]);
        k = k + 1;
    }
    assert(r@ =~= v@.reverse());
    r
}

/// Reversing a permutation gives a permutation.
pub proof fn lemma_reverse_permutation(s: Seq<usize>, n: nat)
    requires
        is_permutation(s, n),
    ensures
        is_permutation(s.reverse(), n),
{
    let t = s.reverse();
    assert forall|a: int, b: int| 0 <= a < t.len() && 0 <= b < t.len() && a != b implies t[a]
        != t[b] by {
        assert(t[a] == s[s.len() - 1 - a] && t[b] == s[s.len() - 1 - b]);
    }
    assert forall|k: int| 0 <= k < t.len() implies (#[trigger] t[k]) < n by {
        assert(t[k] == s[s.len() - 1 - k]);
    }
}

} // verus!
