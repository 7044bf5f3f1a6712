use vstd::prelude::*;
use crate::instance::{is_job_order, is_permutation};
use crate::perm::{index_set, lemma_index_set_len, lemma_permutation_to_set, lemma_set_to_permutation};

verus! {

/// The genes of `b`, in order, that do not occur in `seg`.
pub open spec fn kept_genes(b: Seq<usize>, seg: Seq<usize>) -> Seq<usize>
    decreases b.len(),
{
    if b.len() == 0 {
        Seq::empty()
    } else {
        let r = kept_genes(b.drop_last(), seg);
        if seg.contains(b.last()) {
            r
        } else {
            r.push(b.last())
        }
    }
}

/// The partially mapped child of `a` and `b` for cut points `start <= end`:
/// `a`'s segment `[start, end]` stays in place, and the other positions take,
/// in order, the genes of `b` that the segment lacks.
pub open spec fn pmx_child(a: Seq<usize>, b: Seq<usize>, start: int, end: int) -> Seq<usize> {
    let seg = a.subrange(start, end + 1);
    let rest = kept_genes(b, seg);
    rest.take(start) + seg + rest.skip(start)
}

proof fn lemma_kept_genes(b: Seq<usize>, seg: Seq<usize>)
    ensures
        forall|g: usize| #[trigger]
            kept_genes(b, seg).contains(g) <==> (b.contains(g) && !seg.contains(g)),
        b.no_duplicates() ==> kept_genes(b, seg).no_duplicates(),
    decreases b.len(),
{
    if b.len() > 0 {
        let p = b.drop_last();
        lemma_kept_genes(p, seg);
        assert forall|g: usize| #[trigger] b.contains(g) <==> (p.contains(g) || g == b.last()) by {
            if b.contains(g) {
                let k = choose|k: int| 0 <= k < b.len() && b[k] == g;
                if k < b.len() - 1 {
                    assert(p[k] == g);
                }
            }
            if p.contains(g) {
                let k = choose|k: int| 0 <= k < p.len() && p[k] == g;
                assert(b[k] == g);
            }
            if g == b.last() {
                assert(b[b.len() - 1] == g);
            }
        }
        let r = kept_genes(p, seg);
        if !seg.contains(b.last()) {
            assert forall|g: usize| #[trigger] r.push(b.last()).contains(g) <==> (r.contains(g) || g
                == b.last()) by {
                if r.push(b.last()).contains(g) {
                    let k = choose|k: int| 0 <= k < r.len() + 1 && r.push(b.last())[k] == g;
                    if k < r.len() {
                        assert(r[k] == g);
                    }
                }
                if r.contains(g) {
                    let k = choose|k: int| 0 <= k < r.len() && r[k] == g;
                    assert(r.push(b.last())[k] == g);
                }
                if g == b.last() {
                    assert(r.push(b.last())[r.len() as int] == g);
                }
            }
            if b.no_duplicates() {
                assert(!p.contains(b.last())) by {
                    if p.contains(b.last()) {
                        let k = choose|k: int| 0 <= k < p.len() && p[k] == b.last();
                        assert(b[k] == b[b.len() - 1]);
                    }
                }
                assert(!r.contains(b.last()));
                assert(p.no_duplicates()) by {
                    assert forall|x: int, y: int| 0 <= x < p.len() && 0 <= y < p.len() && x != y
                        implies p[x] != p[y] by {
                        assert(p[x] == b[x] && p[y] == b[y]);
                    }
                }
                assert forall|x: int, y: int|
                    0 <= x < r.len() + 1 && 0 <= y < r.len() + 1 && x != y implies r.push(
                    b.last(),
                )[x] != r.push(b.last())[y] by {
                    if x == r.len() {
                        assert(r.contains(r[y]));
                    } else if y == r.len() {
                        assert(r.contains(r[x]));
                    }
                }
            }
        } else if b.no_duplicates() {
            assert forall|x: int, y: int| 0 <= x < p.len() && 0 <= y < p.len() && x != y implies p[x]
                != p[y] by {
                assert(p[x] == b[x] && p[y] == b[y]);
            }
        }
    }
}

/// For permutations `a` and `b` of `0..n`, the genes of `b` outside `a`'s segment
/// are distinct and fill exactly the positions outside the segment.
proof fn lemma_kept_genes_len(a: Seq<usize>, b: Seq<usize>, n: nat, start: int, end: int)
    requires
        is_permutation(a, n),
        is_permutation(b, n),
        n <= usize::MAX,
        0 <= start <= end < n,
    ensures
        kept_genes(b, a.subrange(start, end + 1)).len() == n - (end + 1 - start),
        kept_genes(b, a.subrange(start, end + 1)).no_duplicates(),
{
    let seg = a.subrange(start, end + 1);
    let rest = kept_genes(b, seg);
    lemma_kept_genes(b, seg);
    lemma_permutation_to_set(b, n);
    lemma_index_set_len(n);
    assert(seg.no_duplicates()) by {
        assert forall|x: int, y: int| 0 <= x < seg.len() && 0 <= y < seg.len() && x != y implies seg[x]
            != seg[y] by {
            assert(seg[x] == a[start + x] && seg[y] == a[start + y]);
        }
    }
    seg.unique_seq_to_set();
    rest.unique_seq_to_set();
    assert(seg.to_set().subset_of(index_set(n))) by {
        assert forall|g: usize| seg.to_set().contains(g) implies index_set(n).contains(g) by {
            let k = choose|k: int| 0 <= k < seg.len() && seg[k] == g;
            assert(a[start + k] == g);
        }
    }
    assert(rest.to_set() =~= index_set(n).difference(seg.to_set())) by {
        assert forall|g: usize| rest.to_set().contains(g) <==> index_set(n).difference(
            seg.to_set(),
        ).contains(g) by {
            assert(rest.to_set().contains(g) <==> rest.contains(g));
            assert(b.to_set().contains(g) <==> b.contains(g));
        }
    }
    vstd::set_lib::lemma_set_subset_finite(index_set(n), seg.to_set());
    vstd::set_lib::lemma_set_difference_len(index_set(n), seg.to_set());
    assert(index_set(n).intersect(seg.to_set()) =~= seg.to_set());
}

/// Partially mapped crossover of two permutations of `0..n` yields a
/// permutation of `0..n`, whatever the cut points.
pub proof fn lemma_pmx_child_is_permutation(a: Seq<usize>, b: Seq<usize>, n: nat, start: int, end: int)
    requires
        is_permutation(a, n),
        is_permutation(b, n),
        n <= usize::MAX,
        0 <= start <= end < n,
    ensures
        is_permutation(pmx_child(a, b, start, end), n),
{
    let seg = a.subrange(start, end + 1);
    let rest = kept_genes(b, seg);
    let c = pmx_child(a, b, start, end);
    lemma_kept_genes(b, seg);
    lemma_kept_genes_len(a, b, n, start, end);
    lemma_permutation_to_set(a, n);
    lemma_permutation_to_set(b, n);
    assert(c.len() == n);
    assert(c.to_set() =~= index_set(n)) by {
        assert forall|g: usize| c.to_set().contains(g) <==> index_set(n).contains(g) by {
            if c.to_set().contains(g) {
                let k = choose|k: int| 0 <= k < c.len() && c[k] == g;
                if k < start {
                    assert(rest[k] == g);
                    assert(rest.contains(g));
                } else if k <= end {
                    assert(a[k] == g);
                    assert(a.to_set().contains(g));
                } else {
                    assert(rest[k - (end + 1 - start)] == g);
                    assert(rest.contains(g));
                }
            }
            if index_set(n).contains(g) {
                assert(a.to_set().contains(g));
                assert(b.to_set().contains(g));
                if seg.contains(g) {
                    let k = choose|k: int| 0 <= k < seg.len() && seg[k] == g;
                    assert(c[start + k] == g);
                } else {
                    assert(rest.contains(g));
                    let k = choose|k: int| 0 <= k < rest.len() && rest[k] == g;
                    if k < start {
                        assert(c[k] == g);
                    } else {
                        assert(c[k + (end + 1 - start)] == g);
                    }
                }
            }
        }
    }
    lemma_set_to_permutation(c, n);
}

/// Builds the partially mapped child of `p1` and `p2` for cut points `start <= end`.
pub fn pmx(p1: &Vec<usize>, p2: &Vec<usize>, start: usize, end: usize) -> (child: Vec<usize>)
    requires
        is_permutation(p1@, p1@.len()),
        is_permutation(p2@, p1@.len()),
        start <= end < p1@.len(),
    ensures
        child@ == pmx_child(p1@, p2@, start as int, end as int),
        is_permutation(child@, p1@.len()),
{
    let n = p1.len();
    let ghost a = p1@;
    let ghost b = p2@;
    let ghost seg = a.subrange(start as int, end + 1);
    proof {
        lemma_kept_genes_len(a, b, n as nat, start as int, end as int);
        lemma_pmx_child_is_permutation(a, b, n as nat, start as int, end as int);
    }
    // in_segment[g] tells whether gene g lies in p1's segment
    let mut in_segment: Vec<bool> = vec![false; n];
    let mut k: usize = start;
    while k <= end
        invariant
            a == p1@,
            n == a.len(),
            is_permutation(a, n as nat),
            start <= k <= end + 1,
            end < n,
            in_segment@.len() == n,
            forall|g: int|
                0 <= g < n ==> #[trigger] in_segment@[g] == a.subrange(start as int, k as int).contains(
                    g as usize,
                ),
        decreases end + 1 - k,
    {
        let g = p1[k];
        proof {
            let old_seg = a.subrange(start as int, k as int);
            let new_seg = a.subrange(start as int, k + 1);
            assert(new_seg =~= old_seg.push(g));
            assert forall|h: usize| #[trigger] new_seg.contains(h) <==> (old_seg.contains(h) || h
                == g) by {
                if new_seg.contains(h) {
                    let x = choose|x: int| 0 <= x < new_seg.len() && new_seg[x] == h;
                    if x < old_seg.len() {
                        assert(old_seg[x] == h);
                    }
                }
                if old_seg.contains(h) {
                    let x = choose|x: int| 0 <= x < old_seg.len() && old_seg[x] == h;
                    assert(new_seg[x] == h);
                }
                if h == g {
                    assert(new_seg[old_seg.len() as int] == h);
                }
            }
        }
        in_segment.set(g, true);
        k = k + 1;
    }
    let mut rest: Vec<usize> = Vec::new();
    let mut idx: usize = 0;
    while idx < n
        invariant
            a == p1@,
            b == p2@,
            n == a.len(),
            is_job_order(b, n as nat),
            seg == a.subrange(start as int, end + 1),
            0 <= idx <= n,
            in_segment@.len() == n,
            forall|g: int| 0 <= g < n ==> #[trigger] in_segment@[g] == seg.contains(g as usize),
            rest@ == kept_genes(b.take(idx as int), seg),
        decreases n - idx,
    {
        let g = p2[idx];
        assert(b.take(idx + 1).drop_last() =~= b.take(idx as int));
        if !in_segment[g] {
            rest.push(g);
        }
        idx = idx + 1;
    }
    assert(b.take(n as int) =~= b);
    let seg_len = end + 1 - start;
    let mut child: Vec<usize> = Vec::new();
    let mut i: usize = 0;
    while i < n
        invariant
            a == p1@,
            b == p2@,
            n == a.len(),
            seg == a.subrange(start as int, end + 1),
            rest@ == kept_genes(b, seg),
            rest@.len() == n - seg_len,
            seg_len == end + 1 - start,
            start <= end < n,
            0 <= i <= n,
            child@.len() == i,
            forall|x: int| 0 <= x < i ==> #[trigger] child@[x] == pmx_child(a, b, start as int, end as int)[x],
        decreases n - i,
    {
        if i < start {
            child.push(rest[i]);
        } else if i <= end {
            child.push(p1[i]);
        } else {
            child.push(rest[i - seg_len]);
        }
        i = i + 1;
    }
    assert(child@ =~= pmx_child(a, b, start as int, end as int));
    child
}

} // verus!
