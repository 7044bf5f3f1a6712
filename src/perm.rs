use vstd::prelude::*;
use crate::instance::{is_job_order, is_permutation};

verus! {

/// The job indices `0..n`.
pub open spec fn index_set(n: nat) -> Set<usize> {
    Set::new(|x: usize| x < n)
}

/// `s` with the entries at positions `i` and `j` exchanged.
pub open spec fn swapped(s: Seq<usize>, i: int, j: int) -> Seq<usize> {
    s.update(i, s[j]).update(j, s[i])
}

pub proof fn lemma_index_set_len(n: nat)
    requires
        n <= usize::MAX + 1,
    ensures
        index_set(n).finite(),
        index_set(n).len() == n,
    decreases n,
{
    if n == 0 {
        assert(index_set(0) =~= Set::empty());
    } else {
        lemma_index_set_len((n - 1) as nat);
        assert(index_set((n - 1) as nat).insert((n - 1) as usize) =~= index_set(n));
    }
}

/// A permutation of `0..n` holds every index below `n`.
pub proof fn lemma_permutation_to_set(s: Seq<usize>, n: nat)
    requires
        is_permutation(s, n),
        n <= usize::MAX,
    ensures
        s.to_set() == index_set(n),
{
    s.unique_seq_to_set();
    lemma_index_set_len(n);
    assert forall|x: usize| s.to_set().contains(x) implies index_set(n).contains(x) by {
        let k = choose|k: int| 0 <= k < s.len() && s[k] == x;
    }
    vstd::set_lib::lemma_subset_equality(s.to_set(), index_set(n));
}

/// A sequence of length `n` that holds every index below `n` is a permutation.
pub proof fn lemma_set_to_permutation(s: Seq<usize>, n: nat)
    requires
        s.len() == n,
        s.to_set() == index_set(n),
        n <= usize::MAX,
    ensures
        is_permutation(s, n),
{
    lemma_index_set_len(n);
    s.lemma_no_dup_set_cardinality();
    assert forall|k: int| 0 <= k < s.len() implies (#[trigger] s[k]) < n by {
        assert(s.to_set().contains(s[k]));
    }
}

/// Exchanging two entries keeps a permutation a permutation.
pub proof fn lemma_swap_permutation(s: Seq<usize>, n: nat, i: int, j: int)
    requires
        is_permutation(s, n),
        0 <= i < n,
        0 <= j < n,
    ensures
        is_permutation(swapped(s, i, j), n),
{
    let t = swapped(s, i, j);
    assert forall|a: int, b: int| 0 <= a < t.len() && 0 <= b < t.len() && a != b implies t[a]
        != t[b] by {
        let sa = if a == i { j } else if a == j { i } else { a };
        let sb = if b == i { j } else if b == j { i } else { b };
        assert(t[a] == s[sa] && t[b] == s[sb]);
    }
    assert forall|k: int| 0 <= k < t.len() implies (#[trigger] t[k]) < n by {
        let sk = if k == i { j } else if k == j { i } else { k };
        assert(t[k] == s[sk]);
    }
}

/// Two sequences with the same multiset of entries are permutations together.
pub proof fn lemma_same_multiset_permutation(s: Seq<usize>, t: Seq<usize>, n: nat)
    requires
        is_permutation(s, n),
        s.to_multiset() == t.to_multiset(),
    ensures
        is_permutation(t, n),
{
    vstd::seq_lib::to_multiset_len(s);
    vstd::seq_lib::to_multiset_len(t);
    s.lemma_multiset_has_no_duplicates();
    t.lemma_multiset_has_no_duplicates_conv();
    assert forall|k: int| 0 <= k < t.len() implies (#[trigger] t[k]) < n by {
        assert(t.contains(t[k]));
        vstd::seq_lib::to_multiset_contains(t, t[k]);
        vstd::seq_lib::to_multiset_contains(s, t[k]);
        let x = choose|x: int| 0 <= x < s.len() && s[x] == t[k];
    }
}

/// `0, 1, ..., n - 1` is a permutation.
pub open spec fn identity_order(n: nat) -> Seq<usize> {
    Seq::new(n, |k: int| k as usize)
}

/// Builds `0, 1, ..., n - 1`.
pub fn identity_permutation(n: usize) -> (r: Vec<usize>)
    ensures
        r@ == identity_order(n as nat),
        is_permutation(r@, n as nat),
{
    let mut r: Vec<usize> = Vec::new();
    let mut k: usize = 0;
    while k < n
        invariant
            0 <= k <= n,
            r@ =~= identity_order(k as nat),
        decreases n - k,
    {
        r.push(k);
        k = k + 1;
    }
    assert(is_job_order(r@, n as nat));
    r
}

} // verus!
