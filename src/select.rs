use vstd::prelude::*;

verus! {

/// `v` read as integers.
pub open spec fn as_ints(v: Seq<u32>) -> Seq<int> {
    Seq::new(v.len(), |k: int| v[k] as int)
}

/// `i` is the first position holding the least value of `v`.
pub open spec fn is_first_min(v: Seq<int>, i: int) -> bool {
    &&& 0 <= i < v.len()
    &&& forall|k: int| 0 <= k < v.len() ==> v[i] <= #[trigger] v[k]
    &&& forall|k: int| 0 <= k < i ==> v[i] < #[trigger] v[k]
}

/// `i` is the first position holding the greatest value of `v`.
pub open spec fn is_first_max(v: Seq<int>, i: int) -> bool {
    &&& 0 <= i < v.len()
    &&& forall|k: int| 0 <= k < v.len() ==> #[trigger] v[k] <= v[i]
    &&& forall|k: int| 0 <= k < i ==> #[trigger] v[k] < v[i]
}

/// Position of the first least value.
pub fn first_min_index(v: &Vec<u32>) -> (r: usize)
    requires
        v@.len() > 0,
    ensures
        is_first_min(as_ints(v@), r as int),
{
    let mut best: usize = 0;
    let mut k: usize = 1;
    while k < v.len()
        invariant
            1 <= k <= v@.len(),
            0 <= best < k,
            forall|x: int| 0 <= x < k ==> v@[best as int] <= #[trigger] v@[x],
            forall|x: int| 0 <= x < best ==> v@[best as int] < #[trigger] v@[x],
        decreases v@.len() - k,
    {
        if v[k] < v[best] {
            best = k;
        }
        k = k + 1;
    }
    best
}

/// Position of the first greatest value.
pub fn first_max_index(v: &Vec<u32>) -> (r: usize)
    requires
        v@.len() > 0,
    ensures
        is_first_max(as_ints(v@), r as int),
{
    let mut best: usize = 0;
    let mut k: usize = 1;
    while k < v.len()
        invariant
            1 <= k <= v@.len(),
            0 <= best < k,
            forall|x: int| 0 <= x < k ==> #[trigger] v@[x] <= v@[best as int],
            forall|x: int| 0 <= x < best ==> #[trigger] v@[x] < v@[best as int],
        decreases v@.len() - k,
    {
        if v[k] > v[best] {
            best = k;
        }
        k = k + 1;
    }
    best
}

/// The fitness of each individual of `draw`.
pub open spec fn draw_fitness(fitness: Seq<u32>, draw: Seq<usize>) -> Seq<int> {
    Seq::new(draw.len(), |k: int| fitness[draw[k] as int] as int)
}

/// `p` is the first individual of `draw` with the lowest fitness.
pub open spec fn wins(fitness: Seq<u32>, draw: Seq<usize>, p: usize) -> bool {
    exists|w: int| is_first_min(draw_fitness(fitness, draw), w) && p == draw[w]
}

/// The winner of a tournament among the individuals `draw`: the first of them
/// with the lowest fitness.
pub fn tournament_winner(fitness: &Vec<u32>, draw: &Vec<usize>) -> (r: usize)
    requires
        draw@.len() > 0,
        forall|k: int| 0 <= k < draw@.len() ==> #[trigger] draw@[k] < fitness@.len(),
    ensures
        wins(fitness@, draw@, r),
{
    let ghost v = draw_fitness(fitness@, draw@);
    let mut best: usize = 0;
    let mut k: usize = 1;
    while k < draw.len()
        invariant
            v == draw_fitness(fitness@, draw@),
            forall|k: int| 0 <= k < draw@.len() ==> #[trigger] draw@[k] < fitness@.len(),
            1 <= k <= draw@.len(),
            0 <= best < k,
            forall|x: int| 0 <= x < k ==> v[best as int] <= #[trigger] v[x],
            forall|x: int| 0 <= x < best ==> v[best as int] < #[trigger] v[x],
        decreases draw@.len() - k,
    {
        if fitness[draw[k]] < fitness[draw[best]] {
            best = k;
        }
        k = k + 1;
    }
    assert(is_first_min(v, best as int));
    draw[best]
}

} // verus!
