use vstd::prelude::*;
use rand::rngs::StdRng;
use std::time::Instant;
use crate::clock::nanos_since;
use crate::crossover::{pmx, pmx_child};
use crate::instance::{is_permutation, lemma_makespan_at_most_total, FSSPInstance};
use crate::perm::{
    identity_order,
    identity_permutation,
    lemma_same_multiset_permutation,
    lemma_swap_permutation,
    swapped,
};
use crate::random::{choose_multiple, random_below, random_ratio, shuffle};
use crate::seeding::{lemma_reverse_permutation, order_by_total, reversed, sorted_by_total};
use crate::select::{wins, as_ints, first_max_index, first_min_index, is_first_max, is_first_min, tournament_winner};

verus! {

/// Rates are given in millionths: `RATE_SCALE` stands for probability one.
pub const RATE_SCALE: u32 = 1_000_000;

/// Individuals drawn for each tournament.
pub const TOURNAMENT_SIZE: usize = 3;

/// The makespan of every individual of `pop`.
pub open spec fn makespans(inst: FSSPInstance, pop: Seq<Seq<usize>>) -> Seq<int> {
    Seq::new(pop.len(), |k: int| inst.makespan_of(pop[k]))
}

/// Every individual of `pop` is a permutation of `0..n`.
pub open spec fn all_permutations(pop: Seq<Seq<usize>>, n: nat) -> bool {
    forall|k: int| 0 <= k < pop.len() ==> is_permutation(#[trigger] pop[k], n)
}

/// `s` cannot be improved by exchanging any two of its positions.
pub open spec fn is_swap_optimal(inst: FSSPInstance, s: Seq<usize>) -> bool {
    forall|i: int, j: int|
        0 <= i < j < s.len() ==> inst.makespan_of(s) <= #[trigger] inst.makespan_of(swapped(s, i, j))
}

/// The parent that the parent in slot `k` is paired with.
pub open spec fn mate(parents: Seq<usize>, k: int) -> usize {
    if k % 2 == 0 {
        if k + 1 < parents.len() {
            parents[k + 1]
        } else {
            parents[0]
        }
    } else {
        parents[k - 1]
    }
}

/// Children `k` and, if there is one, `k + 1` of `c` are the partially mapped
/// children of `a` and `b`, and of `b` and `a`, for the same cut points.
pub open spec fn is_pmx_pair(c: Seq<Seq<usize>>, k: int, a: Seq<usize>, b: Seq<usize>, n: nat) -> bool {
    exists|start: int, end: int|
        0 <= start <= end < n && c[k] == #[trigger] pmx_child(a, b, start, end) && (k + 1 < c.len()
            ==> c[k + 1] == pmx_child(b, a, start, end))
}

/// `t` is `s` with two positions below `n` exchanged (possibly the same one).
pub open spec fn is_swap_of(t: Seq<usize>, s: Seq<usize>, n: nat) -> bool {
    exists|i: int, j: int| 0 <= i < n && 0 <= j < n && t == #[trigger] swapped(s, i, j)
}

/// `draw` holds `min(TOURNAMENT_SIZE, size)` distinct individuals below `size`.
pub open spec fn is_tournament_draw(draw: Seq<usize>, size: nat) -> bool {
    &&& draw.len() == if TOURNAMENT_SIZE <= size { TOURNAMENT_SIZE as nat } else { size }
    &&& draw.no_duplicates()
    &&& forall|k: int| 0 <= k < draw.len() ==> #[trigger] draw[k] < size
}

/// `p` wins some tournament among individuals below `size`.
pub open spec fn is_tournament_winner(fitness: Seq<u32>, size: nat, p: usize) -> bool {
    exists|draw: Seq<usize>| is_tournament_draw(draw, size) && #[trigger] wins(fitness, draw, p)
}

/// A memetic algorithm for the permutation flow-shop: a genetic algorithm with
/// tournament selection, partially mapped crossover, swap mutation, swap local
/// search and elitism.
pub struct MemeticAlgorithm {
    instance: FSSPInstance,
    population_size: usize,
    generations: usize,
    /// Chance, in millionths, that an individual is mutated.
    mutation_rate: u32,
    /// Chance, in millionths, that an individual is refined by local search.
    local_search_rate: u32,
    population: Vec<Vec<usize>>,
    fitness: Vec<u32>,
    pub best_sequence: Vec<usize>,
    pub best_makespan: u32,
}

impl MemeticAlgorithm {
    /// The instance being solved.
    pub closed spec fn instance_spec(&self) -> FSSPInstance {
        self.instance
    }

    /// The number of individuals per generation.
    pub closed spec fn population_size_spec(&self) -> usize {
        self.population_size
    }

    /// The largest number of generations of a run.
    pub closed spec fn generations_spec(&self) -> usize {
        self.generations
    }

    /// The current population.
    pub closed spec fn population_spec(&self) -> Seq<Seq<usize>> {
        self.population.deep_view()
    }

    /// The best sequence recorded so far.
    pub closed spec fn best_sequence_spec(&self) -> Seq<usize> {
        self.best_sequence@
    }

    /// Its makespan, or `u32::MAX` while none is recorded.
    pub closed spec fn best_makespan_spec(&self) -> u32 {
        self.best_makespan
    }

    /// Chance, in millionths, that an individual is mutated.
    pub closed spec fn mutation_rate_spec(&self) -> u32 {
        self.mutation_rate
    }

    /// Chance, in millionths, that an individual is refined by local search.
    pub closed spec fn local_search_rate_spec(&self) -> u32 {
        self.local_search_rate
    }

    /// The fitness vector of the current population.
    pub closed spec fn fitness_spec(&self) -> Seq<u32> {
        self.fitness@
    }

    /// The number of jobs.
    pub closed spec fn n(&self) -> nat {
        self.instance.n_jobs as nat
    }

    /// The best solution recorded so far, if any, is a permutation with that makespan.
    pub closed spec fn best_is_recorded(&self) -> bool {
        self.best_makespan < u32::MAX ==> {
            &&& is_permutation(self.best_sequence@, self.n())
            &&& self.instance.makespan_of(self.best_sequence@) == self.best_makespan
        }
    }

    /// The instance is well formed and all of its work fits in 32 bits, the
    /// rates are probabilities, every individual is a permutation of the jobs,
    /// and the best solution recorded is consistent.
    pub closed spec fn wf(&self) -> bool {
        &&& self.instance.wf()
        &&& self.instance.total_time() <= u32::MAX
        &&& self.mutation_rate <= RATE_SCALE
        &&& self.local_search_rate <= RATE_SCALE
        &&& all_permutations(self.population_spec(), self.n())
        &&& self.best_is_recorded()
    }

    /// The fitness vector holds the makespan of each individual.
    pub closed spec fn fitness_current(&self) -> bool {
        as_ints(self.fitness@) == makespans(self.instance, self.population_spec())
    }

    /// Sets up a run; rates are in millionths.
    pub fn new(
        instance: FSSPInstance,
        population_size: usize,
        generations: usize,
        mutation_rate: u32,
        local_search_rate: u32,
    ) -> (r: Self)
        requires
            instance.wf(),
            instance.total_time() <= u32::MAX,
            mutation_rate <= RATE_SCALE,
            local_search_rate <= RATE_SCALE,
        ensures
            r.wf(),
            r.instance_spec() == instance,
            r.population_size_spec() == population_size,
            r.generations_spec() == generations,
            r.mutation_rate_spec() == mutation_rate,
            r.local_search_rate_spec() == local_search_rate,
            r.population_spec().len() == 0,
            r.fitness_spec().len() == 0,
            r.best_sequence_spec().len() == 0,
            r.best_makespan_spec() == u32::MAX,
    {
        MemeticAlgorithm {
            instance,
            population_size,
            generations,
            mutation_rate,
            local_search_rate,
            population: Vec::new(),
            fitness: Vec::new(),
            best_sequence: Vec::new(),
            best_makespan: u32::MAX,
        }
    }

    /// The best sequence recorded so far.
    pub fn best_sequence(&self) -> (r: &Vec<usize>)
        ensures
            r@ == self.best_sequence_spec(),
    {
        &self.best_sequence
    }

    /// The makespan of the best sequence, or `u32::MAX` while none is recorded.
    pub fn best_makespan(&self) -> (r: u32)
        ensures
            r == self.best_makespan_spec(),
    {
        self.best_makespan
    }

    /// Makespan of a permutation of this run's jobs.
    fn makespan(&self, s: &Vec<usize>) -> (r: u32)
        requires
            self.wf(),
            is_permutation(s@, self.n()),
        ensures
            r == self.instance.makespan_of(s@),
    {
        proof {
            lemma_makespan_at_most_total(&self.instance, s@);
        }
        self.instance.calculate_makespan(s.as_slice())
    }

    /// Recomputes the fitness of every individual.
    fn evaluate_fitness(&mut self)
        requires
            old(self).wf(),
        ensures
            final(self).wf(),
            final(self).fitness_current(),
            final(self).instance == old(self).instance,
            final(self).population == old(self).population,
            final(self).population_size == old(self).population_size,
            final(self).generations == old(self).generations,
            final(self).best_makespan == old(self).best_makespan,
            final(self).best_sequence == old(self).best_sequence,
            final(self).mutation_rate == old(self).mutation_rate,
            final(self).local_search_rate == old(self).local_search_rate,
    {
        let mut fitness: Vec<u32> = Vec::new();
        let mut k: usize = 0;
        while k < self.population.len()
            invariant
                self.wf(),
                0 <= k <= self.population@.len(),
                fitness@.len() == k,
                forall|x: int|
                    0 <= x < k ==> #[trigger] fitness@[x] as int == self.instance.makespan_of(
                        self.population_spec()[x],
                    ),
            decreases self.population@.len() - k,
        {
            assert(self.population_spec()[k as int] == self.population[k as int]@);
            let f = self.makespan(&self.population[k]);
            fitness.push(f);
            k = k + 1;
        }
        self.fitness = fitness;
        assert(as_ints(self.fitness@) =~= makespans(self.instance, self.population_spec()));
    }

    /// Swap hill-climbing: tries the exchanges `(i, j)`, `i < j`, in order, keeps
    /// each one that strictly lowers the makespan, and scans again until a whole
    /// scan keeps none.
    pub fn local_search_swap(&self, sequence: &mut Vec<usize>)
        requires
            self.wf(),
            is_permutation(old(sequence)@, self.instance_spec().n_jobs as nat),
        ensures
            is_permutation(final(sequence)@, self.instance_spec().n_jobs as nat),
            self.instance_spec().makespan_of(final(sequence)@) <= self.instance_spec().makespan_of(
                old(sequence)@,
            ),
            is_swap_optimal(self.instance_spec(), final(sequence)@),
            is_swap_optimal(self.instance_spec(), old(sequence)@) ==> final(sequence)@ == old(
                sequence,
            )@,
    {
        let n = self.instance.n_jobs;
        let ghost inst = self.instance;
        let mut current = self.makespan(sequence);
        loop
            invariant
                self.wf(),
                inst == self.instance,
                n == self.n(),
                is_permutation(sequence@, n as nat),
                current == inst.makespan_of(sequence@),
                current <= inst.makespan_of(old(sequence)@),
                is_swap_optimal(inst, old(sequence)@) ==> sequence@ == old(sequence)@,
            ensures
                is_permutation(sequence@, n as nat),
                inst.makespan_of(sequence@) <= inst.makespan_of(old(sequence)@),
                is_swap_optimal(inst, sequence@),
                is_swap_optimal(inst, old(sequence)@) ==> sequence@ == old(sequence)@,
            decreases current,
        {
            let mut improved = false;
            let ghost scan_start = sequence@;
            let ghost scan_value = current;
            let mut i: usize = 0;
            while i < n
                invariant
                    self.wf(),
                    inst == self.instance,
                    n == self.n(),
                    is_permutation(sequence@, n as nat),
                    current == inst.makespan_of(sequence@),
                    current <= scan_value,
                    scan_value <= inst.makespan_of(old(sequence)@),
                    0 <= i <= n,
                    improved ==> current < scan_value,
                    is_swap_optimal(inst, old(sequence)@) ==> !improved && scan_start == old(sequence)@,
                    !improved ==> sequence@ == scan_start && current == scan_value,
                    !improved ==> forall|a: int, b: int|
                        0 <= a < i && a < b < n ==> current <= #[trigger] inst.makespan_of(
                            swapped(sequence@, a, b),
                        ),
                decreases n - i,
            {
                let mut j: usize = i + 1;
                while j < n
                    invariant
                        self.wf(),
                        inst == self.instance,
                        n == self.n(),
                        is_permutation(sequence@, n as nat),
                        current == inst.makespan_of(sequence@),
                        current <= scan_value,
                        scan_value <= inst.makespan_of(old(sequence)@),
                        0 <= i < n,
                        i + 1 <= j <= n,
                        improved ==> current < scan_value,
                        is_swap_optimal(inst, old(sequence)@) ==> !improved && scan_start == old(sequence)@,
                        !improved ==> sequence@ == scan_start && current == scan_value,
                        !improved ==> forall|a: int, b: int|
                            0 <= a < i && a < b < n ==> current <= #[trigger] inst.makespan_of(
                                swapped(sequence@, a, b),
                            ),
                        !improved ==> forall|b: int|
                            i < b < j ==> current <= #[trigger] inst.makespan_of(
                                swapped(sequence@, i as int, b),
                            ),
                    decreases n - j,
                {
                    let ghost before = sequence@;
                    proof {
                        lemma_swap_permutation(before, n as nat, i as int, j as int);
                    }
                    let a = sequence[i];
                    let b = sequence[j];
                    sequence.set(i, b);
                    sequence.set(j, a);
                    assert(sequence@ == swapped(before, i as int, j as int));
                    let candidate = self.makespan(sequence);
                    if candidate < current {
                        current = candidate;
                        improved = true;
                    } else {
                        sequence.set(i, a);
                        sequence.set(j, b);
                        assert(sequence@ =~= before);
                    }
                    j = j + 1;
                }
                i = i + 1;
            }
            if !improved {
                break;
            }
        }
    }

    /// Seeds the population: the jobs by ascending total processing time, then
    /// the same order reversed, then random permutations.
    fn initialize_population(&mut self, rng: &mut StdRng)
        requires
            old(self).wf(),
        ensures
            final(self).wf(),
            final(self).population@.len() == old(self).population_size,
            old(self).population_size > 0 ==> sorted_by_total(
                old(self).instance.times(),
                final(self).population_spec()[0],
            ),
            old(self).population_size > 1 ==> final(self).population_spec()[1]
                == final(self).population_spec()[0].reverse(),
            final(self).instance == old(self).instance,
            final(self).population_size == old(self).population_size,
            final(self).generations == old(self).generations,
            final(self).mutation_rate == old(self).mutation_rate,
            final(self).local_search_rate == old(self).local_search_rate,
            final(self).best_makespan == old(self).best_makespan,
            final(self).best_sequence == old(self).best_sequence,
            final(self).fitness == old(self).fitness,
    {
        let n = self.instance.n_jobs;
        let size = self.population_size;
        let mut population: Vec<Vec<usize>> = Vec::new();
        let ascending = order_by_total(&self.instance);
        if size > 0 {
            population.push(ascending.clone());
        }
        if size > 1 {
            let descending = reversed(&ascending);
            proof {
                lemma_reverse_permutation(ascending@, n as nat);
            }
            population.push(descending);
        }
        while population.len() < size
            invariant
                self.wf(),
                n == self.n(),
                size == self.population_size,
                population@.len() <= size,
                all_permutations(population.deep_view(), n as nat),
                size > 0 ==> population@.len() > 0 && population.deep_view()[0] == ascending@,
                size > 1 ==> population@.len() > 1 && population.deep_view()[1]
                    == ascending@.reverse(),
            decreases size - population@.len(),
        {
            let mut random_solution = identity_permutation(n);
            let ghost before = random_solution@;
            shuffle(rng, &mut random_solution);
            proof {
                lemma_same_multiset_permutation(before, random_solution@, n as nat);
            }
            let ghost prev = population.deep_view();
            population.push(random_solution);
            assert(population.deep_view() =~~= prev.push(random_solution@));
        }
        self.population = population;
    }

    /// Picks one parent per slot: the fittest of up to three distinct
    /// individuals drawn at random.
    fn selection_tournament(&self, rng: &mut StdRng) -> (parents: Vec<usize>)
        requires
            self.wf(),
            self.fitness_current(),
            self.population@.len() == self.population_size,
        ensures
            parents@.len() == self.population_size,
            forall|k: int| 0 <= k < parents@.len() ==> #[trigger] parents@[k] < self.population_size,
            forall|k: int|
                0 <= k < parents@.len() ==> is_tournament_winner(
                    self.fitness@,
                    self.population_size as nat,
                    #[trigger] parents@[k],
                ),
    {
        let size = self.population_size;
        assert(self.fitness@.len() == as_ints(self.fitness@).len());
        let candidates = identity_permutation(size);
        let mut parents: Vec<usize> = Vec::new();
        while parents.len() < size
            invariant
                self.fitness@.len() == size,
                candidates@ == identity_order(size as nat),
                is_permutation(candidates@, size as nat),
                parents@.len() <= size,
                forall|k: int| 0 <= k < parents@.len() ==> #[trigger] parents@[k] < size,
                forall|k: int|
                    0 <= k < parents@.len() ==> is_tournament_winner(
                        self.fitness@,
                        size as nat,
                        #[trigger] parents@[k],
                    ),
            decreases size - parents@.len(),
        {
            let draw = choose_multiple(rng, &candidates, TOURNAMENT_SIZE);
            assert forall|k: int| 0 <= k < draw@.len() implies #[trigger] draw@[k] < size by {
                assert(candidates@.contains(draw@[k]));
            }
            let winner = tournament_winner(&self.fitness, &draw);
            assert(is_tournament_draw(draw@, size as nat) && wins(self.fitness@, draw@, winner));
            let ghost prev = parents@;
            parents.push(winner);
            assert(parents@ == prev.push(winner));
        }
        parents
    }

    /// Pairs consecutive parents (the last one, if alone, with the first) and
    /// makes two partially mapped children per pair, dropping a second child
    /// that would exceed the population size.
    fn crossover(&self, rng: &mut StdRng, parents: &Vec<usize>) -> (children: Vec<Vec<usize>>)
        requires
            self.wf(),
            self.population@.len() == self.population_size,
            parents@.len() == self.population_size,
            forall|k: int| 0 <= k < parents@.len() ==> #[trigger] parents@[k] < self.population_size,
        ensures
            children@.len() == self.population_size,
            all_permutations(children.deep_view(), self.n()),
            forall|k: int|
                0 <= k < children@.len() && k % 2 == 0 ==> #[trigger] is_pmx_pair(
                    children.deep_view(),
                    k,
                    self.population_spec()[parents@[k] as int],
                    self.population_spec()[mate(parents@, k) as int],
                    self.n(),
                ),
    {
        let n = self.instance.n_jobs;
        let size = self.population_size;
        let ghost pop = self.population_spec();
        let ghost mut starts: Seq<int> = Seq::empty();
        let ghost mut ends: Seq<int> = Seq::empty();
        let mut children: Vec<Vec<usize>> = Vec::new();
        while children.len() < size
            invariant
                self.wf(),
                n == self.n(),
                pop == self.population_spec(),
                size == self.population_size,
                self.population@.len() == size,
                parents@.len() == size,
                forall|k: int| 0 <= k < parents@.len() ==> #[trigger] parents@[k] < size,
                children@.len() <= size,
                children@.len() < size ==> children@.len() % 2 == 0,
                all_permutations(children.deep_view(), n as nat),
                starts.len() == children@.len(),
                ends.len() == children@.len(),
                forall|k: int|
                    0 <= k < children@.len() ==> 0 <= #[trigger] starts[k] <= ends[k] < n
                        && children.deep_view()[k] == pmx_child(
                        pop[parents@[k] as int],
                        pop[mate(parents@, k) as int],
                        starts[k],
                        ends[k],
                    ),
                forall|k: int|
                    #![trigger starts[k]]
                    0 <= k && k + 1 < children@.len() && k % 2 == 0 ==> starts[k + 1] == starts[k]
                        && ends[k + 1] == ends[k],
            decreases size - children@.len(),
        {
            let i = children.len();
            let p1_idx = parents[i];
            let p2_idx = if i + 1 < size { parents[i + 1] } else { parents[0] };
            let p1 = &self.population[p1_idx];
            let p2 = &self.population[p2_idx];
            assert(p1@ == pop[p1_idx as int] && p2@ == pop[p2_idx as int]);
            let cut_a = random_below(rng, n);
            let cut_b = random_below(rng, n);
            let (start, end) = if cut_a <= cut_b { (cut_a, cut_b) } else { (cut_b, cut_a) };
            let c1 = pmx(p1, p2, start, end);
            let c2 = pmx(p2, p1, start, end);
            let ghost prev = children.deep_view();
            let ghost old_starts = starts;
            let ghost old_ends = ends;
            children.push(c1);
            assert(children.deep_view() =~~= prev.push(c1@));
            assert(mate(parents@, i as int) == p2_idx);
            proof {
                starts = starts.push(start as int);
                ends = ends.push(end as int);
            }
            if children.len() < size {
                let ghost prev2 = children.deep_view();
                children.push(c2);
                assert(children.deep_view() =~~= prev2.push(c2@));
                assert(mate(parents@, i + 1) == p1_idx);
                proof {
                    starts = starts.push(start as int);
                    ends = ends.push(end as int);
                }
            }
            assert forall|k: int|
                #![trigger starts[k]]
                0 <= k && k + 1 < children@.len() && k % 2 == 0 implies starts[k + 1] == starts[k]
                    && ends[k + 1] == ends[k] by {
                if k + 1 < i {
                    assert(old_starts[k] == starts[k] && old_starts[k + 1] == starts[k + 1]);
                    assert(old_ends[k] == ends[k] && old_ends[k + 1] == ends[k + 1]);
                    assert(old_starts[k + 1] == old_starts[k]);
                } else {
                    assert(k == i);
                }
            }
        }
        assert forall|k: int|
            0 <= k < children@.len() && k % 2 == 0 implies #[trigger] is_pmx_pair(
            children.deep_view(),
            k,
            pop[parents@[k] as int],
            pop[mate(parents@, k) as int],
            n as nat,
        ) by {
            if k + 1 < children@.len() {
                assert(mate(parents@, k) == parents@[k + 1]);
                assert(mate(parents@, k + 1) == parents@[k]);
                assert(starts[k + 1] == starts[k] && ends[k + 1] == ends[k]);
            }
            assert(0 <= starts[k] <= ends[k] < n);
        }
        children
    }

    /// Each individual, with probability `mutation_rate`, has two random
    /// positions exchanged.
    fn mutation(&self, rng: &mut StdRng, population: &mut Vec<Vec<usize>>)
        requires
            self.wf(),
            all_permutations(old(population).deep_view(), self.n()),
        ensures
            final(population)@.len() == old(population)@.len(),
            all_permutations(final(population).deep_view(), self.n()),
            forall|k: int|
                0 <= k < final(population)@.len() ==> is_swap_of(
                    #[trigger] final(population).deep_view()[k],
                    old(population).deep_view()[k],
                    self.n(),
                ),
            self.mutation_rate == 0 ==> final(population).deep_view() == old(population).deep_view(),
    {
        let n = self.instance.n_jobs;
        let ghost start = population.deep_view();
        let mut k: usize = 0;
        while k < population.len()
            invariant
                self.wf(),
                n == self.n(),
                0 <= k <= population@.len(),
                population@.len() == start.len(),
                all_permutations(population.deep_view(), n as nat),
                all_permutations(start, n as nat),
                forall|x: int| k <= x < start.len() ==> #[trigger] population.deep_view()[x] == start[x],
                forall|x: int|
                    0 <= x < k ==> is_swap_of(#[trigger] population.deep_view()[x], start[x], n as nat),
                self.mutation_rate == 0 ==> population.deep_view() == start,
            decreases population@.len() - k,
        {
            let ghost before = population.deep_view();
            assert(population.deep_view()[k as int] == population[k as int]@);
            if random_ratio(rng, self.mutation_rate, RATE_SCALE) {
                let i = random_below(rng, n);
                let j = random_below(rng, n);
                let mut individual = population[k].clone();
                assert(individual@ =~= start[k as int]);
                proof {
                    lemma_swap_permutation(individual@, n as nat, i as int, j as int);
                }
                let a = individual[i];
                let b = individual[j];
                individual.set(i, b);
                individual.set(j, a);
                assert(individual@ == swapped(start[k as int], i as int, j as int));
                population.set(k, individual);
                assert(population.deep_view() =~~= before.update(k as int, individual@));
            } else {
                assert(swapped(start[k as int], 0, 0) =~= start[k as int]);
            }
            k = k + 1;
        }
    }

    /// Each individual, with probability `local_search_rate`, is refined by
    /// swap hill-climbing.
    fn apply_local_search(&self, rng: &mut StdRng, population: &mut Vec<Vec<usize>>)
        requires
            self.wf(),
            all_permutations(old(population).deep_view(), self.n()),
        ensures
            final(population)@.len() == old(population)@.len(),
            all_permutations(final(population).deep_view(), self.n()),
            forall|k: int|
                0 <= k < final(population)@.len() ==> self.instance.makespan_of(
                    #[trigger] final(population).deep_view()[k],
                ) <= self.instance.makespan_of(old(population).deep_view()[k]),
            forall|k: int|
                0 <= k < final(population)@.len() ==> #[trigger] final(population).deep_view()[k]
                    == old(population).deep_view()[k] || is_swap_optimal(
                    self.instance,
                    final(population).deep_view()[k],
                ),
            self.local_search_rate == RATE_SCALE ==> forall|k: int|
                0 <= k < final(population)@.len() ==> is_swap_optimal(
                    self.instance,
                    #[trigger] final(population).deep_view()[k],
                ),
            self.local_search_rate == 0 ==> final(population).deep_view() == old(
                population,
            ).deep_view(),
    {
        let ghost start = population.deep_view();
        let mut k: usize = 0;
        while k < population.len()
            invariant
                self.wf(),
                0 <= k <= population@.len(),
                population@.len() == start.len(),
                all_permutations(population.deep_view(), self.n()),
                all_permutations(start, self.n()),
                forall|x: int| k <= x < start.len() ==> #[trigger] population.deep_view()[x] == start[x],
                forall|x: int|
                    0 <= x < k ==> self.instance.makespan_of(#[trigger] population.deep_view()[x])
                        <= self.instance.makespan_of(start[x]),
                forall|x: int|
                    0 <= x < k ==> #[trigger] population.deep_view()[x] == start[x]
                        || is_swap_optimal(self.instance, population.deep_view()[x]),
                self.local_search_rate == RATE_SCALE ==> forall|x: int|
                    0 <= x < k ==> is_swap_optimal(
                        self.instance,
                        #[trigger] population.deep_view()[x],
                    ),
                self.local_search_rate == 0 ==> population.deep_view() == start,
            decreases population@.len() - k,
        {
            let ghost before = population.deep_view();
            assert(population.deep_view()[k as int] == population[k as int]@);
            if random_ratio(rng, self.local_search_rate, RATE_SCALE) {
                let mut individual = population[k].clone();
                assert(individual@ =~= start[k as int]);
                self.local_search_swap(&mut individual);
                population.set(k, individual);
                assert(population.deep_view() =~~= before.update(k as int, individual@));
            }
            k = k + 1;
        }
    }

    /// One generation: evaluate, record the best, select, cross over, mutate,
    /// refine, keep the elite and replace the population.
    fn run_generation(&mut self, rng: &mut StdRng)
        requires
            old(self).wf(),
            old(self).population@.len() == old(self).population_size,
            old(self).population_size > 0,
        ensures
            final(self).wf(),
            final(self).population@.len() == old(self).population_size,
            final(self).instance == old(self).instance,
            final(self).population_size == old(self).population_size,
            final(self).generations == old(self).generations,
            final(self).mutation_rate == old(self).mutation_rate,
            final(self).local_search_rate == old(self).local_search_rate,
            final(self).best_makespan <= old(self).best_makespan,
            final(self).best_sequence@ != old(self).best_sequence@ ==> final(self).best_makespan
                < old(self).best_makespan,
            forall|k: int|
                0 <= k < old(self).population@.len() ==> final(self).best_makespan
                    <= #[trigger] old(self).instance.makespan_of(old(self).population_spec()[k]),
            exists|k: int, best: int|
                is_first_min(makespans(old(self).instance, old(self).population_spec()), best)
                    && 0 <= k < final(self).population@.len()
                    && final(self).population_spec()[k] == old(self).population_spec()[best],
    {
        self.evaluate_fitness();
        assert(as_ints(self.fitness@).len() == self.fitness@.len());
        assert(self.population_spec().len() == self.population@.len());
        let best = first_min_index(&self.fitness);
        assert(as_ints(self.fitness@)[best as int] == self.fitness@[best as int]);
        if self.fitness[best] < self.best_makespan {
            self.best_makespan = self.fitness[best];
            self.best_sequence = self.population[best].clone();
            assert(self.best_sequence@ =~= self.population_spec()[best as int]);
        }
        assert forall|k: int| 0 <= k < self.population@.len() implies self.best_makespan
            <= #[trigger] self.instance.makespan_of(self.population_spec()[k]) by {
            assert(as_ints(self.fitness@)[k] == makespans(self.instance, self.population_spec())[k]);
        }
        let parents = self.selection_tournament(rng);
        let mut next = self.crossover(rng, &parents);
        self.mutation(rng, &mut next);
        self.apply_local_search(rng, &mut next);
        let ghost before = next.deep_view();
        self.elitism(&mut next);
        let ghost chosen = choose|b: int, w: int|
            is_first_min(makespans(self.instance, self.population_spec()), b)
                && is_first_max(makespans(self.instance, before), w)
                && next.deep_view() == before.update(w, self.population_spec()[b]);
        assert(next.deep_view()[chosen.1] == self.population_spec()[chosen.0]);
        let ghost current = self.population_spec();
        self.population = next;
        assert(is_first_min(makespans(self.instance, current), chosen.0) && 0 <= chosen.1
            < self.population@.len() && self.population_spec()[chosen.1] == current[chosen.0]);
    }

    /// The population is seeded: it holds `population_size` permutations.
    pub closed spec fn is_seeded(&self) -> bool {
        &&& self.wf()
        &&& self.population@.len() == self.population_size
    }

    /// The decision at a generation boundary, from the clock reading
    /// `elapsed_nanos` and the budget `limit_nanos`: stop, leaving everything
    /// as it is, when the population is empty, `generation` generations have
    /// run, or the budget is exceeded; otherwise run one generation.
    pub fn step(
        &mut self,
        rng: &mut StdRng,
        generation: usize,
        elapsed_nanos: u128,
        limit_nanos: Option<u128>,
    ) -> (stop: bool)
        requires
            old(self).is_seeded(),
        ensures
            stop == (old(self).population_size_spec() == 0 || generation
                >= old(self).generations_spec() || (limit_nanos matches Some(l) && elapsed_nanos
                > l)),
            stop ==> *final(self) == *old(self),
            final(self).is_seeded(),
            final(self).instance_spec() == old(self).instance_spec(),
            final(self).population_size_spec() == old(self).population_size_spec(),
            final(self).generations_spec() == old(self).generations_spec(),
            final(self).mutation_rate_spec() == old(self).mutation_rate_spec(),
            final(self).local_search_rate_spec() == old(self).local_search_rate_spec(),
            final(self).best_makespan_spec() <= old(self).best_makespan_spec(),
            final(self).best_sequence_spec() != old(self).best_sequence_spec()
                ==> final(self).best_makespan_spec() < old(self).best_makespan_spec(),
            final(self).best_makespan_spec() < u32::MAX ==> {
                &&& is_permutation(
                    final(self).best_sequence_spec(),
                    final(self).instance_spec().n_jobs as nat,
                )
                &&& final(self).instance_spec().makespan_of(final(self).best_sequence_spec())
                    == final(self).best_makespan_spec()
            },
            !stop ==> forall|k: int|
                0 <= k < old(self).population_spec().len() ==> final(self).best_makespan_spec()
                    <= #[trigger] old(self).instance_spec().makespan_of(
                    old(self).population_spec()[k],
                ),
            !stop ==> exists|k: int, best: int|
                is_first_min(makespans(old(self).instance_spec(), old(self).population_spec()), best)
                    && 0 <= k < final(self).population_spec().len()
                    && final(self).population_spec()[k] == old(self).population_spec()[best],
    {
        let over_budget = match limit_nanos {
            Some(limit) => elapsed_nanos > limit,
            None => false,
        };
        if self.population_size == 0 || generation >= self.generations || over_budget {
            return true;
        }
        self.run_generation(rng);
        false
    }

    /// Seeds the population, then runs generations until `generations` have run
    /// or, at the start of a generation, more than `max_duration_nanos`
    /// nanoseconds have passed since `start_time`. The best solution ever seen
    /// is kept in `best_sequence` and `best_makespan`.
    pub fn run(&mut self, rng: &mut StdRng, start_time: Instant, max_duration_nanos: Option<u128>)
        requires
            old(self).wf(),
        ensures
            final(self).is_seeded(),
            final(self).instance_spec() == old(self).instance_spec(),
            final(self).best_makespan_spec() <= old(self).best_makespan_spec(),
            final(self).best_sequence_spec() != old(self).best_sequence_spec()
                ==> final(self).best_makespan_spec() < old(self).best_makespan_spec(),
            final(self).best_makespan_spec() < u32::MAX ==> {
                &&& is_permutation(
                    final(self).best_sequence_spec(),
                    final(self).instance_spec().n_jobs as nat,
                )
                &&& final(self).instance_spec().makespan_of(final(self).best_sequence_spec())
                    == final(self).best_makespan_spec()
            },
            old(self).population_size_spec() == 0 || old(self).generations_spec() == 0 ==> {
                &&& final(self).best_makespan_spec() == old(self).best_makespan_spec()
                &&& final(self).best_sequence_spec() == old(self).best_sequence_spec()
            },
            old(self).population_size_spec() > 0 && old(self).generations_spec() > 0
                && max_duration_nanos is None ==> exists|seed: Seq<usize>|
                {
                    &&& is_permutation(seed, old(self).instance_spec().n_jobs as nat)
                    &&& sorted_by_total(old(self).instance_spec().times(), seed)
                    &&& final(self).best_makespan_spec() <= old(self).instance_spec().makespan_of(
                        seed,
                    )
                    &&& old(self).population_size_spec() > 1 ==> final(self).best_makespan_spec()
                        <= old(self).instance_spec().makespan_of(seed.reverse())
                },
    {
        self.initialize_population(rng);
        let ghost first_best = self.best_makespan;
        let ghost first_sequence = self.best_sequence@;
        let ghost seeds = self.population_spec();
        let mut generation: usize = 0;
        loop
            invariant
                self.population_size > 0 ==> seeds.len() > 0 && is_permutation(seeds[0], self.n())
                    && sorted_by_total(self.instance.times(), seeds[0]),
                self.population_size > 1 ==> seeds.len() > 1 && seeds[1] == seeds[0].reverse(),
                generation == 0 ==> self.population_spec() == seeds,
                generation > 0 && self.population_size > 0 ==> self.best_makespan
                    <= self.instance.makespan_of(seeds[0]),
                generation > 0 && self.population_size > 1 ==> self.best_makespan
                    <= self.instance.makespan_of(seeds[1]),
                self.is_seeded(),
                self.best_makespan <= first_best,
                self.best_sequence@ != first_sequence ==> self.best_makespan < first_best,
                generation <= self.generations,
                self.population_size == 0 || generation == 0 ==> self.best_makespan == first_best
                    && self.best_sequence@ == first_sequence,
                self.instance == old(self).instance,
                self.population_size == old(self).population_size,
                self.generations == old(self).generations,
                first_best == old(self).best_makespan,
                first_sequence == old(self).best_sequence@,
            ensures
                self.is_seeded(),
                self.best_makespan <= first_best,
                self.best_sequence@ != first_sequence ==> self.best_makespan < first_best,
                self.population_size == 0 || generation == 0 ==> self.best_makespan == first_best
                    && self.best_sequence@ == first_sequence,
                self.instance == old(self).instance,
                self.population_size == old(self).population_size,
                self.generations == old(self).generations,
                generation > 0 && self.population_size > 0 ==> self.best_makespan
                    <= self.instance.makespan_of(seeds[0]),
                generation > 0 && self.population_size > 1 ==> self.best_makespan
                    <= self.instance.makespan_of(seeds[1]),
                self.population_size > 0 ==> seeds.len() > 0 && is_permutation(seeds[0], self.n())
                    && sorted_by_total(self.instance.times(), seeds[0]),
                self.population_size > 1 ==> seeds.len() > 1 && seeds[1] == seeds[0].reverse(),
                max_duration_nanos is None && self.population_size > 0 ==> generation
                    >= self.generations,
            decreases self.generations - generation,
        {
            let elapsed = match max_duration_nanos {
                Some(_) => nanos_since(&start_time),
                None => 0,
            };
            let ghost before = self.population_spec();
            let ghost best_before = self.best_makespan;
            let ghost sequence_before = self.best_sequence@;
            if self.step(rng, generation, elapsed, max_duration_nanos) {
                break;
            }
            proof {
                if generation == 0 {
                    assert(self.best_makespan <= self.instance.makespan_of(before[0]));
                    if self.population_size > 1 {
                        assert(self.best_makespan <= self.instance.makespan_of(before[1]));
                    }
                }
                assert(self.best_makespan <= best_before);
                if self.best_sequence@ != first_sequence {
                    if self.best_sequence@ == sequence_before {
                        assert(best_before < first_best);
                    }
                }
            }
            generation = generation + 1;
        }
        proof {
            if self.population_size > 0 && self.generations > 0 && max_duration_nanos is None {
                let seed = seeds[0];
                assert(generation > 0);
                assert({
                    &&& is_permutation(seed, old(self).instance_spec().n_jobs as nat)
                    &&& sorted_by_total(old(self).instance_spec().times(), seed)
                    &&& self.best_makespan_spec() <= old(self).instance_spec().makespan_of(seed)
                    &&& old(self).population_size_spec() > 1 ==> self.best_makespan_spec()
                        <= old(self).instance_spec().makespan_of(seed.reverse())
                });
            }
        }
    }

    /// Replaces the first individual of `next` with the greatest makespan by a
    /// copy of the first individual of the current population with the least.
    fn elitism(&self, next: &mut Vec<Vec<usize>>)
        requires
            self.wf(),
            self.fitness_current(),
            self.population@.len() > 0,
            old(next)@.len() > 0,
            all_permutations(old(next).deep_view(), self.n()),
        ensures
            exists|best: int, worst: int|
                is_first_min(makespans(self.instance, self.population_spec()), best)
                    && is_first_max(makespans(self.instance, old(next).deep_view()), worst)
                    && final(next).deep_view() == old(next).deep_view().update(
                    worst,
                    self.population_spec()[best],
                ),
            all_permutations(final(next).deep_view(), self.n()),
            final(next)@.len() == old(next)@.len(),
    {
        assert(as_ints(self.fitness@).len() == self.fitness@.len());
        assert(self.population_spec().len() == self.population@.len());
        let best = first_min_index(&self.fitness);
        let elite = self.population[best].clone();
        assert(elite@ =~= self.population_spec()[best as int]);
        let mut next_fitness: Vec<u32> = Vec::new();
        let mut k: usize = 0;
        while k < next.len()
            invariant
                self.wf(),
                all_permutations(next.deep_view(), self.n()),
                0 <= k <= next@.len(),
                next_fitness@.len() == k,
                forall|x: int|
                    0 <= x < k ==> #[trigger] next_fitness@[x] as int == self.instance.makespan_of(
                        next.deep_view()[x],
                    ),
            decreases next@.len() - k,
        {
            assert(next.deep_view()[k as int] == next[k as int]@);
            let f = self.makespan(&next[k]);
            next_fitness.push(f);
            k = k + 1;
        }
        let worst = first_max_index(&next_fitness);
        assert(as_ints(next_fitness@) =~= makespans(self.instance, next.deep_view()));
        let ghost before = next.deep_view();
        next.set(worst, elite);
        assert(next.deep_view() =~= before.update(worst as int, self.population_spec()[best as int]));
    }
}

} // verus!
