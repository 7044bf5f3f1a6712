use fssp_solver_rs::crossover::pmx;
use fssp_solver_rs::instance::{FSSPInstance, InstanceError};
use fssp_solver_rs::perm::identity_permutation;
use fssp_solver_rs::seeding::{job_totals, order_by_total, reversed};
use fssp_solver_rs::select::{first_max_index, first_min_index, tournament_winner};
use fssp_solver_rs::solver::{MemeticAlgorithm, RATE_SCALE};
use rand::rngs::StdRng;
use rand::SeedableRng;
use std::time::Instant;

fn two_by_two() -> FSSPInstance {
    FSSPInstance::new(2, 2, vec![vec![3, 2], vec![1, 4]]).unwrap()
}

fn five_by_three() -> FSSPInstance {
    FSSPInstance::new(
        5,
        3,
        vec![
            vec![5, 9, 8],
            vec![9, 3, 10],
            vec![9, 4, 5],
            vec![4, 8, 8],
            vec![3, 5, 6],
        ],
    )
    .unwrap()
}

fn is_permutation(s: &[usize], n: usize) -> bool {
    let mut seen = vec![false; n];
    if s.len() != n {
        return false;
    }
    for &g in s {
        if g >= n || seen[g] {
            return false;
        }
        seen[g] = true;
    }
    true
}

fn extend_orders(inst: &FSSPInstance, prefix: &mut Vec<usize>, used: &mut Vec<bool>, best: &mut u32) {
    if prefix.len() == inst.n_jobs {
        *best = (*best).min(inst.calculate_makespan(prefix));
        return;
    }
    for j in 0..inst.n_jobs {
        if !used[j] {
            used[j] = true;
            prefix.push(j);
            extend_orders(inst, prefix, used, best);
            prefix.pop();
            used[j] = false;
        }
    }
}

fn brute_force_best(inst: &FSSPInstance) -> u32 {
    let mut best = u32::MAX;
    extend_orders(inst, &mut Vec::new(), &mut vec![false; inst.n_jobs], &mut best);
    best
}

#[test]
fn worked_example_makespans() {
    let inst = two_by_two();
    assert_eq!(inst.calculate_makespan(&[0, 1]), 9);
    assert_eq!(inst.calculate_makespan(&[1, 0]), 7);
}

#[test]
fn worked_example_run_converges() {
    let mut rng = StdRng::seed_from_u64(11);
    let mut solver = MemeticAlgorithm::new(two_by_two(), 4, 20, 300_000, 600_000);
    solver.run(&mut rng, Instant::now(), None);
    assert_eq!(solver.best_makespan, 7);
    assert_eq!(solver.best_sequence, vec![1, 0]);
}

#[test]
fn worked_example_run_with_two_individuals() {
    let mut rng = StdRng::seed_from_u64(5);
    let mut solver = MemeticAlgorithm::new(two_by_two(), 2, 10, 0, 0);
    solver.run(&mut rng, Instant::now(), None);
    assert_eq!(solver.best_makespan, 7);
    assert_eq!(solver.best_sequence, vec![1, 0]);
}

#[test]
fn single_job_makespan_is_row_sum() {
    let inst = FSSPInstance::new(1, 4, vec![vec![2, 7, 1, 5]]).unwrap();
    assert_eq!(inst.calculate_makespan(&[0]), 15);
}

#[test]
fn makespan_is_repeatable() {
    let inst = five_by_three();
    let s = [4, 0, 3, 2, 1];
    let a = inst.calculate_makespan(&s);
    let b = inst.clone().calculate_makespan(&s.to_vec());
    assert_eq!(a, b);
}

#[test]
fn makespan_of_five_jobs() {
    let inst = five_by_three();
    // machine 0: 5, 14, 23, 27, 30
    // machine 1: 14, 17, 27, 35, 40
    // machine 2: 22, 32, 37, 45, 51
    assert_eq!(inst.calculate_makespan(&[0, 1, 2, 3, 4]), 51);
}

#[test]
fn single_machine_makespan_is_total() {
    let inst = FSSPInstance::new(3, 1, vec![vec![4], vec![0], vec![6]]).unwrap();
    assert_eq!(inst.calculate_makespan(&[2, 1, 0]), 10);
}

#[test]
fn pmx_keeps_segment_and_fills_in_order() {
    let p1 = vec![0, 1, 2, 3, 4];
    let p2 = vec![4, 3, 2, 1, 0];
    assert_eq!(pmx(&p1, &p2, 1, 2), vec![4, 1, 2, 3, 0]);
    assert_eq!(pmx(&p2, &p1, 1, 2), vec![0, 3, 2, 1, 4]);
    assert_eq!(pmx(&p1, &p2, 0, 4), p1);
    assert_eq!(pmx(&p1, &p2, 2, 2), vec![4, 3, 2, 1, 0]);
}

#[test]
fn pmx_children_are_permutations_for_all_cuts() {
    let p1 = vec![2, 0, 4, 1, 3, 5];
    let p2 = vec![5, 3, 1, 0, 2, 4];
    for start in 0..6 {
        for end in start..6 {
            let c1 = pmx(&p1, &p2, start, end);
            let c2 = pmx(&p2, &p1, start, end);
            assert!(is_permutation(&c1, 6));
            assert!(is_permutation(&c2, 6));
            assert_eq!(&c1[start..=end], &p1[start..=end]);
            assert_eq!(&c2[start..=end], &p2[start..=end]);
        }
    }
}

#[test]
fn local_search_never_worsens_and_reaches_swap_optimum() {
    let inst = five_by_three();
    let solver = MemeticAlgorithm::new(inst.clone(), 1, 1, 0, 0);
    let mut s = vec![1, 3, 0, 2, 4];
    let before = inst.calculate_makespan(&s);
    solver.local_search_swap(&mut s);
    let after = inst.calculate_makespan(&s);
    assert!(after <= before);
    assert!(is_permutation(&s, 5));
    for i in 0..5 {
        for j in (i + 1)..5 {
            let mut t = s.clone();
            t.swap(i, j);
            assert!(inst.calculate_makespan(&t) >= after);
        }
    }
}

#[test]
fn local_search_improves_worked_example() {
    let solver = MemeticAlgorithm::new(two_by_two(), 1, 1, 0, 0);
    let mut s = vec![0, 1];
    solver.local_search_swap(&mut s);
    assert_eq!(s, vec![1, 0]);
}

#[test]
fn run_best_is_consistent_and_near_optimal() {
    let inst = five_by_three();
    let optimum = brute_force_best(&inst);
    let mut rng = StdRng::seed_from_u64(42);
    let mut solver = MemeticAlgorithm::new(inst.clone(), 10, 30, 300_000, 600_000);
    solver.run(&mut rng, Instant::now(), None);
    assert!(is_permutation(&solver.best_sequence, 5));
    assert_eq!(inst.calculate_makespan(&solver.best_sequence), solver.best_makespan);
    assert!(solver.best_makespan >= optimum);
}

#[test]
fn full_local_search_finds_swap_optimum_best() {
    let inst = five_by_three();
    let mut rng = StdRng::seed_from_u64(3);
    let mut solver = MemeticAlgorithm::new(inst.clone(), 6, 5, RATE_SCALE, RATE_SCALE);
    solver.run(&mut rng, Instant::now(), None);
    assert_eq!(inst.calculate_makespan(&solver.best_sequence), solver.best_makespan);
}

#[test]
fn best_makespan_never_increases_across_runs() {
    let inst = five_by_three();
    let mut rng = StdRng::seed_from_u64(9);
    let mut solver = MemeticAlgorithm::new(inst, 8, 1, 500_000, 200_000);
    let mut last = u32::MAX;
    for _ in 0..5 {
        solver.run(&mut rng, Instant::now(), None);
        assert!(solver.best_makespan <= last);
        last = solver.best_makespan;
    }
}

#[test]
fn empty_population_keeps_sentinel() {
    let mut rng = StdRng::seed_from_u64(1);
    let mut solver = MemeticAlgorithm::new(two_by_two(), 0, 50, 300_000, 600_000);
    solver.run(&mut rng, Instant::now(), None);
    assert_eq!(solver.best_makespan, u32::MAX);
    assert!(solver.best_sequence.is_empty());
}

#[test]
fn single_individual_population_runs() {
    let mut rng = StdRng::seed_from_u64(2);
    let mut solver = MemeticAlgorithm::new(two_by_two(), 1, 5, 300_000, 600_000);
    solver.run(&mut rng, Instant::now(), None);
    assert!(solver.best_makespan == 7 || solver.best_makespan == 9);
    assert_eq!(two_by_two().calculate_makespan(&solver.best_sequence), solver.best_makespan);
}

#[test]
fn zero_generations_keep_sentinel() {
    let mut rng = StdRng::seed_from_u64(4);
    let mut solver = MemeticAlgorithm::new(two_by_two(), 4, 0, 300_000, 600_000);
    solver.run(&mut rng, Instant::now(), None);
    assert_eq!(solver.best_makespan, u32::MAX);
}

#[test]
fn zero_duration_stops_at_first_boundary() {
    let mut rng = StdRng::seed_from_u64(6);
    let mut solver = MemeticAlgorithm::new(five_by_three(), 10, 1000, 300_000, 600_000);
    solver.run(&mut rng, Instant::now(), Some(0));
    assert_eq!(solver.best_makespan, u32::MAX);
    assert!(solver.best_sequence.is_empty());
}

#[test]
fn generous_duration_runs_generations() {
    let mut rng = StdRng::seed_from_u64(8);
    let mut solver = MemeticAlgorithm::new(two_by_two(), 4, 3, 300_000, 600_000);
    solver.run(&mut rng, Instant::now(), Some(3_600_000_000_000));
    assert_eq!(solver.best_makespan, 7);
}

#[test]
fn instance_rejects_zero_header() {
    assert_eq!(FSSPInstance::new(0, 2, vec![]).unwrap_err(), InstanceError::BadHeader);
    assert_eq!(FSSPInstance::new(2, 0, vec![vec![], vec![]]).unwrap_err(), InstanceError::BadHeader);
}

#[test]
fn instance_rejects_wrong_column_count() {
    let r = FSSPInstance::new(2, 2, vec![vec![1, 2], vec![3]]);
    assert_eq!(r.unwrap_err(), InstanceError::ColumnCount);
}

#[test]
fn instance_rejects_wrong_row_count() {
    let r = FSSPInstance::new(3, 2, vec![vec![1, 2], vec![3, 4]]);
    assert_eq!(r.unwrap_err(), InstanceError::RowCount);
}

#[test]
fn instance_rejects_too_much_work() {
    let r = FSSPInstance::new(2, 1, vec![vec![u32::MAX], vec![1]]);
    assert_eq!(r.unwrap_err(), InstanceError::TooLarge);
    let ok = FSSPInstance::new(2, 1, vec![vec![u32::MAX - 1], vec![1]]).unwrap();
    assert!(ok.total_fits());
}

#[test]
fn job_totals_and_order() {
    let inst = five_by_three();
    assert_eq!(job_totals(&inst), vec![22, 22, 18, 20, 14]);
    let asc = order_by_total(&inst);
    assert_eq!(asc, vec![4, 2, 3, 0, 1]);
    assert_eq!(reversed(&asc), vec![1, 0, 3, 2, 4]);
}

#[test]
fn order_by_total_breaks_ties_by_index() {
    assert_eq!(order_by_total(&two_by_two()), vec![0, 1]);
}

#[test]
fn identity_lists_indices() {
    assert_eq!(identity_permutation(4), vec![0, 1, 2, 3]);
    assert!(identity_permutation(0).is_empty());
}

#[test]
fn first_min_and_max_take_first_occurrence() {
    let v = vec![5, 2, 9, 2, 9, 7];
    assert_eq!(first_min_index(&v), 1);
    assert_eq!(first_max_index(&v), 2);
    assert_eq!(first_max_index(&vec![0, 0, 0]), 0);
}

#[test]
fn tournament_winner_is_first_fittest_draw() {
    let fitness = vec![10, 4, 7, 4, 12];
    assert_eq!(tournament_winner(&fitness, &vec![0, 3, 1]), 3);
    assert_eq!(tournament_winner(&fitness, &vec![4, 2, 0]), 2);
    assert_eq!(tournament_winner(&fitness, &vec![4]), 4);
}

#[test]
fn first_generation_records_best_seed() {
    let inst = five_by_three();
    let asc = order_by_total(&inst);
    let desc = reversed(&asc);
    let expected = inst.calculate_makespan(&asc).min(inst.calculate_makespan(&desc));
    let mut rng = StdRng::seed_from_u64(12);
    let mut solver = MemeticAlgorithm::new(inst.clone(), 2, 1, 0, 0);
    solver.run(&mut rng, Instant::now(), None);
    assert_eq!(solver.best_makespan, expected);
}

#[test]
fn step_with_zero_budget_stops_and_keeps_state() {
    let mut rng = StdRng::seed_from_u64(21);
    let mut solver = MemeticAlgorithm::new(five_by_three(), 6, 10, 300_000, 600_000);
    solver.run(&mut rng, Instant::now(), Some(0));
    assert_eq!(solver.best_makespan(), u32::MAX);
    assert!(solver.step(&mut rng, 0, 1, Some(0)));
    assert_eq!(solver.best_makespan(), u32::MAX);
    assert!(solver.best_sequence().is_empty());
}

#[test]
fn step_runs_a_generation_within_budget() {
    let mut rng = StdRng::seed_from_u64(22);
    let mut solver = MemeticAlgorithm::new(two_by_two(), 2, 5, 0, 0);
    solver.run(&mut rng, Instant::now(), Some(0));
    assert!(!solver.step(&mut rng, 0, 10, Some(10)));
    assert_eq!(solver.best_makespan(), 7);
    assert_eq!(solver.best_sequence(), &vec![1, 0]);
    assert!(solver.step(&mut rng, 5, 0, None));
    assert!(solver.step(&mut rng, 1, 11, Some(10)));
}

#[test]
fn step_stops_on_empty_population() {
    let mut rng = StdRng::seed_from_u64(23);
    let mut solver = MemeticAlgorithm::new(two_by_two(), 0, 5, 0, 0);
    solver.run(&mut rng, Instant::now(), None);
    assert!(solver.step(&mut rng, 0, 0, None));
    assert_eq!(solver.best_makespan(), u32::MAX);
}
