use rand::rngs::StdRng;
use rand::SeedableRng;

use seating::plan::{make_swap, random_plan, random_swap};
use std::collections::VecDeque;

use seating::search::{
    best_in_history, clone_plan, hill_climb_step, lahc_accepts, shift_ema, Acceptance, Termination,
    SCALE,
};
use seating::{GuestRelations, HillClimbingPlanner, LahcPlanner, Plan, Problem, SeatingPlanner, Swap};

fn check_partition(plan: &Plan, n_guests: usize, n_tables: usize) {
    assert_eq!(plan.len(), n_tables);
    for table in plan {
        assert_eq!(table.len(), n_guests / n_tables);
    }
    let mut guest_appearances = vec![0; n_guests];
    for table in plan {
        for guest in table {
            guest_appearances[*guest] += 1;
        }
    }
    for n in guest_appearances {
        assert_eq!(n, 1);
    }
}

#[test]
fn hill_climb_plan_random_init() {
    let n_tables = 12;
    let table_size = 5;
    let n_guests = n_tables * table_size;
    let plan = random_plan(&mut StdRng::from_entropy(), n_guests, n_tables);

    // Correct number of tables.
    assert_eq!(plan.len(), n_tables);

    // Correct number of guests at each table.
    for table in &plan {
        assert_eq!(table.len(), table_size);
    }

    // Check that each guest appears exactly once.
    let mut guest_appearances = vec![0; n_guests];
    for table in &plan {
        for guest in table {
            guest_appearances[*guest] += 1;
        }
    }
    for n in guest_appearances {
        assert_eq!(n, 1);
    }
}

#[test]
fn lahc_plan_random_init() {
    let n_tables = 12;
    let table_size = 5;
    let n_guests = n_tables * table_size;
    let plan = random_plan(&mut StdRng::seed_from_u64(7), n_guests, n_tables);

    assert_eq!(plan.len(), n_tables);
    for table in &plan {
        assert_eq!(table.len(), table_size);
    }
    let mut guest_appearances = vec![0; n_guests];
    for table in &plan {
        for guest in table {
            guest_appearances[*guest] += 1;
        }
    }
    for n in guest_appearances {
        assert_eq!(n, 1);
    }
}

#[test]
fn random_plan_with_no_guests() {
    let plan = random_plan(&mut StdRng::seed_from_u64(1), 0, 3);
    assert_eq!(plan, vec![Vec::<usize>::new(), Vec::new(), Vec::new()]);
}

#[test]
fn random_plan_single_table() {
    let plan = random_plan(&mut StdRng::seed_from_u64(2), 6, 1);
    check_partition(&plan, 6, 1);
}

#[test]
fn swap_twice_restores_plan() {
    let start: Plan = vec![vec![0, 1, 2], vec![3, 4, 5]];
    let mut plan = start.clone();
    let swap = Swap { table1: 0, seat1: 2, table2: 1, seat2: 0 };
    make_swap(&mut plan, swap);
    assert_eq!(plan, vec![vec![0, 1, 3], vec![2, 4, 5]]);
    make_swap(&mut plan, swap);
    assert_eq!(plan, start);
}

#[test]
fn swap_within_a_table_and_same_seat() {
    let mut plan: Plan = vec![vec![0, 1, 2], vec![3, 4, 5]];
    make_swap(&mut plan, Swap { table1: 1, seat1: 0, table2: 1, seat2: 2 });
    assert_eq!(plan, vec![vec![0, 1, 2], vec![5, 4, 3]]);
    make_swap(&mut plan, Swap { table1: 0, seat1: 1, table2: 0, seat2: 1 });
    assert_eq!(plan, vec![vec![0, 1, 2], vec![5, 4, 3]]);
}

#[test]
fn random_swap_stays_in_range() {
    let mut rng = StdRng::seed_from_u64(3);
    for _ in 0..100 {
        let s = random_swap(&mut rng, 3, 4);
        assert!(s.table1 < 3 && s.table2 < 3 && s.seat1 < 4 && s.seat2 < 4);
    }
}

#[test]
fn clone_plan_copies() {
    let plan: Plan = vec![vec![2, 0], vec![1, 3]];
    assert_eq!(clone_plan(&plan), plan);
}

#[test]
fn ema_moves_toward_outcome() {
    assert_eq!(shift_ema(SCALE, 10000, false), 990000);
    assert_eq!(shift_ema(0, 10000, true), 10000);
    assert_eq!(shift_ema(500000, 10000, true), 505000);
    assert_eq!(shift_ema(500000, 0, true), 500000);
    assert_eq!(shift_ema(123, SCALE, false), 0);
}

#[test]
fn stall_termination_validates_rates() {
    assert_eq!(
        Termination::stall(10000, 20000),
        Some(Termination::Stall { smoothing: 10000, threshold: 20000 })
    );
    assert_eq!(Termination::stall(SCALE + 1, 20000), None);
    assert_eq!(Termination::stall(10000, SCALE + 1), None);
    assert_eq!(Termination::default_stall(), Termination::Stall { smoothing: 10000, threshold: 20000 });
}

#[test]
fn termination_decisions() {
    let stall = Termination::default_stall();
    assert!(stall.keep_going(20000, 5));
    assert!(!stall.keep_going(19999, 5));
    assert_eq!(stall.next_ema(SCALE, false), 990000);
    let fixed = Termination::Iterations(3);
    assert!(fixed.keep_going(0, 2));
    assert!(!fixed.keep_going(SCALE, 3));
    assert_eq!(fixed.next_ema(700, true), 700);
}

#[test]
fn acceptance_policies() {
    assert!(Acceptance::Happiness.keeps(0, 4, 0, 5));
    assert!(!Acceptance::Happiness.keeps(0, 4, 0, 4));
    assert!(!Acceptance::Happiness.keeps(3, 4, 0, 3));
    assert!(Acceptance::LonelinessThenHappiness.keeps(3, 4, 2, -10));
    assert!(Acceptance::LonelinessThenHappiness.keeps(2, 4, 2, 6));
    assert!(!Acceptance::LonelinessThenHappiness.keeps(2, 4, 3, 100));
    assert!(!Acceptance::LonelinessThenHappiness.keeps(2, 4, 2, 4));
}

#[test]
fn late_acceptance_compares_both_ends() {
    assert!(lahc_accepts(5, 4, 10));
    assert!(lahc_accepts(5, 10, 4));
    assert!(!lahc_accepts(5, 5, 5));
    assert!(!lahc_accepts(5, 6, 7));
}

fn pairs_problem() -> Problem {
    Problem {
        relations: GuestRelations::new(vec![
            vec![0, 1, 0, 0],
            vec![1, 0, 0, 0],
            vec![0, 0, 0, 1],
            vec![0, 0, 1, 0],
        ]),
        n_tables: 2,
    }
}

#[test]
fn hill_climbing_finds_the_pairs() {
    let problem = pairs_problem();
    let mut planner = HillClimbingPlanner::new(StdRng::seed_from_u64(11), Termination::Iterations(500));
    let mut plan = planner.plan(&problem);
    check_partition(&plan, 4, 2);
    for table in &mut plan {
        table.sort_unstable();
    }
    plan.sort();
    assert_eq!(plan, vec![vec![0, 1], vec![2, 3]]);
}

#[test]
fn hill_climbing_by_loneliness_stalls_and_returns_a_partition() {
    let problem = pairs_problem();
    let mut planner = HillClimbingPlanner::new(StdRng::seed_from_u64(12), Termination::default_stall())
        .with_acceptance(Acceptance::LonelinessThenHappiness);
    let plan = planner.plan(&problem);
    check_partition(&plan, 4, 2);
}

#[test]
fn lahc_returns_a_partition() {
    let problem = pairs_problem();
    let mut planner = LahcPlanner::new(StdRng::seed_from_u64(13), Termination::default_stall())
        .with_queue_size(20);
    let plan = planner.plan(&problem);
    check_partition(&plan, 4, 2);
}

#[test]
fn lahc_with_default_history() {
    let problem = pairs_problem();
    let mut planner = LahcPlanner::new(StdRng::seed_from_u64(14), Termination::Iterations(50));
    let plan = planner.plan(&problem);
    check_partition(&plan, 4, 2);
}

#[test]
fn hill_climb_step_keeps_an_improvement() {
    let problem = pairs_problem();
    let mut plan: Plan = vec![vec![0, 2], vec![1, 3]];
    let swap = Swap { table1: 0, seat1: 1, table2: 1, seat2: 0 };
    assert!(hill_climb_step(&mut plan, &problem.relations, swap, Acceptance::Happiness));
    assert_eq!(plan, vec![vec![0, 1], vec![2, 3]]);
}

#[test]
fn hill_climb_step_undoes_a_worsening() {
    let problem = pairs_problem();
    let mut plan: Plan = vec![vec![0, 1], vec![2, 3]];
    let swap = Swap { table1: 0, seat1: 1, table2: 1, seat2: 0 };
    assert!(!hill_climb_step(&mut plan, &problem.relations, swap, Acceptance::Happiness));
    assert_eq!(plan, vec![vec![0, 1], vec![2, 3]]);
    let same = Swap { table1: 1, seat1: 0, table2: 1, seat2: 1 };
    assert!(!hill_climb_step(&mut plan, &problem.relations, same, Acceptance::LonelinessThenHappiness));
    assert_eq!(plan, vec![vec![0, 1], vec![2, 3]]);
}

#[test]
fn best_in_history_picks_the_happiest() {
    let problem = pairs_problem();
    let mut queue: VecDeque<Plan> = VecDeque::new();
    queue.push_back(vec![vec![0, 2], vec![1, 3]]);
    queue.push_back(vec![vec![0, 3], vec![1, 2]]);
    queue.push_back(vec![vec![1, 0], vec![3, 2]]);
    queue.push_back(vec![vec![0, 1], vec![2, 3]]);
    assert_eq!(best_in_history(&queue, &problem.relations), 2);
    queue.truncate(2);
    assert_eq!(best_in_history(&queue, &problem.relations), 0);
}
