use seating::harness::{is_plan_of, judge_trial, score_output, score_plan, TrialError};
use seating::metrics::{lonely_guests, total_happiness, Metrics};
use seating::{GuestRelations, Plan, Problem};

fn pairs() -> GuestRelations {
    GuestRelations::new(vec![
        vec![0, 1, 0, 0],
        vec![1, 0, 0, 0],
        vec![0, 0, 0, 1],
        vec![0, 0, 1, 0],
    ])
}

fn pairs_problem() -> Problem {
    Problem { relations: pairs(), n_tables: 2 }
}

#[test]
fn pairs_seated_together() {
    let rel = pairs();
    let plan: Plan = vec![vec![0, 1], vec![2, 3]];
    assert_eq!(total_happiness(&plan, &rel), 4);
    assert_eq!(lonely_guests(&plan, &rel), 0);
    let m = Metrics::new(&plan, &rel);
    assert_eq!(m.total_happiness(), 4);
    assert_eq!(m.n_lonely(), 0);
    assert_eq!(m.happinesses(), vec![1, 1, 1, 1]);
}

#[test]
fn pairs_seated_apart() {
    let rel = pairs();
    let plan: Plan = vec![vec![0, 2], vec![1, 3]];
    assert_eq!(total_happiness(&plan, &rel), 0);
    assert_eq!(lonely_guests(&plan, &rel), 4);
    let m = Metrics::new(&plan, &rel);
    assert_eq!(m.total_happiness(), 0);
    assert_eq!(m.n_lonely(), 4);
}

fn mixed() -> GuestRelations {
    GuestRelations::new(vec![
        vec![0, 3, -2, 5, 0, 1],
        vec![3, 0, 4, -1, 2, 0],
        vec![-2, 4, 0, 0, -3, 7],
        vec![5, -1, 0, 0, 6, -4],
        vec![0, 2, -3, 6, 0, 1],
        vec![1, 0, 7, -4, 1, 0],
    ])
}

#[test]
fn total_counts_each_pair_twice() {
    let rel = mixed();
    let plan: Plan = vec![vec![0, 1, 2], vec![3, 4, 5]];
    // Pairs at the first table: 3 - 2 + 4 = 5; at the second: 6 - 4 + 1 = 3.
    assert_eq!(total_happiness(&plan, &rel), 2 * (5 + 3));
    let m = Metrics::new(&plan, &rel);
    assert_eq!(m.total_happiness(), 16);
    assert_eq!(m.happinesses(), vec![1, 7, 2, 2, 7, -3]);
    assert_eq!(m.max_happiness(), 7);
    assert_eq!(m.min_happiness(), -3);
    // Everyone has at least one friend at their table.
    assert_eq!(m.n_lonely(), 0);
    assert_eq!(lonely_guests(&plan, &rel), 0);
    // Guest 2 likes nobody at the second table.
    let other: Plan = vec![vec![0, 1, 5], vec![2, 3, 4]];
    assert_eq!(lonely_guests(&other, &rel), 1);
    assert_eq!(Metrics::new(&other, &rel).n_lonely(), 1);
}

#[test]
fn nobody_likes_anybody() {
    let rel = GuestRelations::new(vec![
        vec![0, -1, 0, -5],
        vec![-1, 0, -2, 0],
        vec![0, -2, 0, -3],
        vec![-5, 0, -3, 0],
    ]);
    for plan in [vec![vec![0, 1], vec![2, 3]], vec![vec![0, 3], vec![1, 2]], vec![vec![3, 2, 1, 0]]] {
        assert_eq!(lonely_guests(&plan, &rel), 4);
        assert!(total_happiness(&plan, &rel) <= 0);
        let m = Metrics::new(&plan, &rel);
        assert_eq!(m.n_lonely(), 4);
        assert!(m.total_happiness() <= 0);
    }
    assert_eq!(total_happiness(&vec![vec![0, 3], vec![1, 2]], &rel), -14);
}

#[test]
fn lonely_alone_at_a_table() {
    let rel = pairs();
    let plan: Plan = vec![vec![0], vec![1], vec![2], vec![3]];
    assert_eq!(lonely_guests(&plan, &rel), 4);
    assert_eq!(total_happiness(&plan, &rel), 0);
    assert_eq!(Metrics::new(&plan, &rel).n_lonely(), 4);
}

#[test]
fn relations_accessors() {
    let rel = mixed();
    assert_eq!(rel.len(), 6);
    assert_eq!(rel.relationship(2, 5), 7);
    assert_eq!(rel.relationship(5, 3), -4);
    let rows = rel.iter();
    assert_eq!(rows.len(), 6);
    assert_eq!(rows[1], vec![3, 0, 4, -1, 2, 0]);
    let unchecked = GuestRelations::new_unchecked(vec![vec![0, 2], vec![2, 0]]);
    assert_eq!(unchecked.relationship(0, 1), 2);
}

#[test]
fn try_new_checks_the_matrix() {
    assert!(GuestRelations::try_new(vec![vec![0, 1], vec![1, 0]]).is_some());
    assert!(GuestRelations::try_new(vec![]).is_some());
    assert!(GuestRelations::try_new(vec![vec![0, 1], vec![2, 0]]).is_none());
    assert!(GuestRelations::try_new(vec![vec![1, 1], vec![1, 0]]).is_none());
    assert!(GuestRelations::try_new(vec![vec![0, 1], vec![1]]).is_none());
    assert!(GuestRelations::try_new(vec![vec![0, 5000000], vec![5000000, 0]]).is_none());
    assert_eq!(
        GuestRelations::try_new(vec![vec![0, -3], vec![-3, 0]]),
        Some(GuestRelations::new(vec![vec![0, -3], vec![-3, 0]]))
    );
}

#[test]
fn plan_shape_is_checked() {
    let problem = pairs_problem();
    assert!(is_plan_of(&problem, &vec![vec![3, 1], vec![0, 2]]));
    assert!(!is_plan_of(&problem, &vec![vec![0, 1, 2, 3]]));
    assert!(!is_plan_of(&problem, &vec![vec![0, 1], vec![2]]));
    assert!(!is_plan_of(&problem, &vec![vec![0, 1], vec![1, 3]]));
    assert!(!is_plan_of(&problem, &vec![vec![0, 1], vec![2, 4]]));
}

#[test]
fn score_of_a_plan() {
    let problem = pairs_problem();
    let score = score_plan(&problem, &vec![vec![0, 1], vec![2, 3]]);
    assert_eq!(score.n_people, 4);
    assert_eq!(score.n_tables, 2);
    assert_eq!(score.total_happiness, 4);
    assert_eq!(score.n_lonely, 0);
    assert_eq!(score.min_happiness, 1);
    assert_eq!(score.max_happiness, 1);
    assert_eq!(score.happinesses, vec![1, 1, 1, 1]);
}

#[test]
fn silent_solver_is_scored() {
    let problem = pairs_problem();
    let out = serde_json::to_vec(&vec![vec![0usize, 2], vec![1usize, 3]]).unwrap();
    let score = score_output(&problem, b"", &out).unwrap();
    assert_eq!(score.total_happiness, 0);
    assert_eq!(score.n_lonely, 4);
    let score = score_output(&problem, &[], b"[[1,0],[3,2]]").unwrap();
    assert_eq!(score.total_happiness, 4);
    assert_eq!(score.n_lonely, 0);
}

#[test]
fn one_byte_of_stderr_fails_the_trial() {
    let problem = pairs_problem();
    assert_eq!(score_output(&problem, b"x", b"[[0,1],[2,3]]").unwrap_err(), TrialError::SolverFailed);
    assert_eq!(score_output(&problem, b"\n", b"not json").unwrap_err(), TrialError::SolverFailed);
    assert_eq!(
        judge_trial(&problem, b"e", Some(vec![vec![0, 1], vec![2, 3]])).unwrap_err(),
        TrialError::SolverFailed
    );
}

#[test]
fn malformed_output_fails_the_trial() {
    let problem = pairs_problem();
    assert_eq!(score_output(&problem, b"", b"not json").unwrap_err(), TrialError::MalformedPlan);
    assert_eq!(score_output(&problem, b"", b"{\"a\":1}").unwrap_err(), TrialError::MalformedPlan);
    assert_eq!(score_output(&problem, b"", b"[[0,1],[2,2]]").unwrap_err(), TrialError::MalformedPlan);
    assert_eq!(judge_trial(&problem, b"", None).unwrap_err(), TrialError::MalformedPlan);
}

#[test]
fn plan_survives_json_round_trip() {
    let problem = pairs_problem();
    let plan: Plan = vec![vec![2, 0], vec![3, 1]];
    let bytes = serde_json::to_vec(&plan).unwrap();
    let decoded: Plan = serde_json::from_slice(&bytes).unwrap();
    assert_eq!(decoded, plan);
    let direct = score_plan(&problem, &plan);
    let through_json = score_output(&problem, b"", &bytes).unwrap();
    assert_eq!(through_json.happinesses, direct.happinesses);
    assert_eq!(through_json.total_happiness, direct.total_happiness);
}
