use vstd::prelude::*;

use crate::metrics::{
    lemma_neighbour_row, lonely_guests, lonely_in_plan, plan_happiness, seat_happiness, seats_all,
    total_happiness, Metrics,
};
use crate::plan::{is_partition, is_seat, plan_view, Plan};
use crate::relations::Problem;

verus! {

/// The seating plan that a JSON text of a list of lists of indices denotes,
/// if it is one.
pub uninterp spec fn plan_from_json(bytes: Seq<u8>) -> Option<Seq<Seq<usize>>>;

/// Relies on `serde_json::from_slice` into `Vec<Vec<usize>>`: the result is
/// determined by the bytes.
#[verifier::external_body]
fn parse_plan(bytes: &[u8]) -> (r: Option<Plan>)
    ensures
        r.is_some() == plan_from_json(bytes@).is_some(),
        r.is_some() ==> plan_view(&r.unwrap()) == plan_from_json(bytes@).unwrap(),
{
    serde_json::from_slice::<Plan>(bytes).ok()
}

/// Why a trial produced no score.
#[derive(Debug, Clone, Copy, PartialEq, Eq, Hash)]
pub enum TrialError {
    /// The solver wrote to its error stream.
    SolverFailed,
    /// The solver's output is not a plan of the problem's guests into its
    /// tables.
    MalformedPlan,
}

/// Quality figures of one solved problem.
#[derive(Debug, Clone)]
pub struct Score {
    pub n_people: usize,
    pub n_tables: usize,
    pub total_happiness: i64,
    pub min_happiness: i64,
    pub max_happiness: i64,
    pub n_lonely: usize,
    /// The happiness of each guest, by guest index.
    pub happinesses: Vec<i64>,
}

/// `score` holds the figures of plan `p` for the problem: totals over the
/// plan, each guest's happiness, and their extremes (zero for nobody).
pub open spec fn is_score_of(problem: Problem, p: Seq<Seq<usize>>, score: Score) -> bool {
    let rel = problem.relations@;
    let h = score.happinesses@;
    &&& score.n_people == rel.len()
    &&& score.n_tables == problem.n_tables
    &&& score.total_happiness == plan_happiness(rel, p, p.len() as int)
    &&& score.n_lonely == lonely_in_plan(rel, p, p.len() as int)
    &&& h.len() == rel.len()
    &&& forall|t: int, s: int|
        is_seat(p, t, s) ==> h[#[trigger] p[t][s] as int] == seat_happiness(rel, p[t], s, p[t].len() as int)
    &&& rel.len() == 0 ==> score.min_happiness == 0 && score.max_happiness == 0
    &&& rel.len() > 0 ==> (exists|g: int| 0 <= g < h.len() && score.min_happiness == #[trigger] h[g])
    &&& rel.len() > 0 ==> (exists|g: int| 0 <= g < h.len() && score.max_happiness == #[trigger] h[g])
    &&& forall|g: int| 0 <= g < h.len() ==> score.min_happiness <= #[trigger] h[g] <= score.max_happiness
}

/// Whether a plan seats the problem's guests at its tables, each exactly once,
/// with the same number at every table.
pub fn is_plan_of(problem: &Problem, plan: &Plan) -> (r: bool)
    requires
        problem.wf(),
    ensures
        r == is_partition(plan_view(plan), problem.relations@.len(), problem.n_tables as nat),
{
    let ghost p = plan_view(plan);
    let n = problem.relations.len();
    let k = problem.n_tables;
    let ghost nn = n as nat;
    let size = n / k;
    assert(p.len() == plan@.len());
    if plan.len() != k {
        return false;
    }
    let mut t: usize = 0;
    while t < k
        invariant
            p == plan_view(plan),
            plan@.len() == k,
            p.len() == k,
            size == nn / (k as nat),
            nn == problem.relations@.len(),
                n == nn,
            k == problem.n_tables,
            t <= k,
            forall|u: int| 0 <= u < t ==> #[trigger] p[u].len() == size,
        decreases k - t,
    {
        assert(p[t as int] == plan@[t as int]@);
        if plan[t].len() != size {
            assert(p[t as int].len() != size);
            return false;
        }
        t = t + 1;
    }
    // Whether each guest has been found at a seat so far.
    let mut seen: Vec<bool> = Vec::new();
    let mut g: usize = 0;
    while g < n
        invariant
            g <= n,
            seen@.len() == g,
            forall|x: int| 0 <= x < g ==> !#[trigger] seen@[x],
        decreases n - g,
    {
        seen.push(false);
        g = g + 1;
    }
    let mut t: usize = 0;
    while t < k
        invariant
            p == plan_view(plan),
            plan@.len() == k,
            p.len() == k,
            size == nn / (k as nat),
            nn == problem.relations@.len(),
                n == nn,
            k == problem.n_tables,
            t <= k,
            n == nn,
            seen@.len() == n,
            forall|u: int| 0 <= u < k ==> #[trigger] p[u].len() == size,
            forall|u: int, s: int| 0 <= u < t && is_seat(p, u, s) ==> #[trigger] p[u][s] < n,
            forall|u1: int, s1: int, u2: int, s2: int|
                0 <= u1 < t && 0 <= u2 < t && is_seat(p, u1, s1) && is_seat(p, u2, s2)
                    && #[trigger] p[u1][s1] == #[trigger] p[u2][s2] ==> u1 == u2 && s1 == s2,
            forall|x: int| 0 <= x < n ==> (#[trigger] seen@[x] <==> exists|u: int, s: int|
                0 <= u < t && is_seat(p, u, s) && #[trigger] p[u][s] == x),
        decreases k - t,
    {
        let table = &plan[t];
        assert(table@ == p[t as int]);
        let mut s: usize = 0;
        while s < table.len()
            invariant
                p == plan_view(plan),
                plan@.len() == k,
                p.len() == k,
                size == nn / (k as nat),
                nn == problem.relations@.len(),
                n == nn,
                k == problem.n_tables,
                t < k,
                table@ == p[t as int],
                s <= table@.len(),
                seen@.len() == n,
                forall|u: int| 0 <= u < k ==> #[trigger] p[u].len() == size,
                forall|u: int, v: int|
                    is_seat(p, u, v) && (u < t || (u == t && v < s)) ==> #[trigger] p[u][v] < n,
                forall|u1: int, s1: int, u2: int, s2: int|
                    is_seat(p, u1, s1) && is_seat(p, u2, s2) && (u1 < t || (u1 == t && s1 < s)) && (u2
                        < t || (u2 == t && s2 < s)) && #[trigger] p[u1][s1] == #[trigger] p[u2][s2]
                        ==> u1 == u2 && s1 == s2,
                forall|x: int| 0 <= x < n ==> (#[trigger] seen@[x] <==> exists|u: int, v: int|
                    is_seat(p, u, v) && (u < t || (u == t && v < s)) && #[trigger] p[u][v] == x),
            decreases table@.len() - s,
        {
            let guest = table[s];
            assert(p[t as int][s as int] == guest);
            if guest >= n {
                proof {
                    if is_partition(p, nn, k as nat) {
                        assert(crate::plan::is_assignment(p, nn));
                        assert(is_seat(p, t as int, s as int));
                        assert(p[t as int][s as int] < nn);
                    }
                }
                return false;
            }
            if seen[guest] {
                let ghost (u, v) = choose|u: int, v: int|
                    is_seat(p, u, v) && (u < t || (u == t && v < s)) && #[trigger] p[u][v] == guest;
                assert(is_seat(p, t as int, s as int));
                assert(p[u][v] == p[t as int][s as int]);
                assert(!(u == t && v == s));
                proof {
                    if is_partition(p, nn, k as nat) {
                        assert(is_seat(p, u, v) && is_seat(p, t as int, s as int) && p[u][v] == p[t as int][s as int]);
                        assert(u == t && v == s);
                    }
                }
                return false;
            }
            let ghost before = seen@;
            seen.set(guest, true);
            assert forall|x: int| 0 <= x < n implies (#[trigger] seen@[x] <==> exists|u: int, v: int|
                is_seat(p, u, v) && (u < t || (u == t && v < s + 1)) && #[trigger] p[u][v] == x) by {
                if x == guest {
                    assert(is_seat(p, t as int, s as int));
                } else {
                    assert(seen@[x] == before[x]);
                    if exists|u: int, v: int|
                        is_seat(p, u, v) && (u < t || (u == t && v < s + 1)) && #[trigger] p[u][v] == x {
                        let (u, v) = choose|u: int, v: int|
                            is_seat(p, u, v) && (u < t || (u == t && v < s + 1)) && #[trigger] p[u][v] == x;
                        assert(!(u == t && v == s));
                    }
                }
            }
            s = s + 1;
        }
        t = t + 1;
    }
    let mut g: usize = 0;
    while g < n
        invariant
            g <= n,
            seen@.len() == n,
            p == plan_view(plan),
            p.len() == k,
            n == nn,
            nn == problem.relations@.len(),
            k == problem.n_tables,
            forall|x: int| 0 <= x < g ==> #[trigger] seen@[x],
            forall|x: int| 0 <= x < n ==> (#[trigger] seen@[x] <==> exists|u: int, s: int|
                0 <= u < k && is_seat(p, u, s) && #[trigger] p[u][s] == x),
        decreases n - g,
    {
        if !seen[g] {
            proof {
                if crate::plan::is_seated(p, g as int) {
                    let (u, v) = choose|u: int, v: int| is_seat(p, u, v) && #[trigger] p[u][v] == g as int;
                    assert(0 <= u < k);
                    assert(seen@[g as int]);
                }
            }
            assert(!crate::plan::is_seated(p, g as int));
            proof {
                if is_partition(p, nn, k as nat) {
                    assert(crate::plan::is_assignment(p, nn));
                    assert(crate::plan::is_seated(p, g as int));
                }
            }
            return false;
        }
        g = g + 1;
    }
    assert forall|x: int| 0 <= x < n implies #[trigger] crate::plan::is_seated(p, x) by {
        assert(seen@[x]);
    }
    proof {
        vstd::arithmetic::div_mod::lemma_fundamental_div_mod(n as int, k as int);
    }
    true
}

/// The figures of a plan that seats the problem's guests.
pub fn score_plan(problem: &Problem, plan: &Plan) -> (r: Score)
    requires
        problem.wf(),
        is_partition(plan_view(plan), problem.relations@.len(), problem.n_tables as nat),
    ensures
        is_score_of(*problem, plan_view(plan), r),
{
    let relationships = &problem.relations;
    let ghost rel = relationships@;
    let ghost p = plan_view(plan);
    assert(seats_all(rel, p));
    let metrics = Metrics::new(plan, relationships);
    let happinesses = metrics.happinesses();
    let total = total_happiness(plan, relationships);
    let n_lonely = lonely_guests(plan, relationships);
    let n = relationships.len();
    let (min_happiness, max_happiness) = if n == 0 {
        (0, 0)
    } else {
        (metrics.min_happiness(), metrics.max_happiness())
    };
    let ghost h = happinesses@;
    assert forall|t: int, s: int| is_seat(p, t, s) implies h[#[trigger] p[t][s] as int] == seat_happiness(
        rel,
        p[t],
        s,
        p[t].len() as int,
    ) by {
        let table = p[t];
        assert forall|x: int| 0 <= x < table.len() implies #[trigger] table[x] < rel.len() by {
            assert(is_seat(p, t, x));
        }
        lemma_neighbour_row(rel, table, s, table.len() as int);
        assert(p[t][s] < rel.len());
    }
    assert forall|g: int| 0 <= g < h.len() implies min_happiness <= #[trigger] h[g] <= max_happiness by {
        assert(h[g] == crate::metrics::seq_sum(metrics@[g]));
    }
    let score = Score {
        n_people: n,
        n_tables: problem.n_tables,
        total_happiness: total,
        min_happiness,
        max_happiness,
        n_lonely,
        happinesses,
    };
    assert(score.happinesses@ == h);
    if n > 0 {
        let ghost g1 = choose|g: int| 0 <= g < metrics@.len() && min_happiness == crate::metrics::seq_sum(#[trigger] metrics@[g]);
        let ghost g2 = choose|g: int| 0 <= g < metrics@.len() && max_happiness == crate::metrics::seq_sum(#[trigger] metrics@[g]);
        assert(score.min_happiness == h[g1]);
        assert(score.max_happiness == h[g2]);
    }
    score
}

/// Judges one trial from what the solver wrote to its error stream and the
/// plan read from its output, if any. Any byte on the error stream fails the
/// trial before its output is looked at.
pub fn judge_trial(problem: &Problem, stderr: &[u8], plan: Option<Plan>) -> (r: Result<Score, TrialError>)
    requires
        problem.wf(),
    ensures
        stderr@.len() > 0 ==> r == Err::<Score, TrialError>(TrialError::SolverFailed),
        stderr@.len() == 0 && (plan.is_none() || !is_partition(
            plan_view(&plan.unwrap()),
            problem.relations@.len(),
            problem.n_tables as nat,
        )) ==> r == Err::<Score, TrialError>(TrialError::MalformedPlan),
        stderr@.len() == 0 && plan.is_some() && is_partition(
            plan_view(&plan.unwrap()),
            problem.relations@.len(),
            problem.n_tables as nat,
        ) ==> r.is_ok() && is_score_of(*problem, plan_view(&plan.unwrap()), r.unwrap()),
{
    if stderr.len() > 0 {
        return Err(TrialError::SolverFailed);
    }
    match plan {
        None => Err(TrialError::MalformedPlan),
        Some(plan) => {
            if is_plan_of(problem, &plan) {
                Ok(score_plan(problem, &plan))
            } else {
                Err(TrialError::MalformedPlan)
            }
        },
    }
}

/// Judges one trial from the bytes the solver wrote to its error stream and
/// to its output, which should hold a plan as JSON.
pub fn score_output(problem: &Problem, stderr: &[u8], stdout: &[u8]) -> (r: Result<Score, TrialError>)
    requires
        problem.wf(),
    ensures
        stderr@.len() > 0 ==> r == Err::<Score, TrialError>(TrialError::SolverFailed),
        stderr@.len() == 0 && (plan_from_json(stdout@).is_none() || !is_partition(
            plan_from_json(stdout@).unwrap(),
            problem.relations@.len(),
            problem.n_tables as nat,
        )) ==> r == Err::<Score, TrialError>(TrialError::MalformedPlan),
        stderr@.len() == 0 && plan_from_json(stdout@).is_some() && is_partition(
            plan_from_json(stdout@).unwrap(),
            problem.relations@.len(),
            problem.n_tables as nat,
        ) ==> r.is_ok() && is_score_of(*problem, plan_from_json(stdout@).unwrap(), r.unwrap()),
{
    if stderr.len() > 0 {
        return Err(TrialError::SolverFailed);
    }
    let plan = parse_plan(stdout);
    judge_trial(problem, stderr, plan)
}

} // verus!
