use vstd::prelude::*;

use std::collections::VecDeque;

use crate::metrics::{lonely_guests, lonely_in_plan, plan_happiness, seats_all, total_happiness};
use crate::plan::{
    is_partition, lemma_swap_keeps_partition, lemma_swap_twice, make_swap, plan_view, random_plan,
    random_swap, swap_fits, swapped, Plan, Swap,
};
use crate::relations::{GuestRelations, Problem};

verus! {

/// Rates and thresholds of the stall detector are fixed-point numbers in
/// millionths: `SCALE` stands for 1.
pub const SCALE: u64 = 1000000;

/// When a search stops.
#[derive(Debug, Clone, Copy, PartialEq, Eq, Hash)]
pub enum Termination {
    /// Stop once the moving average of the acceptance rate falls below
    /// `threshold`; `smoothing` is the weight of each new outcome.
    /// Both are in millionths.
    Stall { smoothing: u64, threshold: u64 },
    /// Stop after a fixed number of proposals.
    Iterations(u64),
}

impl Termination {
    pub open spec fn wf(&self) -> bool {
        match *self {
            Termination::Stall { smoothing, threshold } => smoothing <= SCALE && threshold <= SCALE,
            Termination::Iterations(_) => true,
        }
    }

    /// A stall detector, if both rates lie between zero and one.
    pub fn stall(smoothing: u64, threshold: u64) -> (r: Option<Termination>)
        ensures
            r.is_some() <==> smoothing <= SCALE && threshold <= SCALE,
            r.is_some() ==> r == Some(Termination::Stall { smoothing, threshold }),
    {
        if smoothing <= SCALE && threshold <= SCALE {
            Some(Termination::Stall { smoothing, threshold })
        } else {
            None
        }
    }

    /// Smoothing of one hundredth and a threshold of two hundredths.
    pub fn default_stall() -> (r: Termination)
        ensures
            r == (Termination::Stall { smoothing: 10000, threshold: 20000 }),
    {
        Termination::Stall { smoothing: 10000, threshold: 20000 }
    }

    /// Whether the search goes on after `steps` proposals with the given
    /// moving average of acceptances.
    pub fn keep_going(&self, ema: u64, steps: u64) -> (r: bool)
        ensures
            r == match *self {
                Termination::Stall { threshold, .. } => ema >= threshold,
                Termination::Iterations(n) => steps < n,
            },
    {
        match *self {
            Termination::Stall { threshold, .. } => ema >= threshold,
            Termination::Iterations(n) => steps < n,
        }
    }

    /// The moving average after one more outcome.
    pub fn next_ema(&self, ema: u64, accepted: bool) -> (r: u64)
        requires
            self.wf(),
            ema <= SCALE,
        ensures
            r <= SCALE,
            r == match *self {
                Termination::Stall { smoothing, .. } => ema_after(ema as int, smoothing as int, accepted),
                Termination::Iterations(_) => ema as int,
            },
    {
        match *self {
            Termination::Stall { smoothing, .. } => shift_ema(ema, smoothing, accepted),
            Termination::Iterations(_) => ema,
        }
    }
}

/// `smoothing * outcome + (1 - smoothing) * ema` in millionths, rounded down,
/// where an acceptance counts as one and a rejection as zero.
pub open spec fn ema_after(ema: int, smoothing: int, accepted: bool) -> int {
    (smoothing * (if accepted { SCALE as int } else { 0 }) + (SCALE - smoothing) * ema) / (SCALE as int)
}

/// The exponential moving average after one more outcome.
pub fn shift_ema(ema: u64, smoothing: u64, accepted: bool) -> (r: u64)
    requires
        ema <= SCALE,
        smoothing <= SCALE,
    ensures
        r == ema_after(ema as int, smoothing as int, accepted),
        r <= SCALE,
{
    let outcome: u64 = if accepted { SCALE } else { 0 };
    proof {
        assert(smoothing * outcome <= SCALE * SCALE) by (nonlinear_arith)
            requires smoothing <= SCALE, outcome <= SCALE;
        assert((SCALE - smoothing) * ema <= (SCALE - smoothing) * SCALE) by (nonlinear_arith)
            requires ema <= SCALE, smoothing <= SCALE;
        assert(smoothing * outcome + (SCALE - smoothing) * ema <= SCALE * SCALE) by (nonlinear_arith)
            requires smoothing * outcome <= smoothing * SCALE, (SCALE - smoothing) * ema <= (SCALE - smoothing) * SCALE, smoothing <= SCALE;
        assert(smoothing * outcome <= smoothing * SCALE) by (nonlinear_arith)
            requires outcome <= SCALE;
    }
    let total = smoothing * outcome + (SCALE - smoothing) * ema;
    proof {
        vstd::arithmetic::div_mod::lemma_div_is_ordered(total as int, (SCALE * SCALE) as int, SCALE as int);
        vstd::arithmetic::div_mod::lemma_div_by_multiple(SCALE as int, SCALE as int);
    }
    total / SCALE
}

/// How a hill-climbing step judges a change.
#[derive(Debug, Clone, Copy, PartialEq, Eq, Hash)]
pub enum Acceptance {
    /// Keep a change that raises the total happiness.
    Happiness,
    /// Keep a change that leaves fewer guests lonely, or as many and raises
    /// the total happiness.
    LonelinessThenHappiness,
}

/// The change from `(lonely_before, total_before)` to
/// `(lonely_after, total_after)` is an improvement under the policy.
pub open spec fn improves(
    policy: Acceptance,
    lonely_before: int,
    total_before: int,
    lonely_after: int,
    total_after: int,
) -> bool {
    match policy {
        Acceptance::Happiness => total_after > total_before,
        Acceptance::LonelinessThenHappiness => lonely_after < lonely_before || (lonely_after
            == lonely_before && total_after > total_before),
    }
}

impl Acceptance {
    /// Whether a hill-climbing step keeps a change.
    pub fn keeps(
        &self,
        lonely_before: usize,
        total_before: i64,
        lonely_after: usize,
        total_after: i64,
    ) -> (r: bool)
        ensures
            r == improves(
                *self,
                lonely_before as int,
                total_before as int,
                lonely_after as int,
                total_after as int,
            ),
    {
        match *self {
            Acceptance::Happiness => total_after > total_before,
            Acceptance::LonelinessThenHappiness => lonely_after < lonely_before || (lonely_after
                == lonely_before && total_after > total_before),
        }
    }
}

/// Late acceptance keeps a candidate that beats the oldest or the newest
/// plan of its history.
pub fn lahc_accepts(candidate: i64, oldest: i64, newest: i64) -> (r: bool)
    ensures
        r == (candidate > oldest || candidate > newest),
{
    candidate > oldest || candidate > newest
}

/// A search procedure that seats the guests of a problem.
pub trait SeatingPlanner {
    /// The planner's settings are usable.
    spec fn ready(&self) -> bool;

    fn plan(&mut self, problem: &Problem) -> (r: Plan)
        requires
            old(self).ready(),
            problem.wf(),
        ensures
            final(self).ready(),
            is_partition(plan_view(&r), problem.relations@.len(), problem.n_tables as nat),
    ;
}

/// A copy of a plan.
pub fn clone_plan(plan: &Plan) -> (r: Plan)
    ensures
        plan_view(&r) == plan_view(plan),
{
    let mut out: Plan = Vec::new();
    let mut t: usize = 0;
    while t < plan.len()
        invariant
            t <= plan@.len(),
            out@.len() == t,
            forall|u: int| 0 <= u < t ==> #[trigger] out@[u]@ == plan@[u]@,
        decreases plan@.len() - t,
    {
        let table = &plan[t];
        let mut copy: Vec<usize> = Vec::new();
        let mut s: usize = 0;
        while s < table.len()
            invariant
                s <= table@.len(),
                copy@ == table@.subrange(0, s as int),
            decreases table@.len() - s,
        {
            copy.push(table[s]);
            s = s + 1;
        }
        assert(copy@ =~= table@);
        out.push(copy);
        t = t + 1;
    }
    assert(plan_view(&out) =~= plan_view(plan));
    out
}

/// One hill-climbing step: applies the swap and keeps it if it improves the
/// plan under the policy, else undoes it with the same swap.
pub fn hill_climb_step(plan: &mut Plan, relationships: &GuestRelations, swap: Swap, policy: Acceptance) -> (kept: bool)
    requires
        relationships.wf(),
        seats_all(relationships@, plan_view(old(plan))),
        swap_fits(plan_view(old(plan)), swap),
    ensures
        kept == improves(
            policy,
            lonely_in_plan(relationships@, plan_view(old(plan)), old(plan)@.len() as int),
            plan_happiness(relationships@, plan_view(old(plan)), old(plan)@.len() as int),
            lonely_in_plan(relationships@, swapped(plan_view(old(plan)), swap), old(plan)@.len() as int),
            plan_happiness(relationships@, swapped(plan_view(old(plan)), swap), old(plan)@.len() as int),
        ),
        kept ==> plan_view(final(plan)) == swapped(plan_view(old(plan)), swap),
        !kept ==> plan_view(final(plan)) == plan_view(old(plan)),
        seats_all(relationships@, plan_view(final(plan))),
{
    let ghost before = plan_view(plan);
    let ghost n = relationships@.len();
    let ghost k = before.len();
    proof {
        lemma_swap_keeps_partition(before, swap, n, k);
    }
    let total_before = total_happiness(plan, relationships);
    let lonely_before = match policy {
        Acceptance::Happiness => 0,
        Acceptance::LonelinessThenHappiness => lonely_guests(plan, relationships),
    };
    make_swap(plan, swap);
    let total_after = total_happiness(plan, relationships);
    let lonely_after = match policy {
        Acceptance::Happiness => 0,
        Acceptance::LonelinessThenHappiness => lonely_guests(plan, relationships),
    };
    let kept = policy.keeps(lonely_before, total_before, lonely_after, total_after);
    if !kept {
        proof {
            lemma_swap_twice(before, swap);
        }
        make_swap(plan, swap);
    }
    kept
}

/// The position of a plan of the history with the highest total happiness;
/// the first such on ties.
pub fn best_in_history(queue: &VecDeque<Plan>, relationships: &GuestRelations) -> (i: usize)
    requires
        relationships.wf(),
        queue@.len() > 0,
        forall|x: int| 0 <= x < queue@.len() ==> seats_all(relationships@, plan_view(#[trigger] &queue@[x])),
    ensures
        i < queue@.len(),
        forall|x: int|
            0 <= x < queue@.len() ==> plan_happiness(relationships@, plan_view(#[trigger] &queue@[x]), queue@[x]@.len() as int)
                <= plan_happiness(relationships@, plan_view(&queue@[i as int]), queue@[i as int]@.len() as int),
{
    let ghost rel = relationships@;
    assert(seats_all(rel, plan_view(&queue@[0])));
    let mut best: usize = 0;
    let mut best_total = total_happiness(&queue[0], relationships);
    let mut j: usize = 1;
    while j < queue.len()
        invariant
            relationships.wf(),
            rel == relationships@,
            queue@.len() > 0,
            1 <= j <= queue@.len(),
            best < queue@.len(),
            forall|x: int| 0 <= x < queue@.len() ==> seats_all(rel, plan_view(#[trigger] &queue@[x])),
            best_total == plan_happiness(rel, plan_view(&queue@[best as int]), queue@[best as int]@.len() as int),
            forall|x: int|
                0 <= x < j ==> plan_happiness(rel, plan_view(#[trigger] &queue@[x]), queue@[x]@.len() as int) <= best_total,
        decreases queue@.len() - j,
    {
        assert(seats_all(rel, plan_view(&queue@[j as int])));
        let total = total_happiness(&queue[j], relationships);
        if total > best_total {
            best = j;
            best_total = total;
        }
        j = j + 1;
    }
    best
}

/// Greedy hill climbing: try one random swap at a time and undo it unless
/// it improves the plan.
pub struct HillClimbingPlanner {
    rng: rand::rngs::StdRng,
    termination: Termination,
    acceptance: Acceptance,
}

impl HillClimbingPlanner {
    pub closed spec fn termination(&self) -> Termination {
        self.termination
    }

    pub closed spec fn acceptance(&self) -> Acceptance {
        self.acceptance
    }

    /// A planner that keeps changes which raise the total happiness.
    pub fn new(rng: rand::rngs::StdRng, termination: Termination) -> (r: Self)
        ensures
            r.termination() == termination,
            r.acceptance() == Acceptance::Happiness,
            termination.wf() ==> r.ready(),
    {
        Self { rng, termination, acceptance: Acceptance::Happiness }
    }

    /// The same planner, judging changes by the given policy.
    pub fn with_acceptance(self, acceptance: Acceptance) -> (r: Self)
        ensures
            r.termination() == self.termination(),
            r.acceptance() == acceptance,
            self.termination().wf() ==> r.ready(),
    {
        Self { rng: self.rng, termination: self.termination, acceptance }
    }
}

impl SeatingPlanner for HillClimbingPlanner {
    closed spec fn ready(&self) -> bool {
        self.termination.wf()
    }

    fn plan(&mut self, problem: &Problem) -> (r: Plan) {
        let relationships = &problem.relations;
        let n_guests = relationships.len();
        let n_tables = problem.n_tables;
        let table_size = n_guests / n_tables;
        let ghost rel = relationships@;
        let ghost n = n_guests as nat;
        let ghost k = n_tables as nat;
        let mut plan = random_plan(&mut self.rng, n_guests, n_tables);
        if table_size == 0 {
            return plan;
        }
        let mut ema: u64 = SCALE;
        let mut steps: u64 = 0;
        while steps < u64::MAX && self.termination.keep_going(ema, steps)
            invariant
                self.termination.wf(),
                problem.wf(),
                relationships == &problem.relations,
                rel == relationships@,
                n == rel.len(),
                n_guests == n,
                k == n_tables,
                n_tables == problem.n_tables,
                table_size == n_guests / n_tables,
                table_size > 0,
                ema <= SCALE,
                is_partition(plan_view(&plan), n, k),
            decreases u64::MAX - steps,
        {
            let swap = random_swap(&mut self.rng, n_tables, table_size);
            proof {
                lemma_swap_keeps_partition(plan_view(&plan), swap, n, k);
            }
            let accepted = hill_climb_step(&mut plan, relationships, swap, self.acceptance);
            ema = self.termination.next_ema(ema, accepted);
            steps = steps + 1;
        }
        plan
    }
}

/// Late-acceptance hill climbing: keep a history of plans and accept a
/// changed copy of the newest one if it beats the oldest or the newest.
pub struct LahcPlanner {
    rng: rand::rngs::StdRng,
    queue_size: usize,
    termination: Termination,
}

impl LahcPlanner {
    pub closed spec fn termination(&self) -> Termination {
        self.termination
    }

    pub closed spec fn queue_size(&self) -> usize {
        self.queue_size
    }

    /// A planner that looks back over a thousand plans.
    pub fn new(rng: rand::rngs::StdRng, termination: Termination) -> (r: Self)
        ensures
            r.termination() == termination,
            r.queue_size() == 1000,
            termination.wf() ==> r.ready(),
    {
        Self { rng, queue_size: 1000, termination }
    }

    /// The same planner with a history of `queue_size` plans, which must
    /// not be zero.
    pub fn with_queue_size(self, queue_size: usize) -> (r: Self)
        requires
            queue_size > 0,
        ensures
            r.termination() == self.termination(),
            r.queue_size() == queue_size,
            self.termination().wf() ==> r.ready(),
    {
        Self { rng: self.rng, queue_size, termination: self.termination }
    }
}

impl SeatingPlanner for LahcPlanner {
    closed spec fn ready(&self) -> bool {
        self.termination.wf() && self.queue_size > 0
    }

    fn plan(&mut self, problem: &Problem) -> (r: Plan) {
        let relationships = &problem.relations;
        let n_guests = relationships.len();
        let n_tables = problem.n_tables;
        let table_size = n_guests / n_tables;
        let ghost rel = relationships@;
        let ghost n = n_guests as nat;
        let ghost k = n_tables as nat;
        let mut queue: VecDeque<Plan> = VecDeque::new();
        let mut i: usize = 0;
        while i < self.queue_size
            invariant
                self.termination.wf(),
                self.queue_size > 0,
                problem.wf(),
                n_guests == problem.relations@.len(),
                n_tables == problem.n_tables,
                n == n_guests,
                k == n_tables,
                i <= self.queue_size,
                queue@.len() == i,
                forall|x: int| 0 <= x < queue@.len() ==> is_partition(plan_view(#[trigger] &queue@[x]), n, k),
            decreases self.queue_size - i,
        {
            queue.push_back(random_plan(&mut self.rng, n_guests, n_tables));
            i = i + 1;
        }
        let mut ema: u64 = SCALE;
        let mut steps: u64 = 0;
        while table_size > 0 && steps < u64::MAX && self.termination.keep_going(ema, steps)
            invariant
                self.termination.wf(),
                self.queue_size > 0,
                problem.wf(),
                relationships == &problem.relations,
                rel == relationships@,
                n == rel.len(),
                n_guests == n,
                k == n_tables,
                n_tables == problem.n_tables,
                table_size == n_guests / n_tables,
                ema <= SCALE,
                queue@.len() == self.queue_size,
                forall|x: int| 0 <= x < queue@.len() ==> is_partition(plan_view(#[trigger] &queue@[x]), n, k),
            decreases u64::MAX - steps,
        {
            let last = queue.len() - 1;
            let newest = &queue[last];
            assert(is_partition(plan_view(&queue@[last as int]), n, k));
            let mut candidate = clone_plan(newest);
            let swap = random_swap(&mut self.rng, n_tables, table_size);
            proof {
                lemma_swap_keeps_partition(plan_view(&candidate), swap, n, k);
            }
            make_swap(&mut candidate, swap);
            let candidate_total = total_happiness(&candidate, relationships);
            assert(is_partition(plan_view(&queue@[0]), n, k));
            let oldest_total = total_happiness(&queue[0], relationships);
            let newest_total = total_happiness(&queue[last], relationships);
            let accepted = lahc_accepts(candidate_total, oldest_total, newest_total);
            if accepted {
                let ghost old_queue = queue@;
                let _ = queue.pop_front();
                queue.push_back(candidate);
                assert forall|x: int| 0 <= x < queue@.len() implies is_partition(plan_view(#[trigger] &queue@[x]), n, k) by {
                    if x < queue@.len() - 1 {
                        assert(queue@[x] == old_queue[x + 1]);
                    }
                }
            }
            ema = self.termination.next_ema(ema, accepted);
            steps = steps + 1;
        }
        let best = best_in_history(&queue, relationships);
        let chosen = queue.remove(best);
        chosen.unwrap()
    }
}

} // verus!
