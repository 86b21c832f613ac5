use vstd::prelude::*;

use crate::plan::{is_partition, is_seat, plan_view, Plan};
use crate::relations::{GuestRelations, MAX_AFFINITY, MAX_GUESTS};

verus! {

/// What the guest in seat `a` of a table feels for the guest in seat `b`;
/// a guest feels nothing for themself.
pub open spec fn pair_affinity(rel: Seq<Seq<i64>>, table: Seq<usize>, a: int, b: int) -> int {
    if table[a] == table[b] {
        0
    } else {
        rel[table[a] as int][table[b] as int] as int
    }
}

/// Happiness of the guest in seat `a` from the first `m` seats of the table.
pub open spec fn seat_happiness(rel: Seq<Seq<i64>>, table: Seq<usize>, a: int, m: int) -> int
    decreases m,
{
    if m <= 0 {
        0
    } else {
        seat_happiness(rel, table, a, m - 1) + pair_affinity(rel, table, a, m - 1)
    }
}

/// Sum of the happiness of the guests in the first `m` seats of the table.
pub open spec fn table_happiness(rel: Seq<Seq<i64>>, table: Seq<usize>, m: int) -> int
    decreases m,
{
    if m <= 0 {
        0
    } else {
        table_happiness(rel, table, m - 1) + seat_happiness(rel, table, m - 1, table.len() as int)
    }
}

/// Sum of the happiness of every guest at the first `k` tables.
pub open spec fn plan_happiness(rel: Seq<Seq<i64>>, p: Seq<Seq<usize>>, k: int) -> int
    decreases k,
{
    if k <= 0 {
        0
    } else {
        plan_happiness(rel, p, k - 1) + table_happiness(rel, p[k - 1], p[k - 1].len() as int)
    }
}

/// The guest in seat `a` likes nobody else at the table.
pub open spec fn is_lonely_seat(rel: Seq<Seq<i64>>, table: Seq<usize>, a: int) -> bool {
    forall|b: int| 0 <= b < table.len() ==> #[trigger] pair_affinity(rel, table, a, b) <= 0
}

/// Number of lonely guests among the first `m` seats of the table.
pub open spec fn lonely_in_table(rel: Seq<Seq<i64>>, table: Seq<usize>, m: int) -> int
    decreases m,
{
    if m <= 0 {
        0
    } else {
        lonely_in_table(rel, table, m - 1) + if is_lonely_seat(rel, table, m - 1) {
            1int
        } else {
            0int
        }
    }
}

/// Number of lonely guests at the first `k` tables.
pub open spec fn lonely_in_plan(rel: Seq<Seq<i64>>, p: Seq<Seq<usize>>, k: int) -> int
    decreases k,
{
    if k <= 0 {
        0
    } else {
        lonely_in_plan(rel, p, k - 1) + lonely_in_table(rel, p[k - 1], p[k - 1].len() as int)
    }
}

/// The plan is a partition of the graph's guests into `p.len()` tables.
pub open spec fn seats_all(rel: Seq<Seq<i64>>, p: Seq<Seq<usize>>) -> bool {
    is_partition(p, rel.len(), p.len())
}

proof fn lemma_seat_bound(rel: Seq<Seq<i64>>, table: Seq<usize>, a: int, m: int)
    requires
        crate::relations::is_bounded_square(rel),
        0 <= a < table.len(),
        0 <= m <= table.len(),
        forall|s: int| 0 <= s < table.len() ==> #[trigger] table[s] < rel.len(),
    ensures
        -(m * MAX_AFFINITY) <= seat_happiness(rel, table, a, m) <= m * MAX_AFFINITY,
    decreases m,
{
    if m > 0 {
        lemma_seat_bound(rel, table, a, m - 1);
        assert(table[a] < rel.len() && table[m - 1] < rel.len());
    }
}

proof fn lemma_table_bound(rel: Seq<Seq<i64>>, table: Seq<usize>, m: int)
    requires
        crate::relations::is_bounded_square(rel),
        0 <= m <= table.len(),
        forall|s: int| 0 <= s < table.len() ==> #[trigger] table[s] < rel.len(),
    ensures
        -(m * (table.len() * MAX_AFFINITY)) <= table_happiness(rel, table, m),
        table_happiness(rel, table, m) <= m * (table.len() * MAX_AFFINITY),
    decreases m,
{
    if m > 0 {
        lemma_table_bound(rel, table, m - 1);
        lemma_seat_bound(rel, table, m - 1, table.len() as int);
        let c = table.len() * MAX_AFFINITY;
        assert((m - 1) * c + c == m * c) by (nonlinear_arith);
    }
}

spec fn table_bound(rel: Seq<Seq<i64>>, p: Seq<Seq<usize>>) -> int {
    let size = rel.len() / (p.len() as nat);
    size * size * MAX_AFFINITY
}

proof fn lemma_plan_bound(rel: Seq<Seq<i64>>, p: Seq<Seq<usize>>, k: int)
    requires
        crate::relations::is_bounded_square(rel),
        seats_all(rel, p),
        0 <= k <= p.len(),
    ensures
        -(k * table_bound(rel, p)) <= plan_happiness(rel, p, k),
        plan_happiness(rel, p, k) <= k * table_bound(rel, p),
    decreases k,
{
    if k > 0 {
        lemma_plan_bound(rel, p, k - 1);
        let table = p[k - 1];
        assert forall|s: int| 0 <= s < table.len() implies #[trigger] table[s] < rel.len() by {
            assert(is_seat(p, k - 1, s));
        }
        lemma_table_bound(rel, table, table.len() as int);
        let size = rel.len() / (p.len() as nat);
        let c = table_bound(rel, p);
        assert(table.len() * (table.len() * MAX_AFFINITY) == c) by (nonlinear_arith)
            requires table.len() == size, c == size * size * MAX_AFFINITY;
        assert((k - 1) * c + c == k * c) by (nonlinear_arith);
    }
}

proof fn lemma_total_fits(rel: Seq<Seq<i64>>, p: Seq<Seq<usize>>)
    requires
        crate::relations::is_bounded_square(rel),
        seats_all(rel, p),
    ensures
        0 <= table_bound(rel, p),
        p.len() * table_bound(rel, p) <= i64::MAX,
        rel.len() / (p.len() as nat) <= rel.len(),
        i64::MIN <= plan_happiness(rel, p, p.len() as int) <= i64::MAX,
{
    lemma_plan_bound(rel, p, p.len() as int);
    let n = rel.len() as int;
    let k = p.len() as int;
    let size = n / k;
    vstd::arithmetic::div_mod::lemma_fundamental_div_mod(n, k);
    assert(k * size == n) by (nonlinear_arith)
        requires n == k * (n / k) + n % k, n % k == 0, size == n / k;
    assert(size <= n) by (nonlinear_arith)
        requires k * size == n, k >= 1, size >= 0;
    let c = table_bound(rel, p);
    assert(0 <= c) by (nonlinear_arith)
        requires c == size * size * MAX_AFFINITY, size >= 0, MAX_AFFINITY > 0;
    assert(k * c == n * (size * MAX_AFFINITY)) by (nonlinear_arith)
        requires k * size == n, c == size * size * MAX_AFFINITY;
    assert(n * (size * MAX_AFFINITY) <= n * (n * MAX_AFFINITY)) by (nonlinear_arith)
        requires size <= n, 0 <= n, MAX_AFFINITY > 0;
    assert(n * (n * MAX_AFFINITY) <= MAX_GUESTS * (MAX_GUESTS * MAX_AFFINITY)) by (nonlinear_arith)
        requires 0 <= n <= MAX_GUESTS, MAX_AFFINITY > 0;
}

proof fn lemma_prefix_bound(i: int, k: int, c: int)
    requires
        0 <= i <= k,
        0 <= c,
    ensures
        i * c <= k * c,
        0 <= i * c,
{
    assert(i * c <= k * c) by (nonlinear_arith)
        requires i <= k, 0 <= c;
    assert(0 <= i * c) by (nonlinear_arith)
        requires 0 <= i, 0 <= c;
}

/// Sum of every guest's affinities to the others at their table.
pub fn total_happiness(plan: &Plan, relationships: &GuestRelations) -> (r: i64)
    requires
        relationships.wf(),
        seats_all(relationships@, plan_view(plan)),
    ensures
        r == plan_happiness(relationships@, plan_view(plan), plan@.len() as int),
{
    let ghost rel = relationships@;
    let ghost p = plan_view(plan);
    let ghost k = p.len() as int;
    let ghost c = table_bound(rel, p);
    proof {
        lemma_total_fits(rel, p);
    }
    let mut total: i64 = 0;
    let mut t: usize = 0;
    while t < plan.len()
        invariant
            relationships.wf(),
            rel == relationships@,
            p == plan_view(plan),
            seats_all(rel, p),
            k == p.len(),
            c == table_bound(rel, p),
            0 <= c,
            k * c <= i64::MAX,
            rel.len() / (k as nat) <= rel.len(),
            t <= k,
            total == plan_happiness(rel, p, t as int),
        decreases k - t,
    {
        let table = &plan[t];
        let ghost tb = table@;
        assert(tb == p[t as int]);
        assert forall|s: int| 0 <= s < tb.len() implies #[trigger] tb[s] < rel.len() by {
            assert(is_seat(p, t as int, s));
        }
        assert(c == (tb.len() as int) * (tb.len() as int) * MAX_AFFINITY);
        let mut table_sum: i64 = 0;
        let mut a: usize = 0;
        while a < table.len()
            invariant
                relationships.wf(),
                rel == relationships@,
                tb == table@,
                tb.len() == rel.len() / (k as nat),
                rel.len() / (k as nat) <= rel.len(),
                c == (tb.len() as int) * (tb.len() as int) * MAX_AFFINITY,
                0 <= c,
                k * c <= i64::MAX,
                k >= 1,
                forall|s: int| 0 <= s < tb.len() ==> #[trigger] tb[s] < rel.len(),
                a <= tb.len(),
                table_sum == table_happiness(rel, tb, a as int),
            decreases tb.len() - a,
        {
            let guest1 = table[a];
            let mut seat_sum: i64 = 0;
            let mut b: usize = 0;
            while b < table.len()
                invariant
                    relationships.wf(),
                    rel == relationships@,
                    tb == table@,
                    tb.len() <= rel.len(),
                    a < tb.len(),
                    guest1 == tb[a as int],
                    forall|s: int| 0 <= s < tb.len() ==> #[trigger] tb[s] < rel.len(),
                    b <= tb.len(),
                    seat_sum == seat_happiness(rel, tb, a as int, b as int),
                decreases tb.len() - b,
            {
                let guest2 = table[b];
                proof {
                    lemma_seat_bound(rel, tb, a as int, b + 1);
                    assert((b + 1) * MAX_AFFINITY <= MAX_GUESTS * MAX_AFFINITY) by (nonlinear_arith)
                        requires b + 1 <= MAX_GUESTS;
                }
                if guest1 != guest2 {
                    seat_sum = seat_sum + relationships.relationship(guest1, guest2);
                }
                b = b + 1;
            }
            proof {
                lemma_table_bound(rel, tb, a + 1);
                let size = tb.len() as int;
                lemma_prefix_bound(a + 1, size, size * MAX_AFFINITY);
                assert(size * (size * MAX_AFFINITY) == c) by (nonlinear_arith)
                    requires c == size * size * MAX_AFFINITY;
                lemma_prefix_bound(1, k, c);
            }
            table_sum = table_sum + seat_sum;
            a = a + 1;
        }
        proof {
            lemma_plan_bound(rel, p, t + 1);
            lemma_prefix_bound(t + 1, k, c);
        }
        total = total + table_sum;
        t = t + 1;
    }
    total
}

proof fn lemma_lonely_table_bound(rel: Seq<Seq<i64>>, table: Seq<usize>, m: int)
    requires
        0 <= m,
    ensures
        0 <= lonely_in_table(rel, table, m) <= m,
    decreases m,
{
    if m > 0 {
        lemma_lonely_table_bound(rel, table, m - 1);
    }
}

proof fn lemma_lonely_plan_bound(rel: Seq<Seq<i64>>, p: Seq<Seq<usize>>, k: int, size: int)
    requires
        0 <= k <= p.len(),
        0 <= size,
        forall|t: int| 0 <= t < p.len() ==> #[trigger] p[t].len() == size,
    ensures
        0 <= lonely_in_plan(rel, p, k) <= k * size,
    decreases k,
{
    if k > 0 {
        lemma_lonely_plan_bound(rel, p, k - 1, size);
        lemma_lonely_table_bound(rel, p[k - 1], size);
        assert((k - 1) * size + size == k * size) by (nonlinear_arith);
    }
}

/// Number of guests who like nobody else at their table.
pub fn lonely_guests(plan: &Plan, relationships: &GuestRelations) -> (r: usize)
    requires
        relationships.wf(),
        seats_all(relationships@, plan_view(plan)),
    ensures
        r == lonely_in_plan(relationships@, plan_view(plan), plan@.len() as int),
{
    let ghost rel = relationships@;
    let ghost p = plan_view(plan);
    let ghost k = p.len() as int;
    let ghost size = rel.len() / (k as nat);
    proof {
        lemma_total_fits(rel, p);
        let n = rel.len() as int;
        vstd::arithmetic::div_mod::lemma_fundamental_div_mod(n, k);
        assert(k * size == n) by (nonlinear_arith)
            requires n == k * (n / k) + n % k, n % k == 0, size == n / k;
    }
    let mut n_lonely: usize = 0;
    let mut t: usize = 0;
    while t < plan.len()
        invariant
            relationships.wf(),
            rel == relationships@,
            p == plan_view(plan),
            seats_all(rel, p),
            k == p.len(),
            size == rel.len() / (k as nat),
            k * size == rel.len(),
            t <= k,
            n_lonely == lonely_in_plan(rel, p, t as int),
        decreases k - t,
    {
        let table = &plan[t];
        let ghost tb = table@;
        assert(tb == p[t as int]);
        assert forall|s: int| 0 <= s < tb.len() implies #[trigger] tb[s] < rel.len() by {
            assert(is_seat(p, t as int, s));
        }
        proof {
            lemma_lonely_plan_bound(rel, p, t as int, size as int);
            lemma_lonely_table_bound(rel, tb, tb.len() as int);
            lemma_prefix_bound(t + 1, k, size as int);
            assert(t * size + size == (t + 1) * size) by (nonlinear_arith);
        }
        let mut a: usize = 0;
        while a < table.len()
            invariant
                relationships.wf(),
                rel == relationships@,
                tb == table@,
                forall|s: int| 0 <= s < tb.len() ==> #[trigger] tb[s] < rel.len(),
                a <= tb.len(),
                n_lonely == lonely_in_plan(rel, p, t as int) + lonely_in_table(rel, tb, a as int),
                lonely_in_plan(rel, p, t as int) + tb.len() <= MAX_GUESTS,
            decreases tb.len() - a,
        {
            let guest1 = table[a];
            let mut lonely = true;
            let mut b: usize = 0;
            while b < table.len()
                invariant
                    relationships.wf(),
                    rel == relationships@,
                    tb == table@,
                    forall|s: int| 0 <= s < tb.len() ==> #[trigger] tb[s] < rel.len(),
                    a < tb.len(),
                    guest1 == tb[a as int],
                    b <= tb.len(),
                    lonely == forall|x: int| 0 <= x < b ==> #[trigger] pair_affinity(rel, tb, a as int, x) <= 0,
                decreases tb.len() - b,
            {
                let guest2 = table[b];
                let affinity = if guest1 != guest2 {
                    relationships.relationship(guest1, guest2)
                } else {
                    0
                };
                assert(affinity == pair_affinity(rel, tb, a as int, b as int));
                if affinity > 0 {
                    lonely = false;
                }
                b = b + 1;
            }
            proof {
                lemma_lonely_table_bound(rel, tb, a + 1);
            }
            if lonely {
                n_lonely = n_lonely + 1;
            }
            a = a + 1;
        }
        t = t + 1;
    }
    n_lonely
}

/// Sum of the affinities of the pairs of seats `a < b` among the first `m`
/// seats, each pair counted once.
pub open spec fn table_pairs(rel: Seq<Seq<i64>>, table: Seq<usize>, m: int) -> int
    decreases m,
{
    if m <= 0 {
        0
    } else {
        table_pairs(rel, table, m - 1) + seat_happiness(rel, table, m - 1, m - 1)
    }
}

/// Sum over the first `k` tables of the affinities of pairs sharing a table.
pub open spec fn plan_pairs(rel: Seq<Seq<i64>>, p: Seq<Seq<usize>>, k: int) -> int
    decreases k,
{
    if k <= 0 {
        0
    } else {
        plan_pairs(rel, p, k - 1) + table_pairs(rel, p[k - 1], p[k - 1].len() as int)
    }
}

spec fn square_sum(rel: Seq<Seq<i64>>, table: Seq<usize>, k: int, m: int) -> int
    decreases k,
{
    if k <= 0 {
        0
    } else {
        square_sum(rel, table, k - 1, m) + seat_happiness(rel, table, k - 1, m)
    }
}

spec fn column_sum(rel: Seq<Seq<i64>>, table: Seq<usize>, k: int, m: int) -> int
    decreases k,
{
    if k <= 0 {
        0
    } else {
        column_sum(rel, table, k - 1, m) + pair_affinity(rel, table, k - 1, m)
    }
}

proof fn lemma_square_sum_extend(rel: Seq<Seq<i64>>, table: Seq<usize>, k: int, m: int)
    requires
        0 <= k,
        0 <= m,
    ensures
        square_sum(rel, table, k, m + 1) == square_sum(rel, table, k, m) + column_sum(rel, table, k, m),
    decreases k,
{
    if k > 0 {
        lemma_square_sum_extend(rel, table, k - 1, m);
    }
}

proof fn lemma_column_is_row(rel: Seq<Seq<i64>>, table: Seq<usize>, k: int, m: int)
    requires
        crate::relations::is_symmetric(rel),
        forall|s: int| 0 <= s < table.len() ==> #[trigger] table[s] < rel.len(),
        0 <= k <= m < table.len(),
    ensures
        column_sum(rel, table, k, m) == seat_happiness(rel, table, m, k),
    decreases k,
{
    if k > 0 {
        lemma_column_is_row(rel, table, k - 1, m);
        assert(table[k - 1] < rel.len() && table[m] < rel.len());
        assert(pair_affinity(rel, table, k - 1, m) == pair_affinity(rel, table, m, k - 1));
    }
}

proof fn lemma_table_double_count(rel: Seq<Seq<i64>>, table: Seq<usize>, m: int)
    requires
        crate::relations::is_symmetric(rel),
        forall|s: int| 0 <= s < table.len() ==> #[trigger] table[s] < rel.len(),
        0 <= m <= table.len(),
    ensures
        square_sum(rel, table, m, m) == 2 * table_pairs(rel, table, m),
    decreases m,
{
    if m > 0 {
        let j = m - 1;
        lemma_table_double_count(rel, table, j);
        lemma_square_sum_extend(rel, table, j, j);
        lemma_column_is_row(rel, table, j, j);
    }
}

proof fn lemma_table_is_square_sum(rel: Seq<Seq<i64>>, table: Seq<usize>, m: int)
    requires
        0 <= m,
    ensures
        table_happiness(rel, table, m) == square_sum(rel, table, m, table.len() as int),
    decreases m,
{
    if m > 0 {
        lemma_table_is_square_sum(rel, table, m - 1);
    }
}

/// On a symmetric graph, the total happiness of a plan counts the affinity
/// of every pair of table-mates twice, once from each side.
pub proof fn lemma_double_count(rel: Seq<Seq<i64>>, p: Seq<Seq<usize>>, k: int)
    requires
        crate::relations::is_symmetric(rel),
        0 <= k <= p.len(),
        forall|t: int, s: int| is_seat(p, t, s) ==> #[trigger] p[t][s] < rel.len(),
    ensures
        plan_happiness(rel, p, k) == 2 * plan_pairs(rel, p, k),
    decreases k,
{
    if k > 0 {
        lemma_double_count(rel, p, k - 1);
        let table = p[k - 1];
        assert forall|s: int| 0 <= s < table.len() implies #[trigger] table[s] < rel.len() by {
            assert(is_seat(p, k - 1, s));
        }
        lemma_table_is_square_sum(rel, table, table.len() as int);
        lemma_table_double_count(rel, table, table.len() as int);
    }
}

proof fn lemma_cold_table(rel: Seq<Seq<i64>>, table: Seq<usize>, m: int)
    requires
        forall|i: int, j: int| 0 <= i < rel.len() && 0 <= j < rel.len() ==> #[trigger] rel[i][j] <= 0,
        forall|s: int| 0 <= s < table.len() ==> #[trigger] table[s] < rel.len(),
        0 <= m <= table.len(),
    ensures
        lonely_in_table(rel, table, m) == m,
        table_happiness(rel, table, m) <= 0,
    decreases m,
{
    if m > 0 {
        lemma_cold_table(rel, table, m - 1);
        let a = m - 1;
        assert forall|b: int| 0 <= b < table.len() implies #[trigger] pair_affinity(rel, table, a, b) <= 0 by {
            assert(table[a] < rel.len() && table[b] < rel.len());
        }
        lemma_cold_seat(rel, table, a, table.len() as int);
    }
}

proof fn lemma_cold_seat(rel: Seq<Seq<i64>>, table: Seq<usize>, a: int, m: int)
    requires
        forall|b: int| 0 <= b < table.len() ==> #[trigger] pair_affinity(rel, table, a, b) <= 0,
        0 <= m <= table.len(),
    ensures
        seat_happiness(rel, table, a, m) <= 0,
    decreases m,
{
    if m > 0 {
        lemma_cold_seat(rel, table, a, m - 1);
    }
}

proof fn lemma_cold_prefix(rel: Seq<Seq<i64>>, p: Seq<Seq<usize>>, k: int, size: int)
    requires
        forall|i: int, j: int| 0 <= i < rel.len() && 0 <= j < rel.len() ==> #[trigger] rel[i][j] <= 0,
        forall|t: int, s: int| is_seat(p, t, s) ==> #[trigger] p[t][s] < rel.len(),
        forall|t: int| 0 <= t < p.len() ==> #[trigger] p[t].len() == size,
        0 <= k <= p.len(),
    ensures
        lonely_in_plan(rel, p, k) == k * size,
        plan_happiness(rel, p, k) <= 0,
    decreases k,
{
    if k > 0 {
        lemma_cold_prefix(rel, p, k - 1, size);
        let table = p[k - 1];
        assert forall|s: int| 0 <= s < table.len() implies #[trigger] table[s] < rel.len() by {
            assert(is_seat(p, k - 1, s));
        }
        lemma_cold_table(rel, table, table.len() as int);
        assert(table.len() == size);
        assert((k - 1) * size + size == k * size) by (nonlinear_arith);
    } else {
        assert(k * size == 0) by (nonlinear_arith)
            requires k == 0;
    }
}

/// Where nobody likes anybody, every guest of a plan is lonely and the plan's
/// total happiness is not positive.
pub proof fn lemma_all_lonely(rel: Seq<Seq<i64>>, p: Seq<Seq<usize>>)
    requires
        seats_all(rel, p),
        forall|i: int, j: int| 0 <= i < rel.len() && 0 <= j < rel.len() ==> #[trigger] rel[i][j] <= 0,
    ensures
        lonely_in_plan(rel, p, p.len() as int) == rel.len(),
        plan_happiness(rel, p, p.len() as int) <= 0,
{
    let n = rel.len() as int;
    let k = p.len() as int;
    let size = n / k;
    lemma_cold_prefix(rel, p, k, size);
    vstd::arithmetic::div_mod::lemma_fundamental_div_mod(n, k);
    assert(k * size == n) by (nonlinear_arith)
        requires n == k * (n / k) + n % k, n % k == 0, size == n / k;
}

/// What the guest in seat `a` feels for each other guest among the first `m`
/// seats of the table, in seat order.
pub open spec fn neighbour_row(rel: Seq<Seq<i64>>, table: Seq<usize>, a: int, m: int) -> Seq<i64>
    decreases m,
{
    if m <= 0 {
        seq![]
    } else {
        let prev = neighbour_row(rel, table, a, m - 1);
        if table[m - 1] == table[a] {
            prev
        } else {
            prev.push(rel[table[a] as int][table[m - 1] as int])
        }
    }
}

pub open spec fn seq_sum(s: Seq<i64>) -> int
    decreases s.len(),
{
    if s.len() == 0 {
        0
    } else {
        seq_sum(s.drop_last()) + s.last()
    }
}

/// Sum of the first `m` rows.
pub open spec fn sum_rows(rows: Seq<Seq<i64>>, m: int) -> int
    decreases m,
{
    if m <= 0 {
        0
    } else {
        sum_rows(rows, m - 1) + seq_sum(rows[m - 1])
    }
}

pub open spec fn all_nonpositive(s: Seq<i64>) -> bool {
    forall|i: int| 0 <= i < s.len() ==> #[trigger] s[i] <= 0
}

/// Number of rows among the first `m` with no positive entry.
pub open spec fn count_lonely(rows: Seq<Seq<i64>>, m: int) -> int
    decreases m,
{
    if m <= 0 {
        0
    } else {
        count_lonely(rows, m - 1) + if all_nonpositive(rows[m - 1]) {
            1int
        } else {
            0int
        }
    }
}

pub open spec fn is_bounded_row(s: Seq<i64>) -> bool {
    &&& s.len() <= MAX_GUESTS
    &&& forall|i: int| 0 <= i < s.len() ==> -MAX_AFFINITY <= #[trigger] s[i] <= MAX_AFFINITY
}

pub(crate) proof fn lemma_neighbour_row(rel: Seq<Seq<i64>>, table: Seq<usize>, a: int, m: int)
    requires
        crate::relations::is_bounded_square(rel),
        forall|s: int| 0 <= s < table.len() ==> #[trigger] table[s] < rel.len(),
        0 <= a < table.len(),
        0 <= m <= table.len(),
    ensures
        neighbour_row(rel, table, a, m).len() <= m,
        forall|i: int| 0 <= i < neighbour_row(rel, table, a, m).len()
            ==> -MAX_AFFINITY <= #[trigger] neighbour_row(rel, table, a, m)[i] <= MAX_AFFINITY,
        seq_sum(neighbour_row(rel, table, a, m)) == seat_happiness(rel, table, a, m),
        all_nonpositive(neighbour_row(rel, table, a, m)) <==> forall|b: int|
            0 <= b < m ==> #[trigger] pair_affinity(rel, table, a, b) <= 0,
    decreases m,
{
    if m > 0 {
        lemma_neighbour_row(rel, table, a, m - 1);
        let prev = neighbour_row(rel, table, a, m - 1);
        let row = neighbour_row(rel, table, a, m);
        assert(table[a] < rel.len() && table[m - 1] < rel.len());
        if table[m - 1] != table[a] {
            assert(row.drop_last() =~= prev);
        }
        if all_nonpositive(row) {
            assert forall|b: int| 0 <= b < m implies #[trigger] pair_affinity(rel, table, a, b) <= 0 by {
                if b == m - 1 && table[m - 1] != table[a] {
                    assert(row[row.len() - 1] <= 0);
                } else if b < m - 1 {
                    assert(all_nonpositive(prev)) by {
                        assert forall|i: int| 0 <= i < prev.len() implies #[trigger] prev[i] <= 0 by {
                            assert(row[i] == prev[i]);
                        }
                    }
                }
            }
        }
        if forall|b: int| 0 <= b < m ==> #[trigger] pair_affinity(rel, table, a, b) <= 0 {
            assert forall|b: int| 0 <= b < m - 1 implies #[trigger] pair_affinity(rel, table, a, b) <= 0 by {
                assert(pair_affinity(rel, table, a, b) <= 0);
            }
            assert(pair_affinity(rel, table, a, m - 1) <= 0);
            assert forall|i: int| 0 <= i < row.len() implies #[trigger] row[i] <= 0 by {
                if i < prev.len() {
                    assert(prev[i] <= 0);
                }
            }
        }
    }
}

proof fn lemma_row_sum_bound(s: Seq<i64>)
    requires
        is_bounded_row(s),
    ensures
        -(s.len() * MAX_AFFINITY) <= seq_sum(s) <= s.len() * MAX_AFFINITY,
    decreases s.len(),
{
    if s.len() > 0 {
        lemma_row_sum_bound(s.drop_last());
        assert(s.last() == s[s.len() - 1]);
    }
}

/// The affinities of each guest to the others at their table.
pub struct Metrics {
    neighbour_relationships: Vec<Vec<i64>>,
}

impl View for Metrics {
    type V = Seq<Seq<i64>>;

    /// Row `g` lists what guest `g` feels for each table-mate.
    closed spec fn view(&self) -> Seq<Seq<i64>> {
        self.neighbour_relationships@.map_values(|row: Vec<i64>| row@)
    }
}

impl Metrics {
    /// Every row and every entry is within the bounds of a relationship graph.
    pub open spec fn wf(&self) -> bool {
        &&& self@.len() <= MAX_GUESTS
        &&& forall|g: int| 0 <= g < self@.len() ==> #[trigger] is_bounded_row(self@[g])
    }

    /// Collects, for each guest, what they feel for each table-mate.
    pub fn new(plan: &Plan, relationships: &GuestRelations) -> (r: Self)
        requires
            relationships.wf(),
            seats_all(relationships@, plan_view(plan)),
        ensures
            r.wf(),
            r@.len() == relationships@.len(),
            forall|t: int, s: int|
                is_seat(plan_view(plan), t, s) ==> r@[#[trigger] plan_view(plan)[t][s] as int]
                    == neighbour_row(relationships@, plan_view(plan)[t], s, plan_view(plan)[t].len() as int),
    {
        let ghost rel = relationships@;
        let ghost p = plan_view(plan);
        let n = relationships.len();
        let mut inner: Vec<Vec<i64>> = Vec::new();
        let mut g: usize = 0;
        while g < n
            invariant
                g <= n,
                inner@.len() == g,
                forall|x: int| 0 <= x < g ==> #[trigger] inner@[x]@.len() == 0,
            decreases n - g,
        {
            inner.push(Vec::new());
            g = g + 1;
        }
        let mut t: usize = 0;
        while t < plan.len()
            invariant
                relationships.wf(),
                rel == relationships@,
                n == rel.len(),
                p == plan_view(plan),
                seats_all(rel, p),
                t <= p.len(),
                inner@.len() == n,
                forall|x: int| 0 <= x < n ==> #[trigger] is_bounded_row(inner@[x]@),
                forall|u: int, s: int|
                    is_seat(p, u, s) && u < t ==> inner@[#[trigger] p[u][s] as int]@
                        == neighbour_row(rel, p[u], s, p[u].len() as int),
            decreases p.len() - t,
        {
            let table = &plan[t];
            let ghost tb = table@;
            assert(tb == p[t as int]);
            assert forall|s: int| 0 <= s < tb.len() implies #[trigger] tb[s] < rel.len() by {
                assert(is_seat(p, t as int, s));
            }
            let mut a: usize = 0;
            while a < table.len()
                invariant
                    relationships.wf(),
                    rel == relationships@,
                    n == rel.len(),
                    p == plan_view(plan),
                    seats_all(rel, p),
                    t < p.len(),
                    tb == table@,
                    tb == p[t as int],
                    forall|s: int| 0 <= s < tb.len() ==> #[trigger] tb[s] < rel.len(),
                    a <= tb.len(),
                    inner@.len() == n,
                    forall|x: int| 0 <= x < n ==> #[trigger] is_bounded_row(inner@[x]@),
                    forall|u: int, s: int|
                        is_seat(p, u, s) && (u < t || (u == t && s < a)) ==> inner@[#[trigger] p[u][s] as int]@
                            == neighbour_row(rel, p[u], s, p[u].len() as int),
                decreases tb.len() - a,
            {
                let guest = table[a];
                let mut row: Vec<i64> = Vec::new();
                let mut b: usize = 0;
                while b < table.len()
                    invariant
                        relationships.wf(),
                        rel == relationships@,
                        tb == table@,
                        forall|s: int| 0 <= s < tb.len() ==> #[trigger] tb[s] < rel.len(),
                        a < tb.len(),
                        guest == tb[a as int],
                        b <= tb.len(),
                        row@ == neighbour_row(rel, tb, a as int, b as int),
                    decreases tb.len() - b,
                {
                    let neighbour = table[b];
                    if guest != neighbour {
                        row.push(relationships.relationship(guest, neighbour));
                    }
                    b = b + 1;
                }
                proof {
                    lemma_neighbour_row(rel, tb, a as int, tb.len() as int);
                    lemma_total_fits(rel, p);
                }
                let ghost before = inner@;
                inner.set(guest, row);
                assert forall|u: int, s: int|
                    is_seat(p, u, s) && (u < t || (u == t && s < a + 1)) implies inner@[#[trigger] p[u][s] as int]@
                        == neighbour_row(rel, p[u], s, p[u].len() as int) by {
                    if p[u][s] != guest {
                        assert(before[p[u][s] as int] == inner@[p[u][s] as int]);
                    } else {
                        assert(is_seat(p, t as int, a as int));
                        assert(p[t as int][a as int] == guest);
                    }
                }
                a = a + 1;
            }
            t = t + 1;
        }
        let r = Self { neighbour_relationships: inner };
        assert(r@.len() == n);
        assert forall|x: int| 0 <= x < r@.len() implies #[trigger] is_bounded_row(r@[x]) by {
            assert(is_bounded_row(inner@[x]@));
        }
        r
    }

    fn row_sum(row: &Vec<i64>) -> (r: i64)
        requires
            is_bounded_row(row@),
        ensures
            r == seq_sum(row@),
    {
        let mut sum: i64 = 0;
        let mut i: usize = 0;
        while i < row.len()
            invariant
                is_bounded_row(row@),
                i <= row.len(),
                sum == seq_sum(row@.subrange(0, i as int)),
            decreases row.len() - i,
        {
            let ghost prefix = row@.subrange(0, i as int + 1);
            assert(prefix.drop_last() =~= row@.subrange(0, i as int));
            proof {
                lemma_row_sum_bound(prefix);
                assert((i + 1) * MAX_AFFINITY <= MAX_GUESTS * MAX_AFFINITY) by (nonlinear_arith)
                    requires i + 1 <= MAX_GUESTS;
            }
            sum = sum + row[i];
            i = i + 1;
        }
        assert(row@.subrange(0, row@.len() as int) =~= row@);
        sum
    }

    /// The happiness of each guest: the sum of what they feel for their
    /// table-mates.
    pub fn happinesses(&self) -> (r: Vec<i64>)
        requires
            self.wf(),
        ensures
            r@.len() == self@.len(),
            forall|g: int| 0 <= g < r@.len() ==> #[trigger] r@[g] == seq_sum(self@[g]),
    {
        let mut out: Vec<i64> = Vec::new();
        let mut g: usize = 0;
        while g < self.neighbour_relationships.len()
            invariant
                self.wf(),
                g <= self@.len(),
                self@.len() == self.neighbour_relationships@.len(),
                out@.len() == g,
                forall|x: int| 0 <= x < g ==> #[trigger] out@[x] == seq_sum(self@[x]),
            decreases self@.len() - g,
        {
            assert(is_bounded_row(self@[g as int]));
            out.push(Self::row_sum(&self.neighbour_relationships[g]));
            g = g + 1;
        }
        out
    }

    /// Sum of every guest's happiness.
    pub fn total_happiness(&self) -> (r: i64)
        requires
            self.wf(),
        ensures
            r == sum_rows(self@, self@.len() as int),
    {
        let mut total: i64 = 0;
        let mut g: usize = 0;
        while g < self.neighbour_relationships.len()
            invariant
                self.wf(),
                g <= self@.len(),
                self@.len() == self.neighbour_relationships@.len(),
                total == sum_rows(self@, g as int),
                -(g * (MAX_GUESTS * MAX_AFFINITY)) <= total <= g * (MAX_GUESTS * MAX_AFFINITY),
            decreases self@.len() - g,
        {
            assert(is_bounded_row(self@[g as int]));
            let h = Self::row_sum(&self.neighbour_relationships[g]);
            proof {
                lemma_row_sum_bound(self@[g as int]);
                let c = MAX_GUESTS * MAX_AFFINITY;
                assert(self@[g as int].len() * MAX_AFFINITY <= c) by (nonlinear_arith)
                    requires self@[g as int].len() <= MAX_GUESTS, c == MAX_GUESTS * MAX_AFFINITY;
                assert(g * c + c == (g + 1) * c) by (nonlinear_arith);
                assert((g + 1) * c <= MAX_GUESTS * c) by (nonlinear_arith)
                    requires g + 1 <= MAX_GUESTS, c >= 0;
            }
            total = total + h;
            g = g + 1;
        }
        total
    }

    /// Number of guests who like nobody at their table.
    pub fn n_lonely(&self) -> (r: usize)
        requires
            self.wf(),
        ensures
            r == count_lonely(self@, self@.len() as int),
    {
        let mut count: usize = 0;
        let mut g: usize = 0;
        while g < self.neighbour_relationships.len()
            invariant
                self.wf(),
                g <= self@.len(),
                self@.len() == self.neighbour_relationships@.len(),
                count == count_lonely(self@, g as int),
                count <= g,
            decreases self@.len() - g,
        {
            let row = &self.neighbour_relationships[g];
            assert(row@ == self@[g as int]);
            let mut lonely = true;
            let mut i: usize = 0;
            while i < row.len()
                invariant
                    i <= row@.len(),
                    lonely == forall|x: int| 0 <= x < i ==> #[trigger] row@[x] <= 0,
                decreases row@.len() - i,
            {
                if row[i] > 0 {
                    lonely = false;
                }
                i = i + 1;
            }
            if lonely {
                count = count + 1;
            }
            g = g + 1;
        }
        count
    }

    /// The largest happiness of any guest.
    pub fn max_happiness(&self) -> (r: i64)
        requires
            self.wf(),
            self@.len() > 0,
        ensures
            exists|g: int| 0 <= g < self@.len() && r == seq_sum(#[trigger] self@[g]),
            forall|g: int| 0 <= g < self@.len() ==> seq_sum(#[trigger] self@[g]) <= r,
    {
        let h = self.happinesses();
        let mut best = h[0];
        let mut g: usize = 1;
        while g < h.len()
            invariant
                h@.len() == self@.len(),
                forall|x: int| 0 <= x < h@.len() ==> #[trigger] h@[x] == seq_sum(self@[x]),
                1 <= g <= h@.len(),
                exists|x: int| 0 <= x < g && best == h@[x],
                forall|x: int| 0 <= x < g ==> #[trigger] h@[x] <= best,
            decreases h@.len() - g,
        {
            if h[g] > best {
                best = h[g];
            }
            g = g + 1;
        }
        assert forall|x: int| 0 <= x < self@.len() implies seq_sum(#[trigger] self@[x]) <= best by {
            assert(h@[x] <= best);
        }
        let ghost x = choose|x: int| 0 <= x < g && best == h@[x];
        assert(best == seq_sum(self@[x]));
        best
    }

    /// The smallest happiness of any guest.
    pub fn min_happiness(&self) -> (r: i64)
        requires
            self.wf(),
            self@.len() > 0,
        ensures
            exists|g: int| 0 <= g < self@.len() && r == seq_sum(#[trigger] self@[g]),
            forall|g: int| 0 <= g < self@.len() ==> r <= seq_sum(#[trigger] self@[g]),
    {
        let h = self.happinesses();
        let mut worst = h[0];
        let mut g: usize = 1;
        while g < h.len()
            invariant
                h@.len() == self@.len(),
                forall|x: int| 0 <= x < h@.len() ==> #[trigger] h@[x] == seq_sum(self@[x]),
                1 <= g <= h@.len(),
                exists|x: int| 0 <= x < g && worst == h@[x],
                forall|x: int| 0 <= x < g ==> worst <= #[trigger] h@[x],
            decreases h@.len() - g,
        {
            if h[g] < worst {
                worst = h[g];
            }
            g = g + 1;
        }
        assert forall|x: int| 0 <= x < self@.len() implies worst <= seq_sum(#[trigger] self@[x]) by {
            assert(worst <= h@[x]);
        }
        let ghost x = choose|x: int| 0 <= x < g && worst == h@[x];
        assert(worst == seq_sum(self@[x]));
        worst
    }
}

spec fn is_cold_row(row: Seq<i64>) -> bool {
    all_nonpositive(row) && seq_sum(row) <= 0
}

proof fn lemma_cold_rows(rows: Seq<Seq<i64>>, m: int)
    requires
        0 <= m <= rows.len(),
        forall|g: int| 0 <= g < rows.len() ==> #[trigger] is_cold_row(rows[g]),
    ensures
        count_lonely(rows, m) == m,
        sum_rows(rows, m) <= 0,
    decreases m,
{
    if m > 0 {
        lemma_cold_rows(rows, m - 1);
        assert(is_cold_row(rows[m - 1]));
    }
}

/// Where nobody likes anybody, the metrics of any plan count every guest as
/// lonely and give a total happiness that is not positive.
pub proof fn lemma_all_lonely_metrics(rel: Seq<Seq<i64>>, p: Seq<Seq<usize>>, rows: Seq<Seq<i64>>)
    requires
        crate::relations::is_bounded_square(rel),
        seats_all(rel, p),
        forall|i: int, j: int| 0 <= i < rel.len() && 0 <= j < rel.len() ==> #[trigger] rel[i][j] <= 0,
        rows.len() == rel.len(),
        forall|t: int, s: int|
            is_seat(p, t, s) ==> rows[#[trigger] p[t][s] as int] == neighbour_row(rel, p[t], s, p[t].len() as int),
    ensures
        count_lonely(rows, rows.len() as int) == rel.len(),
        sum_rows(rows, rows.len() as int) <= 0,
{
    assert forall|g: int| 0 <= g < rows.len() implies #[trigger] is_cold_row(rows[g]) by {
        assert(crate::plan::is_seated(p, g));
        let (t, s) = choose|t: int, s: int| is_seat(p, t, s) && #[trigger] p[t][s] == g;
        let table = p[t];
        assert forall|x: int| 0 <= x < table.len() implies #[trigger] table[x] < rel.len() by {
            assert(is_seat(p, t, x));
        }
        assert forall|b: int| 0 <= b < table.len() implies #[trigger] pair_affinity(rel, table, s, b) <= 0 by {
            assert(table[s] < rel.len() && table[b] < rel.len());
        }
        lemma_neighbour_row(rel, table, s, table.len() as int);
        lemma_cold_seat(rel, table, s, table.len() as int);
    }
    lemma_cold_rows(rows, rows.len() as int);
}

spec fn sum_to(n: int, f: spec_fn(int) -> int) -> int
    decreases n,
{
    if n <= 0 {
        0
    } else {
        sum_to(n - 1, f) + f(n - 1)
    }
}

proof fn lemma_sum_ext(n: int, f: spec_fn(int) -> int, g: spec_fn(int) -> int)
    requires
        forall|i: int| 0 <= i < n ==> #[trigger] f(i) == g(i),
    ensures
        sum_to(n, f) == sum_to(n, g),
    decreases n,
{
    if n > 0 {
        lemma_sum_ext(n - 1, f, g);
    }
}

proof fn lemma_sum_add(n: int, f: spec_fn(int) -> int, g: spec_fn(int) -> int)
    ensures
        sum_to(n, |i: int| f(i) + g(i)) == sum_to(n, f) + sum_to(n, g),
    decreases n,
{
    if n > 0 {
        lemma_sum_add(n - 1, f, g);
    }
}

proof fn lemma_sum_single(n: int, f: spec_fn(int) -> int, x: int)
    requires
        0 <= x < n,
        forall|i: int| 0 <= i < n && i != x ==> #[trigger] f(i) == 0,
    ensures
        sum_to(n, f) == f(x),
    decreases n,
{
    lemma_sum_zero_below(x, f);
    lemma_sum_zero_from(n, x + 1, f);
}

proof fn lemma_sum_zero_below(n: int, f: spec_fn(int) -> int)
    requires
        forall|i: int| 0 <= i < n ==> #[trigger] f(i) == 0,
    ensures
        sum_to(n, f) == 0,
    decreases n,
{
    if n > 0 {
        lemma_sum_zero_below(n - 1, f);
    }
}

proof fn lemma_sum_zero_from(n: int, m: int, f: spec_fn(int) -> int)
    requires
        0 < m <= n,
        forall|i: int| m <= i < n ==> #[trigger] f(i) == 0,
    ensures
        sum_to(n, f) == sum_to(m, f),
    decreases n - m,
{
    if n > m {
        lemma_sum_zero_from(n - 1, m, f);
    }
}

proof fn lemma_sum_exchange(a: int, b: int, f: spec_fn(int, int) -> int)
    requires
        0 <= a,
    ensures
        sum_to(a, |x: int| sum_to(b, |y: int| f(x, y))) == sum_to(b, |y: int| sum_to(a, |x: int| f(x, y))),
    decreases a,
{
    let outer = |x: int| sum_to(b, |y: int| f(x, y));
    let whole = |y: int| sum_to(a, |x: int| f(x, y));
    if a == 0 {
        lemma_sum_zero_below(b, whole);
    } else {
        lemma_sum_exchange(a - 1, b, f);
        let prev = |y: int| sum_to(a - 1, |x: int| f(x, y));
        let last = |y: int| f(a - 1, y);
        let split = |y: int| prev(y) + last(y);
        assert(sum_to(a - 1, outer) == sum_to(b, prev));
        lemma_sum_ext(b, |y: int| f(a - 1, y), last);
        assert(outer(a - 1) == sum_to(b, last));
        lemma_sum_add(b, prev, last);
        assert forall|y: int| 0 <= y < b implies #[trigger] whole(y) == split(y) by {
            let col = |x: int| f(x, y);
            assert(sum_to(a, col) == sum_to(a - 1, col) + col(a - 1));
        }
        lemma_sum_ext(b, whole, split);
        assert(sum_to(a, outer) == sum_to(a - 1, outer) + outer(a - 1));
    }
}

proof fn lemma_rows_as_sum(rows: Seq<Seq<i64>>, m: int)
    requires
        0 <= m,
    ensures
        sum_rows(rows, m) == sum_to(m, |g: int| seq_sum(rows[g])),
    decreases m,
{
    if m > 0 {
        lemma_rows_as_sum(rows, m - 1);
    }
}

proof fn lemma_table_as_sum(rel: Seq<Seq<i64>>, table: Seq<usize>, m: int)
    requires
        0 <= m,
    ensures
        table_happiness(rel, table, m) == sum_to(m, |s: int| seat_happiness(rel, table, s, table.len() as int)),
    decreases m,
{
    if m > 0 {
        lemma_table_as_sum(rel, table, m - 1);
    }
}

proof fn lemma_plan_as_sum(rel: Seq<Seq<i64>>, p: Seq<Seq<usize>>, k: int)
    requires
        0 <= k,
    ensures
        plan_happiness(rel, p, k) == sum_to(k, |t: int| table_happiness(rel, p[t], p[t].len() as int)),
    decreases k,
{
    if k > 0 {
        lemma_plan_as_sum(rel, p, k - 1);
    }
}

/// In the metrics of a plan that seats every guest once, the happiness
/// summed guest by guest equals the happiness summed seat by seat.
pub proof fn lemma_guest_total_is_seat_total(rel: Seq<Seq<i64>>, p: Seq<Seq<usize>>, rows: Seq<Seq<i64>>)
    requires
        crate::relations::is_bounded_square(rel),
        seats_all(rel, p),
        rows.len() == rel.len(),
        forall|t: int, s: int|
            is_seat(p, t, s) ==> rows[#[trigger] p[t][s] as int] == neighbour_row(rel, p[t], s, p[t].len() as int),
    ensures
        sum_rows(rows, rows.len() as int) == plan_happiness(rel, p, p.len() as int),
{
    let n = rel.len() as int;
    let k = p.len() as int;
    let size = n / k;
    let h = |g: int| seq_sum(rows[g]);
    lemma_guest_sum_is_seat_sum(p, n, h);
    lemma_rows_as_sum(rows, n);
    lemma_sum_ext(n, |g: int| seq_sum(rows[g]), h);
    lemma_plan_as_sum(rel, p, k);
    let tables = |t: int| table_happiness(rel, p[t], p[t].len() as int);
    let seats = |t: int| sum_to(size, |s: int| h(p[t][s] as int));
    assert forall|t: int| 0 <= t < k implies #[trigger] tables(t) == seats(t) by {
        let table = p[t];
        assert(table.len() == size);
        assert forall|x: int| 0 <= x < table.len() implies #[trigger] table[x] < rel.len() by {
            assert(is_seat(p, t, x));
        }
        lemma_table_as_sum(rel, table, size);
        let seat = |s: int| seat_happiness(rel, table, s, table.len() as int);
        let via_rows = |s: int| h(p[t][s] as int);
        assert forall|s: int| 0 <= s < size implies #[trigger] seat(s) == via_rows(s) by {
            assert(is_seat(p, t, s));
            lemma_neighbour_row(rel, table, s, table.len() as int);
        }
        lemma_sum_ext(size, seat, via_rows);
    }
    lemma_sum_ext(k, tables, seats);
}

/// On a symmetric graph, the metrics' total happiness of a plan counts the
/// affinity of every pair of table-mates twice.
pub proof fn lemma_metrics_double_count(rel: Seq<Seq<i64>>, p: Seq<Seq<usize>>, rows: Seq<Seq<i64>>)
    requires
        crate::relations::is_bounded_square(rel),
        crate::relations::is_symmetric(rel),
        seats_all(rel, p),
        rows.len() == rel.len(),
        forall|t: int, s: int|
            is_seat(p, t, s) ==> rows[#[trigger] p[t][s] as int] == neighbour_row(rel, p[t], s, p[t].len() as int),
    ensures
        sum_rows(rows, rows.len() as int) == 2 * plan_pairs(rel, p, p.len() as int),
{
    lemma_guest_total_is_seat_total(rel, p, rows);
    lemma_double_count(rel, p, p.len() as int);
}

/// Summing a value per guest over the guests of a partition equals summing
/// it over the seats.
proof fn lemma_guest_sum_is_seat_sum(p: Seq<Seq<usize>>, n: int, h: spec_fn(int) -> int)
    requires
        0 <= n,
        is_partition(p, n as nat, p.len()),
    ensures
        sum_to(n, h) == sum_to(p.len() as int, |t: int| sum_to(n / (p.len() as int), |s: int| h(p[t][s] as int))),
{
    let k = p.len() as int;
    let size = n / k;
    let share = |t: int, s: int, g: int| if p[t][s] == g { h(g) } else { 0 };
    let by_seat = |t: int| sum_to(size, |s: int| h(p[t][s] as int));
    let by_guest = |t: int| sum_to(n, |g: int| sum_to(size, |s: int| share(t, s, g)));
    assert forall|t: int| 0 <= t < k implies #[trigger] by_seat(t) == by_guest(t) by {
        assert(p[t].len() == size);
        let seat = |s: int| h(p[t][s] as int);
        let spread = |s: int| sum_to(n, |g: int| share(t, s, g));
        assert forall|s: int| 0 <= s < size implies #[trigger] seat(s) == spread(s) by {
            assert(crate::plan::is_seat(p, t, s));
            lemma_sum_single(n, |g: int| share(t, s, g), p[t][s] as int);
        }
        lemma_sum_ext(size, seat, spread);
        let f = |s: int, g: int| share(t, s, g);
        lemma_sum_exchange(size, n, f);
        let rows_f = |x: int| sum_to(n, |y: int| f(x, y));
        assert forall|x: int| 0 <= x < size implies #[trigger] spread(x) == rows_f(x) by {
            lemma_sum_ext(n, |g: int| share(t, x, g), |y: int| f(x, y));
        }
        lemma_sum_ext(size, spread, rows_f);
        let cols = |g: int| sum_to(size, |s: int| share(t, s, g));
        let cols_f = |y: int| sum_to(size, |x: int| f(x, y));
        assert forall|g: int| 0 <= g < n implies #[trigger] cols(g) == cols_f(g) by {
            lemma_sum_ext(size, |s: int| share(t, s, g), |x: int| f(x, g));
        }
        lemma_sum_ext(n, cols, cols_f);
    }
    lemma_sum_ext(k, by_seat, by_guest);
    let g2 = |t: int, g: int| sum_to(size, |s: int| share(t, s, g));
    lemma_sum_exchange(k, n, g2);
    let rows_g = |x: int| sum_to(n, |y: int| g2(x, y));
    assert forall|x: int| 0 <= x < k implies #[trigger] by_guest(x) == rows_g(x) by {
        lemma_sum_ext(n, |g: int| sum_to(size, |s: int| share(x, s, g)), |y: int| g2(x, y));
    }
    lemma_sum_ext(k, by_guest, rows_g);
    let per_guest = |g: int| sum_to(k, |t: int| g2(t, g));
    assert forall|g: int| 0 <= g < n implies #[trigger] per_guest(g) == h(g) by {
        assert(crate::plan::is_seated(p, g));
        let (t0, s0) = choose|t: int, s: int| is_seat(p, t, s) && #[trigger] p[t][s] == g;
        let at = |t: int| g2(t, g);
        assert forall|t: int| 0 <= t < k && t != t0 implies #[trigger] at(t) == 0 by {
            let row = |s: int| share(t, s, g);
            assert forall|s: int| 0 <= s < size implies #[trigger] row(s) == 0 by {
                assert(p[t].len() == size);
                assert(is_seat(p, t, s));
                if p[t][s] == g {
                    assert(t == t0);
                }
            }
            lemma_sum_zero_below(size, row);
        }
        let row0 = |s: int| share(t0, s, g);
        assert forall|s: int| 0 <= s < size && s != s0 implies #[trigger] row0(s) == 0 by {
            assert(p[t0].len() == size);
            assert(is_seat(p, t0, s));
        }
        assert(p[t0].len() == size);
        lemma_sum_single(size, row0, s0);
        lemma_sum_single(k, at, t0);
    }
    let swapped_sum = |y: int| sum_to(k, |x: int| g2(x, y));
    lemma_sum_ext(n, swapped_sum, h);
}

proof fn lemma_lonely_rows_as_sum(rows: Seq<Seq<i64>>, m: int)
    requires
        0 <= m,
    ensures
        count_lonely(rows, m) == sum_to(m, |g: int| if all_nonpositive(rows[g]) { 1int } else { 0int }),
    decreases m,
{
    if m > 0 {
        lemma_lonely_rows_as_sum(rows, m - 1);
    }
}

proof fn lemma_lonely_table_as_sum(rel: Seq<Seq<i64>>, table: Seq<usize>, m: int)
    requires
        0 <= m,
    ensures
        lonely_in_table(rel, table, m) == sum_to(m, |s: int| if is_lonely_seat(rel, table, s) { 1int } else { 0int }),
    decreases m,
{
    if m > 0 {
        lemma_lonely_table_as_sum(rel, table, m - 1);
    }
}

proof fn lemma_lonely_plan_as_sum(rel: Seq<Seq<i64>>, p: Seq<Seq<usize>>, k: int)
    requires
        0 <= k,
    ensures
        lonely_in_plan(rel, p, k) == sum_to(k, |t: int| lonely_in_table(rel, p[t], p[t].len() as int)),
    decreases k,
{
    if k > 0 {
        lemma_lonely_plan_as_sum(rel, p, k - 1);
    }
}

/// In the metrics of a plan that seats every guest once, the lonely guests
/// counted guest by guest are those counted seat by seat.
pub proof fn lemma_guest_lonely_is_seat_lonely(rel: Seq<Seq<i64>>, p: Seq<Seq<usize>>, rows: Seq<Seq<i64>>)
    requires
        crate::relations::is_bounded_square(rel),
        seats_all(rel, p),
        rows.len() == rel.len(),
        forall|t: int, s: int|
            is_seat(p, t, s) ==> rows[#[trigger] p[t][s] as int] == neighbour_row(rel, p[t], s, p[t].len() as int),
    ensures
        count_lonely(rows, rows.len() as int) == lonely_in_plan(rel, p, p.len() as int),
{
    let n = rel.len() as int;
    let k = p.len() as int;
    let size = n / k;
    let h = |g: int| if all_nonpositive(rows[g]) { 1int } else { 0int };
    lemma_guest_sum_is_seat_sum(p, n, h);
    lemma_lonely_rows_as_sum(rows, n);
    lemma_lonely_plan_as_sum(rel, p, k);
    let tables = |t: int| lonely_in_table(rel, p[t], p[t].len() as int);
    let seats = |t: int| sum_to(size, |s: int| h(p[t][s] as int));
    assert forall|t: int| 0 <= t < k implies #[trigger] tables(t) == seats(t) by {
        let table = p[t];
        assert(table.len() == size);
        assert forall|x: int| 0 <= x < table.len() implies #[trigger] table[x] < rel.len() by {
            assert(is_seat(p, t, x));
        }
        lemma_lonely_table_as_sum(rel, table, size);
        let lonely = |s: int| if is_lonely_seat(rel, table, s) { 1int } else { 0int };
        let via_rows = |s: int| h(p[t][s] as int);
        assert forall|s: int| 0 <= s < size implies #[trigger] lonely(s) == via_rows(s) by {
            assert(is_seat(p, t, s));
            lemma_neighbour_row(rel, table, s, table.len() as int);
        }
        lemma_sum_ext(size, lonely, via_rows);
    }
    lemma_sum_ext(k, tables, seats);
}

} // verus!
