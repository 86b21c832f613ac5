use vstd::prelude::*;
use vstd::arithmetic::div_mod::lemma_fundamental_div_mod;

use crate::random::{draw_below, shuffle};

verus! {

/// A seating plan: a list of tables, each a list of guests.
/// The order of tables and of guests within a table carries no meaning.
pub type Plan = Vec<Vec<usize>>;

/// The guests of each table, as sequences.
pub open spec fn plan_view(p: &Plan) -> Seq<Seq<usize>> {
    p@.map_values(|table: Vec<usize>| table@)
}

/// `(t, s)` names a seat of the plan.
pub open spec fn is_seat(p: Seq<Seq<usize>>, t: int, s: int) -> bool {
    0 <= t < p.len() && 0 <= s < p[t].len()
}

/// Every guest `0..n` sits in exactly one seat and no seat holds anyone else.
pub open spec fn is_assignment(p: Seq<Seq<usize>>, n: nat) -> bool {
    &&& forall|t: int, s: int| is_seat(p, t, s) ==> #[trigger] p[t][s] < n
    &&& forall|t1: int, s1: int, t2: int, s2: int|
        is_seat(p, t1, s1) && is_seat(p, t2, s2) && #[trigger] p[t1][s1] == #[trigger] p[t2][s2]
            ==> t1 == t2 && s1 == s2
    &&& forall|g: int| 0 <= g < n ==> #[trigger] is_seated(p, g)
}

/// Guest `g` sits somewhere in the plan.
pub open spec fn is_seated(p: Seq<Seq<usize>>, g: int) -> bool {
    exists|t: int, s: int| is_seat(p, t, s) && #[trigger] p[t][s] == g
}

/// The plan splits guests `0..n` into `k` tables of `n / k` guests each.
pub open spec fn is_partition(p: Seq<Seq<usize>>, n: nat, k: nat) -> bool {
    &&& k > 0
    &&& n % k == 0
    &&& p.len() == k
    &&& forall|t: int| 0 <= t < k ==> #[trigger] p[t].len() == n / k
    &&& is_assignment(p, n)
}

/// An exchange of the guests sitting at two seats.
#[derive(Debug, Clone, Copy, PartialEq, Eq, Hash)]
pub struct Swap {
    pub table1: usize,
    pub seat1: usize,
    pub table2: usize,
    pub seat2: usize,
}

/// Both seats of the swap exist in the plan.
pub open spec fn swap_fits(p: Seq<Seq<usize>>, sw: Swap) -> bool {
    is_seat(p, sw.table1 as int, sw.seat1 as int) && is_seat(p, sw.table2 as int, sw.seat2 as int)
}

/// The plan after the occupants of the two seats change places.
pub open spec fn swapped(p: Seq<Seq<usize>>, sw: Swap) -> Seq<Seq<usize>> {
    let (t1, s1, t2, s2) = (sw.table1 as int, sw.seat1 as int, sw.table2 as int, sw.seat2 as int);
    let a = p[t1][s1];
    let b = p[t2][s2];
    let q = p.update(t1, p[t1].update(s1, b));
    q.update(t2, q[t2].update(s2, a))
}

/// Applying the same swap twice restores the plan.
pub proof fn lemma_swap_twice(p: Seq<Seq<usize>>, sw: Swap)
    requires
        swap_fits(p, sw),
    ensures
        swap_fits(swapped(p, sw), sw),
        swapped(swapped(p, sw), sw) == p,
{
    let q = swapped(p, sw);
    let r = swapped(q, sw);
    assert forall|t: int| 0 <= t < p.len() implies r[t] =~= p[t] by {}
    assert(r =~= p);
}

/// A swap moves guests between seats without changing the table sizes or
/// who is seated.
pub proof fn lemma_swap_keeps_partition(p: Seq<Seq<usize>>, sw: Swap, n: nat, k: nat)
    requires
        is_partition(p, n, k),
        swap_fits(p, sw),
    ensures
        is_partition(swapped(p, sw), n, k),
{
    let q = swapped(p, sw);
    let (t1, s1, t2, s2) = (sw.table1 as int, sw.seat1 as int, sw.table2 as int, sw.seat2 as int);
    // Where the occupant of each seat of `q` sat in `p`.
    let src = |t: int, s: int|
        if t == t2 && s == s2 {
            (t1, s1)
        } else if t == t1 && s == s1 {
            (t2, s2)
        } else {
            (t, s)
        };
    assert forall|t: int, s: int| is_seat(q, t, s) implies is_seat(p, src(t, s).0, src(t, s).1)
        && #[trigger] q[t][s] == p[src(t, s).0][src(t, s).1] by {}
    assert forall|t: int, s: int| is_seat(q, t, s) implies #[trigger] q[t][s] < n by {
        assert(p[src(t, s).0][src(t, s).1] < n);
    }
    assert forall|ta: int, sa: int, tb: int, sb: int|
        is_seat(q, ta, sa) && is_seat(q, tb, sb) && #[trigger] q[ta][sa] == #[trigger] q[tb][sb]
        implies ta == tb && sa == sb by {
        let (pa, qa) = src(ta, sa);
        let (pb, qb) = src(tb, sb);
        assert(p[pa][qa] == p[pb][qb]);
    }
    assert forall|g: int| 0 <= g < n implies #[trigger] is_seated(q, g) by {
        assert(is_seated(p, g));
        let (t, s) = choose|t: int, s: int| is_seat(p, t, s) && #[trigger] p[t][s] == g;
        let (u, v) = src(t, s);
        assert(src(u, v) == (t, s));
        assert(q[u][v] == g);
    }
}

/// Exchanges the guests at the two seats of the swap.
pub fn make_swap(plan: &mut Plan, swap: Swap)
    requires
        swap_fits(plan_view(old(plan)), swap),
    ensures
        plan_view(final(plan)) == swapped(plan_view(old(plan)), swap),
{
    let ghost p = plan_view(plan);
    let a = plan[swap.table1][swap.seat1];
    let b = plan[swap.table2][swap.seat2];
    let mut row: Vec<usize> = Vec::new();
    plan.set_and_swap(swap.table1, &mut row);
    row.set(swap.seat1, b);
    plan.set_and_swap(swap.table1, &mut row);
    let ghost q = p.update(swap.table1 as int, p[swap.table1 as int].update(swap.seat1 as int, b));
    assert(plan_view(plan) =~= q);
    let mut row: Vec<usize> = Vec::new();
    plan.set_and_swap(swap.table2, &mut row);
    row.set(swap.seat2, a);
    plan.set_and_swap(swap.table2, &mut row);
    assert(plan_view(plan) =~= swapped(p, swap));
}

/// Picks two seats, each table and each seat uniformly and independently.
/// The two seats may coincide or share a table.
pub fn random_swap(rng: &mut rand::rngs::StdRng, n_tables: usize, table_size: usize) -> (r: Swap)
    requires
        n_tables > 0,
        table_size > 0,
    ensures
        r.table1 < n_tables,
        r.table2 < n_tables,
        r.seat1 < table_size,
        r.seat2 < table_size,
{
    let table1 = draw_below(rng, n_tables);
    let table2 = draw_below(rng, n_tables);
    let seat1 = draw_below(rng, table_size);
    let seat2 = draw_below(rng, table_size);
    Swap { table1, seat1, table2, seat2 }
}

proof fn lemma_seat_index(t: int, s: int, size: int, k: int)
    requires
        0 <= t < k,
        0 <= s < size,
    ensures
        0 <= t * size + s < k * size,
{
    assert(t * size <= (k - 1) * size) by (nonlinear_arith)
        requires t <= k - 1, 0 <= size;
    assert((k - 1) * size + size == k * size) by (nonlinear_arith);
    assert(0 <= t * size) by (nonlinear_arith)
        requires 0 <= t, 0 <= size;
}

proof fn lemma_seat_index_unique(t1: int, s1: int, t2: int, s2: int, size: int)
    requires
        0 <= t1,
        0 <= t2,
        0 <= s1 < size,
        0 <= s2 < size,
        t1 * size + s1 == t2 * size + s2,
    ensures
        t1 == t2,
        s1 == s2,
{
    if t1 < t2 {
        assert(t1 * size + size <= t2 * size) by (nonlinear_arith)
            requires t1 < t2, 0 <= size;
    } else if t2 < t1 {
        assert(t2 * size + size <= t1 * size) by (nonlinear_arith)
            requires t2 < t1, 0 <= size;
    }
}

proof fn lemma_seat_of_index(j: int, size: int, k: int)
    requires
        0 <= j < k * size,
        size > 0,
    ensures
        0 <= j / size < k,
        0 <= j % size < size,
        (j / size) * size + j % size == j,
{
    lemma_fundamental_div_mod(j, size);
    assert((j / size) * size == size * (j / size)) by (nonlinear_arith);
    if j / size >= k {
        assert(size * (j / size) >= size * k) by (nonlinear_arith)
            requires j / size >= k, size > 0;
        assert(size * k == k * size) by (nonlinear_arith);
    }
    if j / size < 0 {
        assert(size * (j / size) <= -size) by (nonlinear_arith)
            requires j / size < 0, size > 0;
    }
}

/// Seats the guests `0..n_guests` in a uniformly random order, filling
/// `n_tables` tables of equal size one after another.
pub fn random_plan(rng: &mut rand::rngs::StdRng, n_guests: usize, n_tables: usize) -> (r: Plan)
    requires
        n_tables > 0,
        n_guests % n_tables == 0,
    ensures
        is_partition(plan_view(&r), n_guests as nat, n_tables as nat),
{
    let mut permutation: Vec<usize> = Vec::new();
    let mut i: usize = 0;
    while i < n_guests
        invariant
            i <= n_guests,
            permutation@ == Seq::new(i as nat, |x: int| x as usize),
        decreases n_guests - i,
    {
        permutation.push(i);
        i = i + 1;
    }
    let ghost ordered = permutation@;
    shuffle(&mut permutation, rng);
    let ghost perm = permutation@;
    assert(perm.to_multiset() == ordered.to_multiset());
    proof {
        broadcast use vstd::seq_lib::group_seq_properties;
        broadcast use vstd::multiset::group_multiset_axioms;
        assert(ordered.no_duplicates());
        ordered.to_multiset_ensures();
        perm.to_multiset_ensures();
        ordered.lemma_multiset_has_no_duplicates();
        perm.lemma_multiset_has_no_duplicates_conv();
        assert forall|g: usize| g < n_guests implies #[trigger] perm.contains(g) by {
            assert(ordered[g as int] == g);
            assert(ordered.contains(g));
            assert(ordered.to_multiset().count(g) > 0);
            assert(perm.to_multiset().count(g) > 0);
        }
        assert forall|j: int| 0 <= j < perm.len() implies perm[j] < n_guests by {
            assert(perm.contains(perm[j]));
            assert(perm.to_multiset().count(perm[j]) > 0);
            assert(ordered.to_multiset().count(perm[j]) > 0);
            assert(ordered.contains(perm[j]));
        }
    }
    let table_size = n_guests / n_tables;
    proof {
        lemma_fundamental_div_mod(n_guests as int, n_tables as int);
        assert(n_tables * table_size == table_size * n_tables) by (nonlinear_arith);
    }
    let mut plan: Plan = Vec::new();
    let mut t: usize = 0;
    while t < n_tables
        invariant
            t <= n_tables,
            n_guests == n_tables * table_size,
            perm.len() == n_guests,
            permutation@ == perm,
            plan@.len() == t,
            forall|u: int| 0 <= u < t ==> #[trigger] plan@[u]@.len() == table_size,
            forall|u: int, s: int|
                0 <= u < t && 0 <= s < table_size ==> #[trigger] plan@[u]@[s] == perm[u * table_size + s],
        decreases n_tables - t,
    {
        proof {
            assert(t * table_size + table_size <= n_tables * table_size) by (nonlinear_arith)
                requires t < n_tables, 0 <= table_size;
        }
        let start = t * table_size;
        let mut table: Vec<usize> = Vec::new();
        let mut s: usize = 0;
        while s < table_size
            invariant
                s <= table_size,
                start == t * table_size,
                start + table_size <= n_guests,
                perm.len() == n_guests,
                permutation@ == perm,
                table@.len() == s,
                forall|x: int| 0 <= x < s ==> #[trigger] table@[x] == perm[start + x],
            decreases table_size - s,
        {
            table.push(permutation[start + s]);
            s = s + 1;
        }
        plan.push(table);
        t = t + 1;
    }
    proof {
        let p = plan_view(&plan);
        let n = n_guests as nat;
        let k = n_tables as nat;
        let size = table_size as int;
        assert(n / k == table_size) by {
            lemma_fundamental_div_mod(n_guests as int, n_tables as int);
        }
        assert forall|u: int| 0 <= u < k implies #[trigger] p[u].len() == n / k by {
            assert(plan@[u]@.len() == table_size);
        }
        assert forall|u: int, s: int| is_seat(p, u, s) implies #[trigger] p[u][s] < n
            && p[u][s] == perm[u * size + s] && 0 <= u * size + s < n by {
            assert(plan@[u]@.len() == table_size);
            assert(plan@[u]@[s] == perm[u * size + s]);
            lemma_seat_index(u, s, size, k as int);
        }
        assert forall|t1: int, s1: int, t2: int, s2: int|
            is_seat(p, t1, s1) && is_seat(p, t2, s2) && #[trigger] p[t1][s1] == #[trigger] p[t2][s2]
            implies t1 == t2 && s1 == s2 by {
            assert(p[t1][s1] == perm[t1 * size + s1]);
            assert(p[t2][s2] == perm[t2 * size + s2]);
            lemma_seat_index_unique(t1, s1, t2, s2, size);
        }
        assert forall|g: int| 0 <= g < n implies #[trigger] is_seated(p, g) by {
            assert(perm.contains(g as usize));
            let j = choose|j: int| 0 <= j < perm.len() && perm[j] == g as usize;
            assert(size > 0) by {
                if size == 0 {
                    assert(k * size == 0) by (nonlinear_arith)
                        requires size == 0;
                }
            }
            lemma_seat_of_index(j, size, k as int);
            let u = j / size;
            let s = j % size;
            assert(plan@[u]@.len() == table_size);
            assert(plan@[u]@[s] == perm[u * size + s]);
            assert(p[u][s] == g);
        }
    }
    plan
}

} // verus!
