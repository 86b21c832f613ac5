use vstd::prelude::*;

use crate::random::{choose_from, draw_at_most, draw_below};
use crate::relations::{
    has_zero_diagonal, is_bounded_square, is_symmetric, matrix_view, GuestRelations, MAX_GUESTS,
};

verus! {

/// The values of a list of lists of guests.
pub open spec fn lists_view(l: &Vec<Vec<usize>>) -> Seq<Seq<usize>> {
    l@.map_values(|v: Vec<usize>| v@)
}

/// Guests `i` and `j` are different and sit in the same block of `size`.
pub open spec fn same_block(i: int, j: int, size: int) -> bool {
    i != j && i / size == j / size
}

/// Affinity of complete components: everyone knows the others of their block.
pub open spec fn component_affinity(i: int, j: int, size: int) -> i64 {
    if same_block(i, j, size) {
        1
    } else {
        0
    }
}

/// Affinity of rings: each guest knows the next and the previous one around
/// their block, but never themself.
pub open spec fn ring_affinity(i: int, j: int, size: int) -> i64 {
    if i != j && i / size == j / size && (j % size == (i % size + 1) % size || i % size == (j % size + 1)
        % size) {
        1
    } else {
        0
    }
}

/// Affinity of two halves: everyone knows the others of their half, the
/// first `half` guests forming one half.
pub open spec fn halves_affinity(i: int, j: int, half: int) -> i64 {
    if i != j && (i < half) == (j < half) {
        1
    } else {
        0
    }
}

proof fn lemma_positive_size(n: int, k: int, size: int)
    requires
        n == k * size,
        n > 0,
        k >= 0,
        size >= 0,
    ensures
        size > 0,
{
    if size == 0 {
        assert(k * size == 0) by (nonlinear_arith)
            requires size == 0;
    }
}

/// A rule that gives the affinity of every pair of guests.
#[derive(Debug, Clone, Copy, PartialEq, Eq)]
enum Pattern {
    Components(usize),
    Rings(usize),
    Halves(usize),
}

spec fn pattern_affinity(pattern: Pattern, i: int, j: int) -> i64 {
    match pattern {
        Pattern::Components(size) => component_affinity(i, j, size as int),
        Pattern::Rings(size) => ring_affinity(i, j, size as int),
        Pattern::Halves(half) => halves_affinity(i, j, half as int),
    }
}

spec fn pattern_fits(pattern: Pattern) -> bool {
    match pattern {
        Pattern::Components(size) => size > 0,
        Pattern::Rings(size) => size > 0,
        Pattern::Halves(_) => true,
    }
}

fn pattern_cell(pattern: Pattern, i: usize, j: usize) -> (v: i64)
    requires
        pattern_fits(pattern),
    ensures
        v == pattern_affinity(pattern, i as int, j as int),
{
    match pattern {
        Pattern::Components(size) => {
            if i != j && i / size == j / size {
                1
            } else {
                0
            }
        },
        Pattern::Rings(size) => {
            if i != j && i / size == j / size && (j % size == (i % size + 1) % size || i % size == (j % size
                + 1) % size) {
                1
            } else {
                0
            }
        },
        Pattern::Halves(half) => {
            if i != j && (i < half) == (j < half) {
                1
            } else {
                0
            }
        },
    }
}

/// The square matrix of side `n` that the pattern gives.
fn pattern_matrix(n: usize, pattern: Pattern) -> (r: Vec<Vec<i64>>)
    requires
        n > 0 ==> pattern_fits(pattern),
    ensures
        matrix_view(&r).len() == n,
        forall|i: int| 0 <= i < n ==> #[trigger] matrix_view(&r)[i].len() == n,
        forall|i: int, j: int|
            0 <= i < n && 0 <= j < n ==> #[trigger] matrix_view(&r)[i][j] == pattern_affinity(pattern, i, j),
{
    let mut rows: Vec<Vec<i64>> = Vec::new();
    let mut i: usize = 0;
    while i < n
        invariant
            i <= n,
            n > 0 ==> pattern_fits(pattern),
            rows@.len() == i,
            forall|a: int| 0 <= a < i ==> #[trigger] rows@[a]@.len() == n,
            forall|a: int, b: int| 0 <= a < i && 0 <= b < n ==> #[trigger] rows@[a]@[b] == pattern_affinity(pattern, a, b),
        decreases n - i,
    {
        let mut row: Vec<i64> = Vec::new();
        let mut j: usize = 0;
        while j < n
            invariant
                i < n,
                j <= n,
                pattern_fits(pattern),
                row@.len() == j,
                forall|b: int| 0 <= b < j ==> #[trigger] row@[b] == pattern_affinity(pattern, i as int, b),
            decreases n - j,
        {
            row.push(pattern_cell(pattern, i, j));
            j = j + 1;
        }
        rows.push(row);
        i = i + 1;
    }
    rows
}

/// Tables where everyone knows each other: guests `0..table_size` form the
/// first table, the next `table_size` the second, and so on.
pub fn complete_components(n_tables: usize, table_size: usize) -> (r: GuestRelations)
    requires
        n_tables * table_size <= MAX_GUESTS,
    ensures
        r.wf(),
        r@.len() == n_tables * table_size,
        is_symmetric(r@),
        has_zero_diagonal(r@),
        forall|i: int, j: int|
            0 <= i < r@.len() && 0 <= j < r@.len() ==> #[trigger] r@[i][j] == component_affinity(i, j, table_size as int),
{
    let n = n_tables * table_size;
    if n > 0 {
        proof {
            lemma_positive_size(n as int, n_tables as int, table_size as int);
        }
    }
    let rows = pattern_matrix(n, Pattern::Components(table_size));
    GuestRelations::new(rows)
}

/// Tables of guests who each know their two neighbours around the table.
pub fn rings(n_tables: usize, table_size: usize) -> (r: GuestRelations)
    requires
        n_tables * table_size <= MAX_GUESTS,
    ensures
        r.wf(),
        r@.len() == n_tables * table_size,
        is_symmetric(r@),
        has_zero_diagonal(r@),
        forall|i: int, j: int|
            0 <= i < r@.len() && 0 <= j < r@.len() ==> #[trigger] r@[i][j] == ring_affinity(i, j, table_size as int),
{
    let n = n_tables * table_size;
    if n > 0 {
        proof {
            lemma_positive_size(n as int, n_tables as int, table_size as int);
        }
    }
    let rows = pattern_matrix(n, Pattern::Rings(table_size));
    GuestRelations::new(rows)
}

/// Two halves of `n` guests, everyone knowing the others of their half; the
/// first half holds the first `n / 2` guests.
pub fn spousal_partition(n: usize) -> (r: GuestRelations)
    requires
        n <= MAX_GUESTS,
    ensures
        r.wf(),
        r@.len() == n,
        is_symmetric(r@),
        has_zero_diagonal(r@),
        forall|i: int, j: int|
            0 <= i < n && 0 <= j < n ==> #[trigger] r@[i][j] == halves_affinity(i, j, (n / 2) as int),
{
    let rows = pattern_matrix(n, Pattern::Halves(n / 2));
    GuestRelations::new(rows)
}

/// `n` lists of guests `0..n`, where `j` is on the list of `i` just when `i`
/// is on the list of `j`.
pub open spec fn is_friendship(l: Seq<Seq<usize>>, n: nat) -> bool {
    &&& l.len() == n
    &&& forall|i: int, x: int| 0 <= i < n && 0 <= x < l[i].len() ==> #[trigger] l[i][x] < n
    &&& forall|i: usize, j: usize|
        i < n && j < n && #[trigger] l[i as int].contains(j) ==> l[j as int].contains(i)
}

/// `b` starts with the entries of `a`.
pub open spec fn extends(a: Seq<usize>, b: Seq<usize>) -> bool {
    a.len() <= b.len() && forall|x: int| 0 <= x < a.len() ==> #[trigger] b[x] == a[x]
}

/// Every list of `b` starts with the corresponding list of `a`.
pub open spec fn grows(a: Seq<Seq<usize>>, b: Seq<Seq<usize>>) -> bool {
    a.len() == b.len() && forall|g: int| 0 <= g < a.len() ==> #[trigger] extends(a[g], b[g])
}

/// `f` is on the list of some guest who is on the list of `g`.
pub open spec fn is_friend_of_friend(l: Seq<Seq<usize>>, g: int, f: usize) -> bool {
    exists|m: usize| (m as int) < l.len() && #[trigger] l[g].contains(m) && l[m as int].contains(f)
}

/// Each entry of `b` beyond the entries of `a` is a friend of a friend.
pub open spec fn added_are_friends_of_friends(a: Seq<Seq<usize>>, b: Seq<Seq<usize>>) -> bool {
    forall|g: int, x: int|
        0 <= g < b.len() && a[g].len() <= x < b[g].len() ==> is_friend_of_friend(b, g, #[trigger] b[g][x])
}

proof fn lemma_extends_contains(a: Seq<usize>, b: Seq<usize>, v: usize)
    requires
        extends(a, b),
        a.contains(v),
    ensures
        b.contains(v),
{
    let x = choose|x: int| 0 <= x < a.len() && a[x] == v;
    assert(b[x] == v);
}

proof fn lemma_grows_trans(a: Seq<Seq<usize>>, b: Seq<Seq<usize>>, c: Seq<Seq<usize>>)
    requires
        grows(a, b),
        grows(b, c),
    ensures
        grows(a, c),
{
    assert forall|g: int| 0 <= g < a.len() implies #[trigger] extends(a[g], c[g]) by {
        assert(extends(a[g], b[g]) && extends(b[g], c[g]));
        assert forall|x: int| 0 <= x < a[g].len() implies #[trigger] c[g][x] == a[g][x] by {
            assert(b[g][x] == a[g][x]);
        }
    }
}

proof fn lemma_grows_keeps_friend_of_friend(a: Seq<Seq<usize>>, b: Seq<Seq<usize>>, g: int, f: usize)
    requires
        grows(a, b),
        0 <= g < a.len(),
        is_friend_of_friend(a, g, f),
    ensures
        is_friend_of_friend(b, g, f),
{
    let m = choose|m: usize| (m as int) < a.len() && #[trigger] a[g].contains(m) && a[m as int].contains(f);
    assert(extends(a[g], b[g]) && extends(a[m as int], b[m as int]));
    lemma_extends_contains(a[g], b[g], m);
    lemma_extends_contains(a[m as int], b[m as int], f);
}

fn push_to(lists: &mut Vec<Vec<usize>>, i: usize, x: usize)
    requires
        i < old(lists)@.len(),
    ensures
        final(lists)@.len() == old(lists)@.len(),
        lists_view(final(lists)) == lists_view(old(lists)).update(i as int, lists_view(old(lists))[i as int].push(x)),
{
    let ghost before = lists_view(lists);
    let mut row: Vec<usize> = Vec::new();
    lists.set_and_swap(i, &mut row);
    row.push(x);
    lists.set_and_swap(i, &mut row);
    assert(lists_view(lists) =~= before.update(i as int, before[i as int].push(x)));
}

/// Records that `i` and `j` are friends, on both lists.
fn befriend(lists: &mut Vec<Vec<usize>>, i: usize, j: usize)
    requires
        is_friendship(lists_view(old(lists)), old(lists)@.len() as nat),
        i < old(lists)@.len(),
        j < old(lists)@.len(),
    ensures
        final(lists)@.len() == old(lists)@.len(),
        is_friendship(lists_view(final(lists)), final(lists)@.len() as nat),
        forall|g: int| 0 <= g < old(lists)@.len() ==> lists_view(old(lists))[g].len() <= #[trigger] lists_view(final(lists))[g].len(),
        lists_view(final(lists))[i as int].len() == lists_view(old(lists))[i as int].len() + 1 + if i == j { 1int } else { 0 },
        ({
            let l1 = lists_view(old(lists)).update(i as int, lists_view(old(lists))[i as int].push(j));
            lists_view(final(lists)) == l1.update(j as int, l1[j as int].push(i))
        }),
        grows(lists_view(old(lists)), lists_view(final(lists))),
{
    let ghost l0 = lists_view(lists);
    let ghost n = l0.len();
    push_to(lists, i, j);
    let ghost l1 = lists_view(lists);
    push_to(lists, j, i);
    let ghost l2 = lists_view(lists);
    assert forall|g: int| 0 <= g < n implies #[trigger] extends(l0[g], l2[g]) by {
        assert forall|x: int| 0 <= x < l0[g].len() implies #[trigger] l2[g][x] == l0[g][x] by {
            if g == i {
                assert(l1[g][x] == l0[g][x]);
            }
            if g == j {
                assert(l2[g][x] == l1[g][x]);
            }
        }
    }
    assert forall|a: int, x: int| 0 <= a < n && 0 <= x < l2[a].len() implies #[trigger] l2[a][x] < n by {
        if a == j {
            if x < l1[a].len() {
                assert(l2[a][x] == l1[a][x]);
                if a == i && x == l0[a].len() {
                } else {
                    assert(l1[a][x] == l0[a][x]);
                }
            }
        } else if a == i {
            assert(l2[a] == l1[a]);
            if x < l0[a].len() {
                assert(l1[a][x] == l0[a][x]);
            }
        } else {
            assert(l2[a] == l0[a]);
        }
    }
    assert forall|a: usize, b: usize|
        a < n && b < n && #[trigger] l2[a as int].contains(b) implies l2[b as int].contains(a) by {
        let a = a as int;
        let x = choose|x: int| 0 <= x < l2[a].len() && l2[a][x] == b;
        // Lists only grow, so what was on one before stays on it.
        assert forall|g: int, v: usize| 0 <= g < n && #[trigger] l0[g].contains(v) implies l2[g].contains(v) by {
            let y = choose|y: int| 0 <= y < l0[g].len() && l0[g][y] == v;
            if g == i {
                assert(l1[g][y] == v);
            } else {
                assert(l1[g] == l0[g]);
            }
            assert(l2[g][y] == l1[g][y]);
        }
        assert(l2[i as int].contains(j)) by {
            assert(l1[i as int][l0[i as int].len() as int] == j);
            assert(l2[i as int][l0[i as int].len() as int] == j);
        }
        assert(l2[j as int].contains(i)) by {
            assert(l2[j as int][l1[j as int].len() as int] == i);
        }
        if (a == i && b == j) || (a == j && b == i) {
        } else {
            // The entry was there before the two new ones.
            if a == j && x == l1[a].len() {
                assert(l2[a][x] == i);
                assert(b == i);
            } else if a == i && x == l0[a].len() {
                assert(l2[a][x] == l1[a][x]);
                assert(l1[a][x] == j);
                assert(b == j);
            } else {
                if a == j {
                    assert(l2[a][x] == l1[a][x]);
                }
                if a == i {
                    assert(l1[a][x] == l0[a][x]);
                }
                assert(l0[a][x] == b);
                assert(l0[a].contains(b));
                assert(l0[b as int].contains(a as usize));
            }
        }
    }
}

/// A guest other than `person`, drawn uniformly from `0..n_guests`.
pub fn random_associate(rng: &mut rand::rngs::StdRng, person: usize, n_guests: usize) -> (r: usize)
    requires
        person < n_guests,
        n_guests >= 2,
    ensures
        r < n_guests,
        r != person,
{
    // Draw among the others and step over `person`.
    let other = draw_below(rng, n_guests - 1);
    if other >= person {
        other + 1
    } else {
        other
    }
}

/// No guest is on their own list.
pub open spec fn no_self(l: Seq<Seq<usize>>) -> bool {
    forall|g: int, x: int| 0 <= g < l.len() && 0 <= x < l[g].len() ==> #[trigger] l[g][x] != g
}

/// Someone other than guest `i` is on the list.
pub open spec fn has_other(list: Seq<usize>, i: int) -> bool {
    exists|x: int| 0 <= x < list.len() && #[trigger] list[x] != i
}

proof fn lemma_grown_keeps_other(before: Seq<usize>, after: Seq<usize>, i: int)
    requires
        has_other(before, i),
        before.len() <= after.len(),
        forall|x: int| 0 <= x < before.len() ==> #[trigger] after[x] == before[x],
    ensures
        has_other(after, i),
{
    let x = choose|x: int| 0 <= x < before.len() && #[trigger] before[x] != i;
    assert(after[x] != i);
}

/// Gives every guest at least one random friend, and then, with decreasing
/// probability, more. Friendship goes both ways.
pub fn random_friend_lists(rng: &mut rand::rngs::StdRng, n_guests: usize) -> (r: Vec<Vec<usize>>)
    requires
        n_guests != 1,
    ensures
        is_friendship(lists_view(&r), n_guests as nat),
        forall|i: int| 0 <= i < n_guests ==> #[trigger] has_other(lists_view(&r)[i], i),
{
    let mut lists: Vec<Vec<usize>> = Vec::new();
    let mut g: usize = 0;
    while g < n_guests
        invariant
            g <= n_guests,
            lists@.len() == g,
            forall|x: int| 0 <= x < g ==> #[trigger] lists@[x]@.len() == 0,
        decreases n_guests - g,
    {
        lists.push(Vec::new());
        g = g + 1;
    }
    assert(is_friendship(lists_view(&lists), n_guests as nat));
    let mut i: usize = 0;
    while i < n_guests
        invariant
            n_guests != 1,
            i <= n_guests,
            lists@.len() == n_guests,
            is_friendship(lists_view(&lists), n_guests as nat),
            no_self(lists_view(&lists)),
            forall|g: int| 0 <= g < i ==> #[trigger] has_other(lists_view(&lists)[g], g),
        decreases n_guests - i,
    {
        let mut more = draw_at_most(rng, lists[i].len()) == 0;
        while more && lists[i].len() < usize::MAX
            invariant
                n_guests >= 2,
                i < n_guests,
                lists@.len() == n_guests,
                is_friendship(lists_view(&lists), n_guests as nat),
                no_self(lists_view(&lists)),
                forall|g: int| 0 <= g < i ==> #[trigger] has_other(lists_view(&lists)[g], g),
                lists_view(&lists)[i as int].len() == 0 ==> more,
            decreases usize::MAX - lists_view(&lists)[i as int].len(),
        {
            let ghost before = lists_view(&lists);
            let j = random_associate(rng, i, n_guests);
            befriend(&mut lists, i, j);
            let ghost after = lists_view(&lists);
            proof {
                assert(after[i as int] == before[i as int].push(j));
                assert(after[j as int] == before[j as int].push(i));
                assert forall|g: int, x: int| 0 <= g < after.len() && 0 <= x < after[g].len() implies #[trigger] after[g][x] != g by {
                    if g != i && g != j {
                        assert(after[g] == before[g]);
                    } else if x < before[g].len() {
                        assert(after[g][x] == before[g][x]);
                    }
                }
                assert forall|g: int| 0 <= g < i implies #[trigger] has_other(after[g], g) by {
                    assert(has_other(before[g], g));
                    if g == j {
                        lemma_grown_keeps_other(before[g], after[g], g);
                    } else {
                        assert(after[g] == before[g]);
                    }
                }
            }
            more = draw_at_most(rng, lists[i].len()) == 0;
        }
        assert(lists_view(&lists)[i as int][0] != i);
        assert(has_other(lists_view(&lists)[i as int], i as int));
        i = i + 1;
    }
    lists
}

/// For each guest in turn, with decreasing probability, befriends a friend
/// of a friend; that may be the guest themself.
pub fn friends_of_friends(rng: &mut rand::rngs::StdRng, friend_lists: &mut Vec<Vec<usize>>)
    requires
        is_friendship(lists_view(old(friend_lists)), old(friend_lists)@.len() as nat),
        forall|g: int| 0 <= g < old(friend_lists)@.len() ==> #[trigger] has_other(lists_view(old(friend_lists))[g], g),
    ensures
        final(friend_lists)@.len() == old(friend_lists)@.len(),
        is_friendship(lists_view(final(friend_lists)), final(friend_lists)@.len() as nat),
        forall|g: int| 0 <= g < final(friend_lists)@.len() ==> #[trigger] has_other(lists_view(final(friend_lists))[g], g),
        grows(lists_view(old(friend_lists)), lists_view(final(friend_lists))),
        added_are_friends_of_friends(lists_view(old(friend_lists)), lists_view(final(friend_lists))),
{
    let ghost start = lists_view(friend_lists);
    let n = friend_lists.len();
    assert forall|g: int| 0 <= g < n implies #[trigger] extends(start[g], start[g]) by {}
    let mut i: usize = 0;
    while i < n
        invariant
            i <= n,
            friend_lists@.len() == n,
            start.len() == n,
            is_friendship(lists_view(friend_lists), n as nat),
            forall|g: int| 0 <= g < n ==> #[trigger] has_other(lists_view(friend_lists)[g], g),
            grows(start, lists_view(friend_lists)),
            added_are_friends_of_friends(start, lists_view(friend_lists)),
        decreases n - i,
    {
        let mut more = draw_at_most(rng, friend_lists[i].len()) == 0;
        while more && friend_lists[i].len() < usize::MAX
            invariant
                i < n,
                friend_lists@.len() == n,
                start.len() == n,
                is_friendship(lists_view(friend_lists), n as nat),
                forall|g: int| 0 <= g < n ==> #[trigger] has_other(lists_view(friend_lists)[g], g),
                grows(start, lists_view(friend_lists)),
                added_are_friends_of_friends(start, lists_view(friend_lists)),
            decreases usize::MAX - lists_view(friend_lists)[i as int].len(),
        {
            let ghost before = lists_view(friend_lists);
            assert(has_other(before[i as int], i as int));
            assert(friend_lists[i as int]@ == before[i as int]);
            let mutual_friend = choose_from(&friend_lists[i], rng).unwrap();
            assert(mutual_friend < n);
            assert(has_other(before[mutual_friend as int], mutual_friend as int));
            assert(friend_lists[mutual_friend as int]@ == before[mutual_friend as int]);
            let new_friend = choose_from(&friend_lists[mutual_friend], rng).unwrap();
            assert(new_friend < n);
            befriend(friend_lists, i, new_friend);
            let ghost after = lists_view(friend_lists);
            proof {
                lemma_grows_trans(start, before, after);
                assert forall|g: int| 0 <= g < n implies #[trigger] has_other(after[g], g) by {
                    assert(has_other(before[g], g));
                    assert(extends(before[g], after[g]));
                    lemma_grown_keeps_other(before[g], after[g], g);
                }
                // The two new entries are friends of friends through `mutual_friend`.
                let m = mutual_friend;
                assert(before[i as int].contains(m));
                assert(before[m as int].contains(new_friend));
                assert(before[new_friend as int].contains(m));
                assert(before[m as int].contains(i));
                assert(extends(before[i as int], after[i as int]));
                assert(extends(before[m as int], after[m as int]));
                assert(extends(before[new_friend as int], after[new_friend as int]));
                lemma_extends_contains(before[i as int], after[i as int], m);
                lemma_extends_contains(before[m as int], after[m as int], new_friend);
                lemma_extends_contains(before[new_friend as int], after[new_friend as int], m);
                lemma_extends_contains(before[m as int], after[m as int], i);
                assert(is_friend_of_friend(after, i as int, new_friend));
                assert(is_friend_of_friend(after, new_friend as int, i));
                let l1 = before.update(i as int, before[i as int].push(new_friend));
                assert forall|g: int, x: int|
                    0 <= g < after.len() && start[g].len() <= x < after[g].len() implies is_friend_of_friend(
                    after,
                    g,
                    #[trigger] after[g][x],
                ) by {
                    if x < before[g].len() {
                        assert(extends(before[g], after[g]));
                        assert(after[g][x] == before[g][x]);
                        assert(is_friend_of_friend(before, g, before[g][x]));
                        lemma_grows_keeps_friend_of_friend(before, after, g, before[g][x]);
                    } else if g == new_friend && x == l1[g].len() {
                        assert(after[g][x] == i);
                    } else {
                        assert(g == i);
                        assert(l1[g][x] == new_friend);
                        assert(after[g][x] == new_friend);
                    }
                }
            }
            more = draw_at_most(rng, friend_lists[i].len()) == 0;
        }
        i = i + 1;
    }
}

/// Guest `i`'s row after filling: `val` for each other guest on their list.
pub open spec fn filled(lists: Seq<Seq<usize>>, val: i64, old_value: i64, i: int, j: int) -> i64 {
    if i != j && lists[i].contains(j as usize) {
        val
    } else {
        old_value
    }
}

/// Writes `val` at `(i, j)` for each guest `j` other than `i` on the list of `i`.
pub fn fill_adj_matrix(lists: &Vec<Vec<usize>>, val: i64, matrix: &mut Vec<Vec<i64>>)
    requires
        matrix_view(old(matrix)).len() == lists@.len(),
        forall|i: int| 0 <= i < lists@.len() ==> #[trigger] matrix_view(old(matrix))[i].len() == lists@.len(),
        forall|i: int, x: int|
            0 <= i < lists@.len() && 0 <= x < lists_view(lists)[i].len() ==> #[trigger] lists_view(lists)[i][x] < lists@.len(),
    ensures
        matrix_view(final(matrix)).len() == lists@.len(),
        forall|i: int| 0 <= i < lists@.len() ==> #[trigger] matrix_view(final(matrix))[i].len() == lists@.len(),
        forall|i: int, j: int|
            0 <= i < lists@.len() && 0 <= j < lists@.len() ==> #[trigger] matrix_view(final(matrix))[i][j] == filled(
                lists_view(lists),
                val,
                matrix_view(old(matrix))[i][j],
                i,
                j,
            ),
{
    let ghost m0 = matrix_view(matrix);
    let ghost l = lists_view(lists);
    let n = lists.len();
    let mut guest_id: usize = 0;
    while guest_id < n
        invariant
            n == lists@.len(),
            l == lists_view(lists),
            guest_id <= n,
            matrix_view(matrix).len() == n,
            forall|i: int| 0 <= i < n ==> #[trigger] matrix_view(matrix)[i].len() == n,
            forall|i: int, x: int| 0 <= i < n && 0 <= x < l[i].len() ==> #[trigger] l[i][x] < n,
            forall|i: int, j: int|
                0 <= i < n && 0 <= j < n ==> #[trigger] matrix_view(matrix)[i][j] == if i < guest_id {
                    filled(l, val, m0[i][j], i, j)
                } else {
                    m0[i][j]
                },
        decreases n - guest_id,
    {
        let rel_list = &lists[guest_id];
        assert(rel_list@ == l[guest_id as int]);
        let mut x: usize = 0;
        while x < rel_list.len()
            invariant
                n == lists@.len(),
                l == lists_view(lists),
                guest_id < n,
                rel_list@ == l[guest_id as int],
                x <= rel_list@.len(),
                matrix_view(matrix).len() == n,
                forall|i: int| 0 <= i < n ==> #[trigger] matrix_view(matrix)[i].len() == n,
                forall|i: int, y: int| 0 <= i < n && 0 <= y < l[i].len() ==> #[trigger] l[i][y] < n,
                forall|i: int, j: int|
                    0 <= i < n && 0 <= j < n ==> #[trigger] matrix_view(matrix)[i][j] == if i < guest_id {
                        filled(l, val, m0[i][j], i, j)
                    } else if i == guest_id && i != j && rel_list@.subrange(0, x as int).contains(j as usize) {
                        val
                    } else {
                        m0[i][j]
                    },
            decreases rel_list@.len() - x,
        {
            let rel_id = rel_list[x];
            assert(rel_id < n);
            let ghost before = matrix_view(matrix);
            if rel_id != guest_id {
                let mut row: Vec<i64> = Vec::new();
                matrix.set_and_swap(guest_id, &mut row);
                assert(row@ == before[guest_id as int]);
                row.set(rel_id, val);
                matrix.set_and_swap(guest_id, &mut row);
                assert(matrix_view(matrix) =~= before.update(guest_id as int, before[guest_id as int].update(rel_id as int, val)));
            }
            assert forall|i: int, j: int| 0 <= i < n && 0 <= j < n implies #[trigger] matrix_view(matrix)[i][j] == if i < guest_id {
                filled(l, val, m0[i][j], i, j)
            } else if i == guest_id && i != j && rel_list@.subrange(0, x + 1).contains(j as usize) {
                val
            } else {
                m0[i][j]
            } by {
                let s0 = rel_list@.subrange(0, x as int);
                let s1 = rel_list@.subrange(0, x + 1);
                assert(s1 =~= s0.push(rel_id));
                assert(before[i][j] == if i < guest_id {
                    filled(l, val, m0[i][j], i, j)
                } else if i == guest_id && i != j && s0.contains(j as usize) {
                    val
                } else {
                    m0[i][j]
                });
                if i != guest_id || rel_id == guest_id {
                    assert(matrix_view(matrix)[i][j] == before[i][j]);
                } else if j == rel_id {
                    assert(matrix_view(matrix)[i][j] == val);
                    assert(s1[x as int] == j as usize);
                    assert(s1.contains(j as usize));
                } else {
                    assert(matrix_view(matrix)[i][j] == before[i][j]);
                }
                if i == guest_id && i != j {
                    if s1.contains(j as usize) && !s0.contains(j as usize) {
                        let y = choose|y: int| 0 <= y < s1.len() && s1[y] == j as usize;
                        if y < x {
                            assert(s0[y] == j as usize);
                        }
                        assert(j as usize == rel_id);
                    }
                    if s0.contains(j as usize) {
                        let y = choose|y: int| 0 <= y < s0.len() && s0[y] == j as usize;
                        assert(s1[y] == j as usize);
                    }
                }
            }
            x = x + 1;
        }
        assert(rel_list@.subrange(0, rel_list@.len() as int) =~= rel_list@);
        guest_id = guest_id + 1;
    }
}

/// Guest `i` has affinity one with somebody.
pub open spec fn has_friend(m: Seq<Seq<i64>>, i: int) -> bool {
    exists|j: int| 0 <= j < m.len() && #[trigger] m[i][j] == 1
}

fn zero_matrix(n: usize) -> (r: Vec<Vec<i64>>)
    ensures
        matrix_view(&r).len() == n,
        forall|i: int| 0 <= i < n ==> #[trigger] matrix_view(&r)[i].len() == n,
        forall|i: int, j: int| 0 <= i < n && 0 <= j < n ==> #[trigger] matrix_view(&r)[i][j] == 0,
{
    let mut rows: Vec<Vec<i64>> = Vec::new();
    let mut i: usize = 0;
    while i < n
        invariant
            i <= n,
            rows@.len() == i,
            forall|a: int| 0 <= a < i ==> #[trigger] rows@[a]@.len() == n,
            forall|a: int, b: int| 0 <= a < i && 0 <= b < n ==> #[trigger] rows@[a]@[b] == 0,
        decreases n - i,
    {
        let mut row: Vec<i64> = Vec::new();
        let mut j: usize = 0;
        while j < n
            invariant
                j <= n,
                row@.len() == j,
                forall|b: int| 0 <= b < j ==> #[trigger] row@[b] == 0,
            decreases n - j,
        {
            row.push(0);
            j = j + 1;
        }
        rows.push(row);
        i = i + 1;
    }
    rows
}

/// A random acquaintance graph: everyone has at least one friend, some have
/// friends of friends too. Friends have affinity one, everyone else zero.
pub fn random_relations(rng: &mut rand::rngs::StdRng, n_guests: usize) -> (r: GuestRelations)
    requires
        n_guests != 1,
        n_guests <= MAX_GUESTS,
    ensures
        r.wf(),
        r@.len() == n_guests,
        is_symmetric(r@),
        has_zero_diagonal(r@),
        forall|i: int, j: int| 0 <= i < n_guests && 0 <= j < n_guests ==> #[trigger] r@[i][j] == 0 || r@[i][j] == 1,
        forall|i: int| 0 <= i < n_guests ==> #[trigger] has_friend(r@, i),
{
    let mut friend_lists = random_friend_lists(rng, n_guests);
    friends_of_friends(rng, &mut friend_lists);
    let mut relationships = zero_matrix(n_guests);
    fill_adj_matrix(&friend_lists, 1, &mut relationships);
    let ghost l = lists_view(&friend_lists);
    let ghost m = matrix_view(&relationships);
    assert forall|i: int, j: int| 0 <= i < n_guests && 0 <= j < n_guests implies #[trigger] m[i][j] == m[j][i] by {
        if l[i].contains(j as usize) {
            assert(l[j].contains(i as usize));
        }
        if l[j].contains(i as usize) {
            assert(l[i].contains(j as usize));
        }
    }
    assert forall|i: int| 0 <= i < n_guests implies #[trigger] has_friend(m, i) by {
        assert(has_other(l[i], i));
        let x = choose|x: int| 0 <= x < l[i].len() && #[trigger] l[i][x] != i;
        let j = l[i][x] as int;
        assert(l[i].contains(j as usize));
        assert(m[i][j] == 1);
    }
    GuestRelations::new(relationships)
}

} // verus!
