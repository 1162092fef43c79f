//! The dependency analyzer: the levels in which tables can be loaded.
//!
//! A table depends on every table that one of its fields links to. Level 0
//! holds the tables that depend on nothing; every later level holds the
//! tables whose dependencies all lie in earlier levels, at least one of them
//! in the level just before. Tables that depend on each other in a circle
//! have no level.

use crate::error::{Error, ErrorView};
use vstd::prelude::*;

verus! {

/// The lists of indices seen as sequences.
pub open spec fn graph_of(lists: Seq<Vec<usize>>) -> Seq<Seq<usize>> {
    lists.map_values(|v: Vec<usize>| v@)
}

/// Marks a table that has no level yet.
pub const UNPLACED: usize = usize::MAX;

/// Every dependency is the index of a table.
pub open spec fn graph_wf(deps: Seq<Seq<usize>>) -> bool {
    forall|a: int, k: int|
        0 <= a < deps.len() && 0 <= k < deps[a].len() ==> (#[trigger] deps[a][k]) < deps.len()
}

/// Table `a` depends on table `b`.
pub open spec fn has_edge(deps: Seq<Seq<usize>>, a: int, b: int) -> bool {
    0 <= a < deps.len() && exists|k: int| 0 <= k < deps[a].len() && #[trigger] deps[a][k] == b
}

/// `rank` gives every table a number above the numbers of the tables it
/// depends on. Such a ranking exists exactly where no table depends on
/// itself, directly or through others.
pub open spec fn is_ranking(deps: Seq<Seq<usize>>, rank: Seq<nat>) -> bool {
    &&& rank.len() == deps.len()
    &&& forall|a: int, k: int|
        0 <= a < deps.len() && 0 <= k < deps[a].len() ==> rank[(#[trigger] deps[a][k]) as int]
            < rank[a]
}

/// Table `t` stands in level `l`.
pub open spec fn in_level(levels: Seq<Seq<usize>>, l: int, t: int) -> bool {
    0 <= l < levels.len() && exists|k: int| 0 <= k < levels[l].len() && #[trigger] levels[l][k] == t
}

/// Table `t` stands in some level.
pub open spec fn has_level(levels: Seq<Seq<usize>>, t: int) -> bool {
    exists|l: int| #[trigger] in_level(levels, l, t)
}

/// `levels` is the levelling of the tables of `deps`:
/// every table stands in exactly one level and once in it; a table's
/// dependencies stand in earlier levels, one of them in the level just
/// before; no level is empty, and within a level the tables are in the order
/// of their indices.
pub open spec fn is_leveling(deps: Seq<Seq<usize>>, levels: Seq<Seq<usize>>) -> bool {
    &&& forall|t: int| 0 <= t < deps.len() ==> #[trigger] has_level(levels, t)
    &&& forall|l: int, k: int|
        0 <= l < levels.len() && 0 <= k < levels[l].len() ==> (#[trigger] levels[l][k])
            < deps.len()
    &&& forall|l1: int, k1: int, l2: int, k2: int|
        0 <= l1 < levels.len() && 0 <= k1 < levels[l1].len() && 0 <= l2 < levels.len() && 0 <= k2
            < levels[l2].len() && #[trigger] levels[l1][k1] == #[trigger] levels[l2][k2] ==> l1
            == l2 && k1 == k2
    &&& forall|a: int, b: int, la: int, lb: int|
        has_edge(deps, a, b) && #[trigger] in_level(levels, la, a) && #[trigger] in_level(
            levels,
            lb,
            b,
        ) ==> lb < la
    &&& forall|a: int, la: int|
        0 < la && #[trigger] in_level(levels, la, a) ==> exists|b: int|
            has_edge(deps, a, b) && #[trigger] in_level(levels, la - 1, b)
    &&& forall|l: int| 0 <= l < levels.len() ==> (#[trigger] levels[l]).len() > 0
    &&& forall|l: int, j: int, k: int|
        0 <= l < levels.len() && 0 <= j < k < levels[l].len() ==> (#[trigger] levels[l][j])
            < (#[trigger] levels[l][k])
}

/// How many entries of `s` are placed.
pub open spec fn count_placed(s: Seq<usize>) -> nat
    decreases s.len(),
{
    if s.len() == 0 {
        0
    } else if s.last() != UNPLACED {
        count_placed(s.drop_last()) + 1
    } else {
        count_placed(s.drop_last())
    }
}

proof fn lemma_count_bound(s: Seq<usize>)
    ensures
        count_placed(s) <= s.len(),
        count_placed(s) == s.len() ==> forall|i: int| 0 <= i < s.len() ==> s[i] != UNPLACED,
        count_placed(s) < s.len() ==> exists|i: int| 0 <= i < s.len() && s[i] == UNPLACED,
    decreases s.len(),
{
    if s.len() > 0 {
        let front = s.drop_last();
        lemma_count_bound(front);
        assert(forall|i: int| 0 <= i < front.len() ==> front[i] == s[i]);
        if count_placed(s) < s.len() {
            if s.last() == UNPLACED {
                assert(s[s.len() - 1] == UNPLACED);
            } else {
                let i = choose|i: int| 0 <= i < front.len() && front[i] == UNPLACED;
                assert(s[i] == UNPLACED);
            }
        }
    }
}

proof fn lemma_count_none(s: Seq<usize>)
    requires
        forall|i: int| 0 <= i < s.len() ==> s[i] == UNPLACED,
    ensures
        count_placed(s) == 0,
    decreases s.len(),
{
    if s.len() > 0 {
        lemma_count_none(s.drop_last());
    }
}

proof fn lemma_count_update(s: Seq<usize>, i: int, v: usize)
    requires
        0 <= i < s.len(),
        s[i] == UNPLACED,
        v != UNPLACED,
    ensures
        count_placed(s.update(i, v)) == count_placed(s) + 1,
    decreases s.len(),
{
    let t = s.update(i, v);
    if i == s.len() - 1 {
        assert(t.drop_last() == s.drop_last());
    } else {
        lemma_count_update(s.drop_last(), i, v);
        assert(t.drop_last() == s.drop_last().update(i, v));
    }
}

/// Table `x` depends on a table that has no level.
spec fn blocked(deps: Seq<Seq<usize>>, level_of: Seq<usize>, x: int) -> bool {
    exists|k: int| 0 <= k < deps[x].len() && level_of[(#[trigger] deps[x][k]) as int] == UNPLACED
}

/// Tables of which each depends on another of them cannot be ranked.
proof fn lemma_stuck_has_no_ranking(
    deps: Seq<Seq<usize>>,
    level_of: Seq<usize>,
    rank: Seq<nat>,
    a: int,
)
    requires
        graph_wf(deps),
        level_of.len() == deps.len(),
        0 <= a < deps.len(),
        level_of[a] == UNPLACED,
        forall|x: int|
            0 <= x < deps.len() && level_of[x] == UNPLACED ==> #[trigger] blocked(
                deps,
                level_of,
                x,
            ),
    ensures
        !is_ranking(deps, rank),
    decreases rank[a],
{
    if is_ranking(deps, rank) {
        assert(blocked(deps, level_of, a));
        let k = choose|k: int|
            0 <= k < deps[a].len() && level_of[(#[trigger] deps[a][k]) as int] == UNPLACED;
        let b = deps[a][k];
        assert(b < deps.len());
        assert(rank[b as int] < rank[a]);
        lemma_stuck_has_no_ranking(deps, level_of, rank, b as int);
    }
}

/// `next` holds, in the order of their indices, exactly the tables that have
/// no level in `level_of` while all their dependencies have one.
spec fn ready_set(deps: Seq<Seq<usize>>, level_of: Seq<usize>, next: Seq<usize>) -> bool {
    let n = deps.len();
    &&& forall|j: int| 0 <= j < next.len() ==> next[j] < n
    &&& forall|j: int, i: int| 0 <= j < i < next.len() ==> next[j] < next[i]
    &&& forall|j: int|
        0 <= j < next.len() ==> level_of[(#[trigger] next[j]) as int] == UNPLACED && forall|k: int|
            0 <= k < deps[next[j] as int].len() ==> level_of[(
            #[trigger] deps[next[j] as int][k]) as int] != UNPLACED
    &&& forall|x: int|
        0 <= x < n && level_of[x] == UNPLACED && (forall|k: int|
            0 <= k < deps[x].len() ==> level_of[(#[trigger] deps[x][k]) as int] != UNPLACED)
            ==> exists|j: int| 0 <= j < next.len() && #[trigger] next[j] == x
}

/// `level_of` is `before` with the tables of `next` put in level `current`.
spec fn marked(
    before: Seq<usize>,
    level_of: Seq<usize>,
    next: Seq<usize>,
    upto: int,
    current: usize,
) -> bool {
    &&& level_of.len() == before.len()
    &&& forall|j: int| 0 <= j < upto ==> level_of[(#[trigger] next[j]) as int] == current
    &&& forall|x: int|
        0 <= x < before.len() && (forall|j: int| 0 <= j < upto ==> next[j] != x) ==> level_of[x]
            == before[x]
}

/// Whether every dependency in `needs` has a level.
fn all_placed(needs: &Vec<usize>, level_of: &Vec<usize>) -> (r: bool)
    requires
        forall|k: int| 0 <= k < needs@.len() ==> needs@[k] < level_of@.len(),
    ensures
        r == (forall|k: int| 0 <= k < needs@.len() ==> level_of@[needs@[k] as int] != UNPLACED),
{
    let mut k: usize = 0;
    while k < needs.len()
        invariant
            k <= needs.len(),
            forall|j: int| 0 <= j < needs@.len() ==> needs@[j] < level_of@.len(),
            forall|j: int| 0 <= j < k ==> level_of@[needs@[j] as int] != UNPLACED,
        decreases needs.len() - k,
    {
        if level_of[needs[k]] == UNPLACED {
            return false;
        }
        k += 1;
    }
    true
}

/// What holds between two rounds, when `levels` are the levels made so far
/// and `level_of` tells each table's level.
spec fn round_inv(
    deps: Seq<Seq<usize>>,
    levels: Seq<Seq<usize>>,
    level_of: Seq<usize>,
) -> bool {
    let n = deps.len();
    &&& level_of.len() == n
    &&& forall|a: int| 0 <= a < n ==> level_of[a] == UNPLACED || level_of[a] < levels.len()
    &&& forall|l: int, k: int|
        0 <= l < levels.len() && 0 <= k < levels[l].len() ==> (#[trigger] levels[l][k]) < n
            && level_of[levels[l][k] as int] == l
    &&& forall|a: int|
        0 <= a < n && level_of[a] != UNPLACED ==> exists|k: int|
            0 <= k < levels[level_of[a] as int].len() && #[trigger] levels[level_of[a] as int][k]
                == a
    &&& forall|l: int| 0 <= l < levels.len() ==> (#[trigger] levels[l]).len() > 0
    &&& forall|l: int, j: int, k: int|
        0 <= l < levels.len() && 0 <= j < k < levels[l].len() ==> (#[trigger] levels[l][j])
            < (#[trigger] levels[l][k])
    &&& forall|a: int, k: int|
        0 <= a < n && level_of[a] != UNPLACED && 0 <= k < deps[a].len() ==> level_of[(
        #[trigger] deps[a][k]) as int] < level_of[a]
    &&& forall|a: int|
        0 <= a < n && level_of[a] != UNPLACED && level_of[a] > 0 ==> exists|k: int|
            0 <= k < deps[a].len() && level_of[(#[trigger] deps[a][k]) as int] + 1 == level_of[a]
    &&& forall|a: int|
        0 <= a < n && level_of[a] == UNPLACED && levels.len() > 0 ==> exists|k: int|
            0 <= k < deps[a].len() && (level_of[(#[trigger] deps[a][k]) as int] == UNPLACED
                || level_of[deps[a][k] as int] + 1 == levels.len())
}

/// Once every table has a level, the levels made are the levelling, and the
/// levels of the tables rank them.
proof fn lemma_round_inv_done(deps: Seq<Seq<usize>>, levels: Seq<Seq<usize>>, level_of: Seq<usize>)
    requires
        graph_wf(deps),
        round_inv(deps, levels, level_of),
        forall|a: int| 0 <= a < deps.len() ==> level_of[a] != UNPLACED,
    ensures
        is_leveling(deps, levels),
        is_ranking(deps, Seq::new(deps.len(), |a: int| level_of[a] as nat)),
{
    let n = deps.len();
    assert forall|t: int| 0 <= t < n implies #[trigger] has_level(levels, t) by {
        assert(in_level(levels, level_of[t] as int, t));
    }
    assert forall|a: int, b: int, la: int, lb: int|
        has_edge(deps, a, b) && #[trigger] in_level(levels, la, a) && #[trigger] in_level(
            levels,
            lb,
            b,
        ) implies lb < la by {
        let k = choose|k: int| 0 <= k < deps[a].len() && #[trigger] deps[a][k] == b;
        assert(level_of[deps[a][k] as int] < level_of[a]);
    }
    assert forall|a: int, la: int| 0 < la && #[trigger] in_level(levels, la, a) implies exists|
        b: int,
    |
        has_edge(deps, a, b) && #[trigger] in_level(levels, la - 1, b) by {
        let j = choose|j: int| 0 <= j < levels[la].len() && #[trigger] levels[la][j] == a;
        assert(level_of[a] == la);
        let k = choose|k: int|
            0 <= k < deps[a].len() && level_of[(#[trigger] deps[a][k]) as int] + 1 == level_of[a];
        let b = deps[a][k] as int;
        assert(has_edge(deps, a, b));
        assert(in_level(levels, la - 1, b));
    }
}

/// The tables that have no level yet and depend only on tables that have
/// one, in the order of their indices.
fn ready_tables(deps: &Vec<Vec<usize>>, level_of: &Vec<usize>) -> (next: Vec<usize>)
    requires
        graph_wf(graph_of(deps@)),
        level_of.len() == deps.len(),
    ensures
        ready_set(graph_of(deps@), level_of@, next@),
{
    let n = deps.len();
    let mut next: Vec<usize> = Vec::new();
    let mut a: usize = 0;
    while a < n
        invariant
            n == deps.len(),
            graph_wf(graph_of(deps@)),
            level_of.len() == n,
            a <= n,
            forall|j: int| 0 <= j < next@.len() ==> next@[j] < a,
            forall|j: int, k: int| 0 <= j < k < next@.len() ==> next@[j] < next@[k],
            forall|j: int|
                0 <= j < next@.len() ==> level_of@[(#[trigger] next@[j]) as int] == UNPLACED
                    && forall|k: int|
                    0 <= k < graph_of(deps@)[next@[j] as int].len() ==> level_of@[(
                    #[trigger] graph_of(deps@)[next@[j] as int][k]) as int] != UNPLACED,
            forall|x: int|
                0 <= x < a && level_of@[x] == UNPLACED && (forall|k: int|
                    0 <= k < graph_of(deps@)[x].len() ==> level_of@[(#[trigger] graph_of(deps@)[x][k]) as int]
                        != UNPLACED) ==> exists|j: int|
                    0 <= j < next@.len() && #[trigger] next@[j] == x,
        decreases n - a,
    {
        let ghost found = next@;
        assert(graph_of(deps@)[a as int] == deps@[a as int]@);
        if level_of[a] == UNPLACED && all_placed(&deps[a], &level_of) {
            next.push(a);
            assert(next@[next@.len() - 1] == a);
        }
        proof {
            assert forall|x: int|
                0 <= x < a + 1 && level_of@[x] == UNPLACED && (forall|k: int|
                    0 <= k < graph_of(deps@)[x].len() ==> level_of@[(#[trigger] graph_of(deps@)[x][k]) as int]
                        != UNPLACED) implies exists|j: int|
                0 <= j < next@.len() && #[trigger] next@[j] == x by {
                if x < a {
                    let j = choose|j: int| 0 <= j < found.len() && #[trigger] found[j] == x;
                    assert(next@[j] == x);
                } else {
                    assert(next@[next@.len() - 1] == x);
                }
            }
        }
        a += 1;
    }
    next
}

/// Where some table has no level and no table is ready, the tables cannot be
/// ranked.
proof fn lemma_none_ready_has_no_ranking(
    deps: Seq<Seq<usize>>,
    level_of: Seq<usize>,
    next: Seq<usize>,
)
    requires
        graph_wf(deps),
        level_of.len() == deps.len(),
        ready_set(deps, level_of, next),
        next.len() == 0,
        count_placed(level_of) < deps.len(),
    ensures
        forall|rank: Seq<nat>| !is_ranking(deps, rank),
{
    lemma_count_bound(level_of);
    let n = deps.len();
    let stuck = choose|i: int| 0 <= i < n && level_of[i] == UNPLACED;
    assert forall|x: int| 0 <= x < n && level_of[x] == UNPLACED implies #[trigger] blocked(
        deps,
        level_of,
        x,
    ) by {
        if !blocked(deps, level_of, x) {
            assert(forall|k: int|
                0 <= k < deps[x].len() ==> level_of[(#[trigger] deps[x][k]) as int] != UNPLACED);
            let j = choose|j: int| 0 <= j < next.len() && #[trigger] next[j] == x;
        }
    }
    assert forall|rank: Seq<nat>| !is_ranking(deps, rank) by {
        lemma_stuck_has_no_ranking(deps, level_of, rank, stuck);
    }
}

/// Puts the tables of `next` in level `current`.
fn place(level_of: &mut Vec<usize>, next: &Vec<usize>, current: usize, Ghost(deps): Ghost<
    Seq<Seq<usize>>,
>)
    requires
        old(level_of).len() == deps.len(),
        ready_set(deps, old(level_of)@, next@),
        current != UNPLACED,
    ensures
        marked(old(level_of)@, final(level_of)@, next@, next@.len() as int, current),
        count_placed(final(level_of)@) == count_placed(old(level_of)@) + next@.len(),
{
    let ghost before = level_of@;
    let mut k: usize = 0;
    while k < next.len()
        invariant
            level_of.len() == deps.len(),
            before.len() == deps.len(),
            k <= next.len(),
            current != UNPLACED,
            count_placed(level_of@) == count_placed(before) + k,
            ready_set(deps, before, next@),
            marked(before, level_of@, next@, k as int, current),
        decreases next.len() - k,
    {
        let t = next[k];
        proof {
            assert(before[next@[k as int] as int] == UNPLACED);
            assert(level_of@[t as int] == before[t as int]);
            lemma_count_update(level_of@, t as int, current);
        }
        level_of.set(t, current);
        k += 1;
    }
}

/// The levels of the tables whose dependencies are `deps`: for each table, by
/// index, the indices of the tables it links to. Fails where the tables
/// cannot be ranked, that is where links run in a circle.
pub fn dependency_levels(deps: &Vec<Vec<usize>>) -> (r: Result<Vec<Vec<usize>>, Error>)
    requires
        graph_wf(graph_of(deps@)),
    ensures
        match r {
            Ok(levels) => is_leveling(graph_of(deps@), graph_of(levels@)),
            Err(e) => e@ == ErrorView::CircularDependency,
        },
        r is Ok <==> exists|rank: Seq<nat>| is_ranking(graph_of(deps@), rank),
{
    let n = deps.len();
    let mut level_of: Vec<usize> = Vec::new();
    while level_of.len() < n
        invariant
            level_of.len() <= n,
            forall|a: int| 0 <= a < level_of.len() ==> level_of@[a] == UNPLACED,
        decreases n - level_of.len(),
    {
        level_of.push(UNPLACED);
    }
    let mut levels: Vec<Vec<usize>> = Vec::new();
    let mut placed: usize = 0;
    proof {
        lemma_count_none(level_of@);
    }
    while placed < n
        invariant
            n == deps.len(),
            graph_wf(graph_of(deps@)),
            round_inv(graph_of(deps@), graph_of(levels@), level_of@),
            placed == count_placed(level_of@),
            placed <= n,
            levels.len() <= placed,
        decreases n - placed,
    {
        let next = ready_tables(deps, &level_of);
        if next.len() == 0 {
            proof {
                lemma_none_ready_has_no_ranking(graph_of(deps@), level_of@, next@);
            }
            return Err(Error::CircularDependency);
        }
        let ghost before = level_of@;
        let ghost old_levels = graph_of(levels@);
        let current = levels.len();
        place(&mut level_of, &next, current, Ghost(graph_of(deps@)));
        proof {
            lemma_count_bound(level_of@);
        }
        placed = placed + next.len();
        levels.push(next);
        proof {
            assert(graph_of(levels@).drop_last() == old_levels);
            lemma_round_step(graph_of(deps@), old_levels, before, graph_of(levels@), level_of@);
        }
    }
    proof {
        lemma_count_bound(level_of@);
        lemma_round_inv_done(graph_of(deps@), graph_of(levels@), level_of@);
    }
    Ok(levels)
}

/// One round keeps what holds between rounds: `next` holds, in the order of
/// their indices, the tables without a level whose dependencies all have
/// one, and is not empty.
proof fn lemma_round_step(
    deps: Seq<Seq<usize>>,
    old_levels: Seq<Seq<usize>>,
    before: Seq<usize>,
    levels: Seq<Seq<usize>>,
    level_of: Seq<usize>,
)
    requires
        graph_wf(deps),
        round_inv(deps, old_levels, before),
        levels.len() == old_levels.len() + 1,
        levels.drop_last() == old_levels,
        old_levels.len() < UNPLACED,
        levels.last().len() > 0,
        ready_set(deps, before, levels.last()),
        marked(before, level_of, levels.last(), levels.last().len() as int, old_levels.len() as usize),
    ensures
        round_inv(deps, levels, level_of),
{
    let next = levels.last();
    let n = deps.len();
    let current = old_levels.len() as int;
    assert(forall|l: int| 0 <= l < current ==> levels[l] == old_levels[l]);
    // A table keeps its level unless it is in `next`.
    assert forall|x: int| 0 <= x < n && before[x] != UNPLACED implies level_of[x] == before[x] by {
        assert forall|j: int| 0 <= j < next.len() implies next[j] != x by {
            assert(before[next[j] as int] == UNPLACED);
        }
    }
    assert forall|x: int| 0 <= x < n && level_of[x] != before[x] implies level_of[x] == current
        && before[x] == UNPLACED && exists|j: int| 0 <= j < next.len() && #[trigger] next[j] == x by {
        if forall|j: int| 0 <= j < next.len() ==> next[j] != x {
            assert(level_of[x] == before[x]);
        }
        let j = choose|j: int| 0 <= j < next.len() && next[j] == x;
        assert(before[next[j] as int] == UNPLACED);
        assert(level_of[next[j] as int] == current);
    }
    assert forall|l: int, k: int|
        0 <= l < levels.len() && 0 <= k < levels[l].len() implies (#[trigger] levels[l][k]) < n
        && level_of[levels[l][k] as int] == l by {
        if l < current {
            assert(old_levels[l][k] < n && before[old_levels[l][k] as int] == l);
        } else {
            assert(level_of[next[k] as int] == current);
        }
    }
    assert forall|a: int| 0 <= a < n && level_of[a] != UNPLACED implies exists|k: int|
        0 <= k < levels[level_of[a] as int].len() && #[trigger] levels[level_of[a] as int][k]
            == a by {
        if level_of[a] == before[a] {
            let k = choose|k: int|
                0 <= k < old_levels[before[a] as int].len()
                    && #[trigger] old_levels[before[a] as int][k] == a;
            assert(levels[level_of[a] as int][k] == a);
        } else {
            let j = choose|j: int| 0 <= j < next.len() && #[trigger] next[j] == a;
            assert(levels[current][j] == a);
        }
    }
    assert forall|l: int| 0 <= l < levels.len() implies (#[trigger] levels[l]).len() > 0 by {
        if l < current {
            assert(old_levels[l].len() > 0);
        }
    }
    assert forall|l: int, j: int, k: int|
        0 <= l < levels.len() && 0 <= j < k < levels[l].len() implies (#[trigger] levels[l][j])
        < (#[trigger] levels[l][k]) by {
        if l < current {
            assert(old_levels[l][j] < old_levels[l][k]);
        }
    }
    assert forall|a: int, k: int|
        0 <= a < n && level_of[a] != UNPLACED && 0 <= k < deps[a].len() implies level_of[(
    #[trigger] deps[a][k]) as int] < level_of[a] by {
        let b = deps[a][k] as int;
        assert(0 <= b < n);
        if level_of[a] == before[a] {
            assert(before[b] < before[a]);
        } else {
            let j = choose|j: int| 0 <= j < next.len() && #[trigger] next[j] == a;
            assert(before[deps[next[j] as int][k] as int] != UNPLACED);
            assert(before[b] < current);
        }
    }
    assert forall|a: int|
        0 <= a < n && level_of[a] != UNPLACED && level_of[a] > 0 implies exists|k: int|
        0 <= k < deps[a].len() && level_of[(#[trigger] deps[a][k]) as int] + 1 == level_of[a] by {
        if level_of[a] == before[a] {
            let k = choose|k: int|
                0 <= k < deps[a].len() && before[(#[trigger] deps[a][k]) as int] + 1 == before[a];
            let b = deps[a][k] as int;
            assert(0 <= b < n);
            assert(level_of[b] == before[b]);
        } else {
            let j = choose|j: int| 0 <= j < next.len() && #[trigger] next[j] == a;
            assert(before[a] == UNPLACED && current > 0);
            let k = choose|k: int|
                0 <= k < deps[a].len() && (before[(#[trigger] deps[a][k]) as int] == UNPLACED
                    || before[deps[a][k] as int] + 1 == current);
            let b = deps[a][k] as int;
            assert(0 <= b < n);
            assert(before[deps[next[j] as int][k] as int] != UNPLACED);
            assert(level_of[b] == before[b]);
        }
    }
    assert forall|a: int|
        0 <= a < n && level_of[a] == UNPLACED && levels.len() > 0 implies exists|k: int|
        0 <= k < deps[a].len() && (level_of[(#[trigger] deps[a][k]) as int] == UNPLACED
            || level_of[deps[a][k] as int] + 1 == levels.len()) by {
        assert(before[a] == UNPLACED);
        // `a` is not in `next`, so one of its dependencies had no level.
        if forall|k: int|
            0 <= k < deps[a].len() ==> before[(#[trigger] deps[a][k]) as int] != UNPLACED {
            let j = choose|j: int| 0 <= j < next.len() && #[trigger] next[j] == a;
            assert(level_of[next[j] as int] == current);
        }
        let k = choose|k: int|
            0 <= k < deps[a].len() && before[(#[trigger] deps[a][k]) as int] == UNPLACED;
        let b = deps[a][k] as int;
        assert(0 <= b < n);
        if level_of[b] != before[b] {
            assert(level_of[b] == current);
        }
    }
}

/// Two tables that link to each other cannot be ranked: levelling them
/// fails.
pub proof fn law_mutual_links_have_no_ranking(deps: Seq<Seq<usize>>, a: int, b: int)
    requires
        has_edge(deps, a, b),
        has_edge(deps, b, a),
    ensures
        forall|rank: Seq<nat>| !is_ranking(deps, rank),
{
    assert forall|rank: Seq<nat>| !is_ranking(deps, rank) by {
        if is_ranking(deps, rank) {
            let k = choose|k: int| 0 <= k < deps[a].len() && #[trigger] deps[a][k] == b;
            let j = choose|j: int| 0 <= j < deps[b].len() && #[trigger] deps[b][j] == a;
            assert(rank[deps[a][k] as int] < rank[a]);
            assert(rank[deps[b][j] as int] < rank[b]);
        }
    }
}

/// In a levelling every table has exactly one level, and a table that links
/// to another stands in a later level than the other.
pub proof fn law_leveling_covers_and_orders(
    deps: Seq<Seq<usize>>,
    levels: Seq<Seq<usize>>,
    a: int,
    b: int,
    la: int,
    lb: int,
)
    requires
        is_leveling(deps, levels),
        0 <= a < deps.len(),
        in_level(levels, la, a),
        in_level(levels, lb, b),
    ensures
        has_level(levels, a),
        a == b ==> la == lb,
        has_edge(deps, a, b) ==> lb < la,
{
    if a == b {
        let k1 = choose|k: int| 0 <= k < levels[la].len() && #[trigger] levels[la][k] == a;
        let k2 = choose|k: int| 0 <= k < levels[lb].len() && #[trigger] levels[lb][k] == b;
        assert(levels[la][k1] == levels[lb][k2]);
    }
}

} // verus!
