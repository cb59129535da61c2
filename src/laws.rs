//! Properties of the step: no cell comes alive out of nothing, the rule at each
//! cell, determinism, counting at the grid's edges, and two classic patterns.
use vstd::prelude::*;
use crate::cell::{next_state, Life, LifeState};
use crate::grid::{
    alive_neighbors, cell_at_spec, count_alive, grid_ok, neighbors_of, neighbors_upto,
    next_at, offset, step_grid,
};

verus! {

/// Whether the grid has a live cell at `(a, b)`.
pub open spec fn is_alive_at(m: Map<(i32, i32), Life>, a: int, b: int) -> bool {
    match cell_at_spec(m, a, b) {
        Some(l) => l.state == LifeState::Alive,
        None => false,
    }
}

/// Whether the grid has a cell, alive or dead, at `(a, b)`.
pub open spec fn has_cell(m: Map<(i32, i32), Life>, a: int, b: int) -> bool {
    cell_at_spec(m, a, b) is Some
}

/// How many of the first `n` neighbour positions of `(x, y)` hold a live cell.
pub open spec fn alive_offsets(m: Map<(i32, i32), Life>, x: int, y: int, c: int, n: nat) -> nat
    decreases n,
{
    if n == 0 {
        0
    } else {
        alive_offsets(m, x, y, c, (n - 1) as nat) + if is_alive_at(
            m,
            x + offset(c, n - 1).0,
            y + offset(c, n - 1).1,
        ) {
            1nat
        } else {
            0nat
        }
    }
}

/// `generations(m, c, n)` is the grid after `n` steps.
pub open spec fn generations(m: Map<(i32, i32), Life>, c: int, n: nat) -> Map<(i32, i32), Life>
    decreases n,
{
    if n == 0 {
        m
    } else {
        step_grid(generations(m, c, (n - 1) as nat), c)
    }
}

/// Counting the live neighbours of a cell is counting, over the eight
/// neighbour positions, those that hold a live cell: positions outside the grid
/// count for nothing.
pub proof fn lemma_count_by_offsets(m: Map<(i32, i32), Life>, x: int, y: int, c: int, n: nat)
    ensures
        count_alive(neighbors_upto(m, x, y, c, n)) == alive_offsets(m, x, y, c, n),
        neighbors_upto(m, x, y, c, n).len() <= n,
    decreases n,
{
    if n > 0 {
        lemma_count_by_offsets(m, x, y, c, (n - 1) as nat);
        let before = neighbors_upto(m, x, y, c, (n - 1) as nat);
        let o = offset(c, n - 1);
        match cell_at_spec(m, x + o.0, y + o.1) {
            Some(l) => {
                assert(before.push(l).drop_last() == before);
            },
            None => {},
        }
    }
}

/// A cell has at most eight neighbours, and never more live neighbours than
/// neighbours; each neighbour is a cell of the grid found at one of the eight
/// positions around it.
pub proof fn lemma_neighbors_exist(m: Map<(i32, i32), Life>, x: int, y: int, c: int)
    ensures
        neighbors_of(m, x, y, c).len() <= 8,
        count_alive(neighbors_of(m, x, y, c)) <= neighbors_of(m, x, y, c).len(),
        forall|i: int|
            0 <= i < neighbors_of(m, x, y, c).len() ==> exists|j: int|
                0 <= j < 8 && cell_at_spec(m, x + offset(c, j).0, y + offset(c, j).1) == Some(
                    #[trigger] neighbors_of(m, x, y, c)[i],
                ),
{
    lemma_count_by_offsets(m, x, y, c, 8);
    lemma_neighbors_upto_exist(m, x, y, c, 8);
    lemma_count_at_most_len(neighbors_of(m, x, y, c));
}

proof fn lemma_count_at_most_len(s: Seq<Life>)
    ensures
        count_alive(s) <= s.len(),
    decreases s.len(),
{
    if s.len() > 0 {
        lemma_count_at_most_len(s.drop_last());
    }
}

proof fn lemma_neighbors_upto_exist(m: Map<(i32, i32), Life>, x: int, y: int, c: int, n: nat)
    ensures
        forall|i: int|
            0 <= i < neighbors_upto(m, x, y, c, n).len() ==> exists|j: int|
                0 <= j < n && cell_at_spec(m, x + offset(c, j).0, y + offset(c, j).1) == Some(
                    #[trigger] neighbors_upto(m, x, y, c, n)[i],
                ),
    decreases n,
{
    if n > 0 {
        lemma_neighbors_upto_exist(m, x, y, c, (n - 1) as nat);
        let before = neighbors_upto(m, x, y, c, (n - 1) as nat);
        let s = neighbors_upto(m, x, y, c, n);
        assert forall|i: int| 0 <= i < s.len() implies exists|j: int|
            0 <= j < n && cell_at_spec(m, x + offset(c, j).0, y + offset(c, j).1) == Some(
                #[trigger] s[i],
            ) by {
            if i < before.len() {
                assert(s[i] == before[i]);
                let j = choose|j: int|
                    0 <= j < n - 1 && cell_at_spec(m, x + offset(c, j).0, y + offset(c, j).1)
                        == Some(#[trigger] before[i]);
                assert(0 <= j < n);
            } else {
                assert(cell_at_spec(m, x + offset(c, n - 1).0, y + offset(c, n - 1).1) == Some(
                    s[i],
                ));
            }
        }
    }
}

/// In the next generation a cell of `m` keeps its position, and its state
/// follows the rule from its current state and its live neighbours.
proof fn lemma_step_at(m: Map<(i32, i32), Life>, c: int, p: (i32, i32))
    requires
        m.contains_key(p),
    ensures
        step_grid(m, c).contains_key(p),
        step_grid(m, c)[p] == (Life { x: m[p].x, y: m[p].y, state: next_at(m, p, c) }),
        step_grid(m, c).dom() == m.dom(),
{
    assert(step_grid(m, c).dom() =~= m.dom());
}

/// The number of live neighbours of the cell at `p`, written out over the eight
/// positions around it.
proof fn lemma_alive_neighbors_sum(m: Map<(i32, i32), Life>, c: int, p: (i32, i32))
    ensures
        alive_neighbors(m, p, c) == (if is_alive_at(m, p.0 - c, p.1 - c) {
            1int
        } else {
            0
        }) + (if is_alive_at(m, p.0 - c, p.1 as int) {
            1int
        } else {
            0
        }) + (if is_alive_at(m, p.0 - c, p.1 + c) {
            1int
        } else {
            0
        }) + (if is_alive_at(m, p.0 as int, p.1 - c) {
            1int
        } else {
            0
        }) + (if is_alive_at(m, p.0 as int, p.1 + c) {
            1int
        } else {
            0
        }) + (if is_alive_at(m, p.0 + c, p.1 - c) {
            1int
        } else {
            0
        }) + (if is_alive_at(m, p.0 + c, p.1 as int) {
            1int
        } else {
            0
        }) + (if is_alive_at(m, p.0 + c, p.1 + c) {
            1int
        } else {
            0
        }),
{
    lemma_count_by_offsets(m, p.0 as int, p.1 as int, c, 8);
    reveal_with_fuel(alive_offsets, 9);
}

/// A grid where every cell is dead stays so: no cell comes alive out of nothing.
pub proof fn lemma_dead_grid_stays_dead(m: Map<(i32, i32), Life>, c: int)
    requires
        forall|p: (i32, i32)| #[trigger] m.contains_key(p) ==> m[p].state == LifeState::Dead,
    ensures
        step_grid(m, c).dom() == m.dom(),
        forall|p: (i32, i32)| #[trigger]
            step_grid(m, c).contains_key(p) ==> step_grid(m, c)[p].state == LifeState::Dead,
{
    assert(step_grid(m, c).dom() =~= m.dom());
    assert forall|p: (i32, i32)| #[trigger] step_grid(m, c).contains_key(p) implies step_grid(
        m,
        c,
    )[p].state == LifeState::Dead by {
        lemma_step_at(m, c, p);
        lemma_alive_neighbors_sum(m, c, p);
    }
}

/// A live cell stays alive exactly when two or three of its neighbours are alive.
pub proof fn lemma_live_cell_rule(m: Map<(i32, i32), Life>, c: int, p: (i32, i32))
    requires
        m.contains_key(p),
        m[p].state == LifeState::Alive,
    ensures
        step_grid(m, c)[p].state == (if alive_neighbors(m, p, c) == 2 || alive_neighbors(m, p, c)
            == 3 {
            LifeState::Alive
        } else {
            LifeState::Dead
        }),
{
    lemma_step_at(m, c, p);
}

/// A dead cell comes alive exactly when three of its neighbours are alive.
pub proof fn lemma_dead_cell_rule(m: Map<(i32, i32), Life>, c: int, p: (i32, i32))
    requires
        m.contains_key(p),
        m[p].state == LifeState::Dead,
    ensures
        step_grid(m, c)[p].state == (if alive_neighbors(m, p, c) == 3 {
            LifeState::Alive
        } else {
            LifeState::Dead
        }),
{
    lemma_step_at(m, c, p);
}

/// The step depends on the grid and the spacing alone: equal grids give equal
/// next generations, and so equal histories.
pub proof fn lemma_step_deterministic(m1: Map<(i32, i32), Life>, m2: Map<(i32, i32), Life>, c: int, n: nat)
    requires
        m1 == m2,
    ensures
        step_grid(m1, c) == step_grid(m2, c),
        generations(m1, c, n) == generations(m2, c, n),
{
}

/// The live cells of `m` are exactly the 2x2 square whose top left cell is at `(x, y)`.
pub open spec fn is_block(m: Map<(i32, i32), Life>, c: int, x: int, y: int) -> bool {
    forall|a: int, b: int| #[trigger]
        is_alive_at(m, a, b) <==> ((a == x || a == x + c) && (b == y || b == y + c))
}

/// The live cells of `m` are exactly three in a row, centred on `(x, y)`.
pub open spec fn is_row_of_three(m: Map<(i32, i32), Life>, c: int, x: int, y: int) -> bool {
    forall|a: int, b: int| #[trigger]
        is_alive_at(m, a, b) <==> (b == y && (a == x - c || a == x || a == x + c))
}

/// The live cells of `m` are exactly three in a column, centred on `(x, y)`.
pub open spec fn is_column_of_three(m: Map<(i32, i32), Life>, c: int, x: int, y: int) -> bool {
    forall|a: int, b: int| #[trigger]
        is_alive_at(m, a, b) <==> (a == x && (b == y - c || b == y || b == y + c))
}

/// Whether `(a, b)` is alive in the next generation, from the rule at that cell.
proof fn lemma_alive_after(m: Map<(i32, i32), Life>, c: int, a: int, b: int)
    requires
        grid_ok(m, c),
    ensures
        step_grid(m, c).dom() == m.dom(),
        has_cell(m, a, b) ==> is_alive_at(step_grid(m, c), a, b) == (next_state(
            m[(a as i32, b as i32)].state,
            alive_neighbors(m, (a as i32, b as i32), c),
        ) == LifeState::Alive),
        has_cell(m, a, b) ==> (is_alive_at(m, a, b) <==> m[(a as i32, b as i32)].state
            == LifeState::Alive),
        !has_cell(m, a, b) ==> !is_alive_at(step_grid(m, c), a, b) && !is_alive_at(m, a, b),
{
    assert(step_grid(m, c).dom() =~= m.dom());
    if has_cell(m, a, b) {
        let p = (a as i32, b as i32);
        lemma_step_at(m, c, p);
        lemma_alive_neighbors_sum(m, c, p);
    }
}

/// Two grids over the same positions, with cells stored under their own
/// positions, are equal when the same cells are alive in both.
proof fn lemma_same_alive_same_grid(m1: Map<(i32, i32), Life>, m2: Map<(i32, i32), Life>, c: int)
    requires
        grid_ok(m1, c),
        grid_ok(m2, c),
        m1.dom() == m2.dom(),
        forall|p: (i32, i32)|
            #[trigger] m1.contains_key(p) ==> (is_alive_at(m1, p.0 as int, p.1 as int)
                <==> is_alive_at(m2, p.0 as int, p.1 as int)),
    ensures
        m1 == m2,
{
    assert forall|p: (i32, i32)| #[trigger] m1.contains_key(p) implies m1[p] == m2[p] by {
        assert(m2.contains_key(p));
        assert(is_alive_at(m1, p.0 as int, p.1 as int) <==> is_alive_at(m2, p.0 as int, p.1 as int));
        assert(m1[p].state == m2[p].state);
    }
    assert(m1 =~= m2);
}

proof fn lemma_step_keeps_grid_ok(m: Map<(i32, i32), Life>, c: int)
    requires
        grid_ok(m, c),
    ensures
        grid_ok(step_grid(m, c), c),
        step_grid(m, c).dom() == m.dom(),
{
    assert(step_grid(m, c).dom() =~= m.dom());
    assert forall|p: (i32, i32)| #[trigger] step_grid(m, c).contains_key(p) implies step_grid(m, c)[p].x
        == p.0 && step_grid(m, c)[p].y == p.1 && (p.0 as int) % c == 0 && (p.1 as int) % c == 0 by {
        lemma_step_at(m, c, p);
    }
}

/// A block is a still life: one step leaves the grid as it was.
pub proof fn lemma_block_step(m: Map<(i32, i32), Life>, c: int, x: int, y: int)
    requires
        grid_ok(m, c),
        is_block(m, c, x, y),
    ensures
        step_grid(m, c) == m,
{
    lemma_step_keeps_grid_ok(m, c);
    assert forall|p: (i32, i32)| #[trigger] m.contains_key(p) implies (is_alive_at(
        step_grid(m, c),
        p.0 as int,
        p.1 as int,
    ) <==> is_alive_at(m, p.0 as int, p.1 as int)) by {
        lemma_alive_after(m, c, p.0 as int, p.1 as int);
        lemma_alive_neighbors_sum(m, c, p);
    }
    lemma_same_alive_same_grid(step_grid(m, c), m, c);
}

/// A block is unchanged after any number of steps.
pub proof fn lemma_block_still_life(m: Map<(i32, i32), Life>, c: int, x: int, y: int, n: nat)
    requires
        grid_ok(m, c),
        is_block(m, c, x, y),
    ensures
        generations(m, c, n) == m,
    decreases n,
{
    if n > 0 {
        lemma_block_still_life(m, c, x, y, (n - 1) as nat);
        lemma_block_step(m, c, x, y);
    }
}

/// Three in a row turn into three in a column about the same centre, where the
/// grid has cells above and below the centre.
pub proof fn lemma_row_to_column(m: Map<(i32, i32), Life>, c: int, x: int, y: int)
    requires
        grid_ok(m, c),
        is_row_of_three(m, c, x, y),
        has_cell(m, x, y - c),
        has_cell(m, x, y + c),
    ensures
        grid_ok(step_grid(m, c), c),
        step_grid(m, c).dom() == m.dom(),
        is_column_of_three(step_grid(m, c), c, x, y),
{
    lemma_step_keeps_grid_ok(m, c);
    assert(is_alive_at(m, x, y));
    assert forall|a: int, b: int| #[trigger] is_alive_at(step_grid(m, c), a, b) <==> (a == x && (b
        == y - c || b == y || b == y + c)) by {
        lemma_alive_after(m, c, a, b);
        if has_cell(m, a, b) {
            lemma_alive_neighbors_sum(m, c, (a as i32, b as i32));
        }
    }
}

/// Three in a column turn into three in a row about the same centre, where the
/// grid has cells left and right of the centre.
pub proof fn lemma_column_to_row(m: Map<(i32, i32), Life>, c: int, x: int, y: int)
    requires
        grid_ok(m, c),
        is_column_of_three(m, c, x, y),
        has_cell(m, x - c, y),
        has_cell(m, x + c, y),
    ensures
        grid_ok(step_grid(m, c), c),
        step_grid(m, c).dom() == m.dom(),
        is_row_of_three(step_grid(m, c), c, x, y),
{
    lemma_step_keeps_grid_ok(m, c);
    assert(is_alive_at(m, x, y));
    assert forall|a: int, b: int| #[trigger] is_alive_at(step_grid(m, c), a, b) <==> (b == y && (a
        == x - c || a == x || a == x + c)) by {
        lemma_alive_after(m, c, a, b);
        if has_cell(m, a, b) {
            lemma_alive_neighbors_sum(m, c, (a as i32, b as i32));
        }
    }
}

/// A blinker oscillates with period two: after one step the row stands upright,
/// after two it is the grid it started from. The grid needs cells above and
/// below the centre for the upright phase.
pub proof fn lemma_blinker_period_two(m: Map<(i32, i32), Life>, c: int, x: int, y: int)
    requires
        grid_ok(m, c),
        is_row_of_three(m, c, x, y),
        has_cell(m, x, y - c),
        has_cell(m, x, y + c),
    ensures
        is_column_of_three(generations(m, c, 1), c, x, y),
        generations(m, c, 2) == m,
{
    reveal_with_fuel(generations, 3);
    assert(is_alive_at(m, x - c, y) && is_alive_at(m, x + c, y));
    lemma_row_to_column(m, c, x, y);
    let m1 = step_grid(m, c);
    lemma_column_to_row(m1, c, x, y);
    let m2 = step_grid(m1, c);
    assert forall|p: (i32, i32)| #[trigger] m2.contains_key(p) implies (is_alive_at(
        m2,
        p.0 as int,
        p.1 as int,
    ) <==> is_alive_at(m, p.0 as int, p.1 as int)) by {
        assert(is_alive_at(m2, p.0 as int, p.1 as int) <==> (p.1 as int == y && (p.0 as int == x - c
            || p.0 as int == x || p.0 as int == x + c)));
        assert(is_alive_at(m, p.0 as int, p.1 as int) <==> (p.1 as int == y && (p.0 as int == x - c
            || p.0 as int == x || p.0 as int == x + c)));
    }
    lemma_same_alive_same_grid(m2, m, c);
}

} // verus!
