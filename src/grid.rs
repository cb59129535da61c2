//! The grid engine: a fixed lattice of cells and its advance by one generation,
//! all next states computed from the current grid before any is written.
use vstd::prelude::*;
use vstd::arithmetic::div_mod::{lemma_div_multiples_vanish, lemma_fundamental_div_mod, lemma_mod_multiples_basic};
use vstd::arithmetic::mul::lemma_mul_inequality;
use crate::cell::{next_state, Life, LifeState};
use crate::store::{cell_at, cells_of, new_cell_map, positions_of, put_cell};
use dashmap::DashMap;
use rayon::iter::{IndexedParallelIterator, IntoParallelRefIterator, ParallelIterator};

verus! {

/// The offset of the `i`-th neighbour of a cell, for cells `c` pixels apart.
/// The eight directions come in a fixed order: the column to the left from top
/// to bottom, then above and below, then the column to the right from top to bottom.
pub open spec fn offset(c: int, i: int) -> (int, int) {
    if i == 0 {
        (-c, -c)
    } else if i == 1 {
        (-c, 0)
    } else if i == 2 {
        (-c, c)
    } else if i == 3 {
        (0, -c)
    } else if i == 4 {
        (0, c)
    } else if i == 5 {
        (c, -c)
    } else if i == 6 {
        (c, 0)
    } else {
        (c, c)
    }
}

/// Whether `v` is a value of `i32`.
pub open spec fn in_i32(v: int) -> bool {
    i32::MIN <= v <= i32::MAX
}

/// The cell of `m` at position `(x, y)`, if the grid has one there.
pub open spec fn cell_at_spec(m: Map<(i32, i32), Life>, x: int, y: int) -> Option<Life> {
    if in_i32(x) && in_i32(y) && m.contains_key((x as i32, y as i32)) {
        Some(m[(x as i32, y as i32)])
    } else {
        None
    }
}

/// The cells of `m` found at the first `n` neighbour offsets of `(x, y)`, in order.
pub open spec fn neighbors_upto(m: Map<(i32, i32), Life>, x: int, y: int, c: int, n: nat) -> Seq<
    Life,
>
    decreases n,
{
    if n == 0 {
        Seq::empty()
    } else {
        let before = neighbors_upto(m, x, y, c, (n - 1) as nat);
        let o = offset(c, n - 1);
        match cell_at_spec(m, x + o.0, y + o.1) {
            Some(l) => before.push(l),
            None => before,
        }
    }
}

/// The cells of `m` that are adjacent to `(x, y)`, diagonals included, in the
/// fixed order of [`offset`]. Positions outside the grid are left out.
pub open spec fn neighbors_of(m: Map<(i32, i32), Life>, x: int, y: int, c: int) -> Seq<Life> {
    neighbors_upto(m, x, y, c, 8)
}

/// How many cells of `s` are alive.
pub open spec fn count_alive(s: Seq<Life>) -> nat
    decreases s.len(),
{
    if s.len() == 0 {
        0
    } else {
        count_alive(s.drop_last()) + if s.last().state == LifeState::Alive {
            1nat
        } else {
            0nat
        }
    }
}

/// The number of live neighbours of the cell at `p`.
pub open spec fn alive_neighbors(m: Map<(i32, i32), Life>, p: (i32, i32), c: int) -> nat {
    count_alive(neighbors_of(m, p.0 as int, p.1 as int, c))
}

/// The state of the cell at `p` in the next generation.
pub open spec fn next_at(m: Map<(i32, i32), Life>, p: (i32, i32), c: int) -> LifeState {
    next_state(m[p].state, alive_neighbors(m, p, c))
}

/// One generation of the whole grid: every cell takes its next state, computed
/// from the current states alone.
pub open spec fn step_grid(m: Map<(i32, i32), Life>, c: int) -> Map<(i32, i32), Life> {
    Map::new(
        |p: (i32, i32)| m.contains_key(p),
        |p: (i32, i32)| Life { x: m[p].x, y: m[p].y, state: next_at(m, p, c) },
    )
}

proof fn lemma_step_grid_at(m: Map<(i32, i32), Life>, c: int, p: (i32, i32))
    requires
        m.contains_key(p),
    ensures
        step_grid(m, c).contains_key(p),
        step_grid(m, c)[p] == (Life { x: m[p].x, y: m[p].y, state: next_at(m, p, c) }),
{
}

/// A well-formed grid for cells `c` pixels apart: each cell is stored under its
/// own position, and every position is a multiple of `c` on both axes.
pub open spec fn grid_ok(m: Map<(i32, i32), Life>, c: int) -> bool {
    &&& c > 0
    &&& forall|p: (i32, i32)|
        #[trigger] m.contains_key(p) ==> m[p].x == p.0 && m[p].y == p.1 && (p.0 as int) % c == 0
            && (p.1 as int) % c == 0
}

/// `m` with the cell at `p`, if there is one, set to state `s`.
pub open spec fn with_state(m: Map<(i32, i32), Life>, p: (i32, i32), s: LifeState) -> Map<
    (i32, i32),
    Life,
> {
    if m.contains_key(p) {
        m.insert(p, Life { x: m[p].x, y: m[p].y, state: s })
    } else {
        m
    }
}

/// `m` with every cell dead.
pub open spec fn cleared(m: Map<(i32, i32), Life>) -> Map<(i32, i32), Life> {
    Map::new(
        |p: (i32, i32)| m.contains_key(p),
        |p: (i32, i32)| Life { x: m[p].x, y: m[p].y, state: LifeState::Dead },
    )
}

/// The position of the square that holds pixel `v`, for squares of side `c`.
pub open spec fn snap(v: int, c: int) -> int {
    (v / c) * c
}

/// Whether `v` is the coordinate of a lattice line inside `[0, extent)`, for
/// lines `c` pixels apart; only whole cells fit, so a remainder of `extent` is left
/// empty.
pub open spec fn on_lattice(v: int, extent: int, c: int) -> bool {
    0 <= v && v % c == 0 && v / c < extent / c
}

/// The grid of a `w` by `h` pixel area cut into squares of side `c`, all dead.
pub open spec fn initial_grid(w: int, h: int, c: int) -> Map<(i32, i32), Life> {
    Map::new(
        |p: (i32, i32)| on_lattice(p.0 as int, w, c) && on_lattice(p.1 as int, h, c),
        |p: (i32, i32)| Life { x: p.0, y: p.1, state: LifeState::Dead },
    )
}

proof fn lemma_initial_grid_at(w: int, h: int, c: int, p: (i32, i32))
    ensures
        initial_grid(w, h, c).contains_key(p) <==> (on_lattice(p.0 as int, w, c) && on_lattice(
            p.1 as int,
            h,
            c,
        )),
        initial_grid(w, h, c).contains_key(p) ==> initial_grid(w, h, c)[p] == (Life {
            x: p.0,
            y: p.1,
            state: LifeState::Dead,
        }),
{
}

proof fn lemma_lattice_point(k: int, c: int, extent: int)
    requires
        c > 0,
        extent >= 0,
        0 <= k < extent / c,
    ensures
        on_lattice(k * c, extent, c),
        (k * c) / c == k,
        k * c + c <= extent,
{
    lemma_mod_multiples_basic(k, c);
    lemma_div_multiples_vanish(k, c);
    assert(k * c == c * k) by (nonlinear_arith);
    lemma_fundamental_div_mod(extent, c);
    lemma_mul_inequality(k + 1, extent / c, c);
    assert((k + 1) * c == k * c + c) by (nonlinear_arith);
    assert(c * (extent / c) == (extent / c) * c) by (nonlinear_arith);
}

proof fn lemma_lattice_inverse(v: int, c: int)
    requires
        c > 0,
        v % c == 0,
    ensures
        v == (v / c) * c,
{
    lemma_fundamental_div_mod(v, c);
    assert(c * (v / c) == (v / c) * c) by (nonlinear_arith);
}

/// The cells of a simulation, keyed by position, and the spacing of the lattice.
pub struct Game {
    cubes: DashMap<(i32, i32), Life>,
    cube_size: u32,
}

/// A game is seen as the map from each position to the cell stored there.
impl View for Game {
    type V = Map<(i32, i32), Life>;

    closed spec fn view(&self) -> Self::V {
        cells_of(self.cubes)
    }
}

impl Game {
    /// The distance, in pixels, between two neighbouring cells.
    pub closed spec fn cell_size(&self) -> int {
        self.cube_size as int
    }

    /// The grid's invariant: cells stored under their own positions, on a
    /// lattice of the game's spacing.
    pub open spec fn wf(&self) -> bool {
        grid_ok(self@, self.cell_size())
    }

    /// A grid of dead cells covering a `width` by `height` pixel area with squares
    /// of side `cube_size`, one cell per whole square.
    pub fn new(width: u32, height: u32, cube_size: u32) -> (r: Game)
        requires
            cube_size > 0,
            width <= i32::MAX,
            height <= i32::MAX,
        ensures
            r.wf(),
            r.cell_size() == cube_size,
            r@ == initial_grid(width as int, height as int, cube_size as int),
    {
        let c = cube_size;
        let cols = width / c;
        let rows = height / c;
        let mut cubes = new_cell_map();
        let ghost target = initial_grid(width as int, height as int, c as int);
        let mut yy: u32 = 0;
        while yy < rows
            invariant
                c > 0,
                target == initial_grid(width as int, height as int, c as int),
                cols == width / c,
                rows == height / c,
                width <= i32::MAX,
                height <= i32::MAX,
                yy <= rows,
                forall|p: (i32, i32)| #[trigger]
                    cells_of(cubes).contains_key(p) <==> (target.contains_key(p) && (p.1 as int)
                        / (c as int) < yy),
                forall|p: (i32, i32)| #[trigger]
                    cells_of(cubes).contains_key(p) ==> cells_of(cubes)[p] == (Life {
                        x: p.0,
                        y: p.1,
                        state: LifeState::Dead,
                    }),
            decreases rows - yy,
        {
            proof {
                lemma_lattice_point(yy as int, c as int, height as int);
            }
            let y = yy * c;
            assert forall|p: (i32, i32)| #[trigger]
                cells_of(cubes).contains_key(p) <==> (target.contains_key(p) && ((p.1 as int) / (
                c as int) < yy || ((p.1 as int) / (c as int) == yy && (p.0 as int) / (c as int)
                < 0))) by {
                lemma_initial_grid_at(width as int, height as int, c as int, p);
            }
            let mut xx: u32 = 0;
            while xx < cols
                invariant
                    c > 0,
                    target == initial_grid(width as int, height as int, c as int),
                    cols == width / c,
                    rows == height / c,
                    width <= i32::MAX,
                    height <= i32::MAX,
                    yy < rows,
                    xx <= cols,
                    y == yy * c,
                    y + c <= height,
                    on_lattice(y as int, height as int, c as int),
                    (y as int) / (c as int) == yy,
                    forall|p: (i32, i32)| #[trigger]
                        cells_of(cubes).contains_key(p) <==> (target.contains_key(p) && ((p.1 as int)
                            / (c as int) < yy || ((p.1 as int) / (c as int) == yy && (p.0 as int)
                            / (c as int) < xx))),
                    forall|p: (i32, i32)| #[trigger]
                        cells_of(cubes).contains_key(p) ==> cells_of(cubes)[p] == (Life {
                            x: p.0,
                            y: p.1,
                            state: LifeState::Dead,
                        }),
                decreases cols - xx,
            {
                proof {
                    lemma_lattice_point(xx as int, c as int, width as int);
                }
                let x = xx * c;
                let key = (x as i32, y as i32);
                put_cell(&mut cubes, key, Life { x: key.0, y: key.1, state: LifeState::Dead });
                assert forall|p: (i32, i32)| #[trigger]
                    cells_of(cubes).contains_key(p) <==> (target.contains_key(p) && ((p.1 as int)
                        / (c as int) < yy || ((p.1 as int) / (c as int) == yy && (p.0 as int) / (
                        c as int) < xx + 1))) by {
                    lemma_initial_grid_at(width as int, height as int, c as int, p);
                    if target.contains_key(p) && (p.1 as int) / (c as int) == yy && (p.0 as int) / (
                    c as int) == xx {
                        lemma_lattice_inverse(p.0 as int, c as int);
                        lemma_lattice_inverse(p.1 as int, c as int);
                        assert(p == key);
                    }
                }
                xx += 1;
            }
            assert forall|p: (i32, i32)| #[trigger]
                cells_of(cubes).contains_key(p) <==> (target.contains_key(p) && (p.1 as int) / (
                c as int) < yy + 1) by {
                lemma_initial_grid_at(width as int, height as int, c as int, p);
                if target.contains_key(p) && (p.1 as int) / (c as int) == yy {
                    assert((p.0 as int) / (c as int) < cols);
                }
            }
            yy += 1;
        }
        let r = Game { cubes, cube_size: c };
        assert forall|p: (i32, i32)| #[trigger] target.contains_key(p) implies (p.1 as int) / (
        c as int) < yy by {
            lemma_initial_grid_at(width as int, height as int, c as int, p);
        }
        assert forall|p: (i32, i32)| #[trigger] r@.contains_key(p) implies r@[p] == target[p] by {
            lemma_initial_grid_at(width as int, height as int, c as int, p);
        }
        assert(r@ =~= target);
        r
    }

    /// The distance, in pixels, between two neighbouring cells.
    pub fn cube_size(&self) -> (r: u32)
        ensures
            r == self.cell_size(),
    {
        self.cube_size
    }

    /// The state of the cell at `(x, y)`, if the grid has one there.
    pub fn state_at(&self, x: i32, y: i32) -> (r: Option<LifeState>)
        ensures
            r == (if self@.contains_key((x, y)) {
                Some(self@[(x, y)].state)
            } else {
                None
            }),
    {
        match cell_at(&self.cubes, (x, y)) {
            Some(l) => Some(l.state),
            None => None,
        }
    }

    /// The positions of all cells, each once, in no particular order.
    pub fn positions(&self) -> (r: Vec<(i32, i32)>)
        ensures
            r@.no_duplicates(),
            forall|p: (i32, i32)| r@.contains(p) <==> self@.contains_key(p),
    {
        positions_of(&self.cubes)
    }

    /// Sets the cell at `pos` to `state`; a position outside the grid changes nothing.
    pub fn set_state(&mut self, pos: (i32, i32), state: LifeState)
        requires
            old(self).wf(),
        ensures
            final(self).wf(),
            final(self).cell_size() == old(self).cell_size(),
            final(self)@ == with_state(old(self)@, pos, state),
    {
        match cell_at(&self.cubes, pos) {
            Some(l) => {
                put_cell(&mut self.cubes, pos, Life { x: l.x, y: l.y, state });
            },
            None => {},
        }
    }

    /// Flips the cell under pixel `(px, py)`, as a click on it does; a pixel
    /// outside the grid changes nothing.
    pub fn toggle_at(&mut self, px: u32, py: u32)
        requires
            old(self).wf(),
        ensures
            final(self).wf(),
            final(self).cell_size() == old(self).cell_size(),
            ({
                let c = old(self).cell_size();
                let x = snap(px as int, c);
                let y = snap(py as int, c);
                &&& in_i32(x) && in_i32(y) && old(self)@.contains_key((x as i32, y as i32))
                    ==> final(self)@ == with_state(
                    old(self)@,
                    (x as i32, y as i32),
                    old(self)@[(x as i32, y as i32)].state.toggled_spec(),
                )
                &&& !(in_i32(x) && in_i32(y) && old(self)@.contains_key((x as i32, y as i32)))
                    ==> final(self)@ == old(self)@
            }),
    {
        let c = self.cube_size as u64;
        let qx = px as u64 / c;
        let qy = py as u64 / c;
        assert(qx * c <= px) by (nonlinear_arith)
            requires
                qx == px as u64 / c,
                c > 0,
        ;
        assert(qy * c <= py) by (nonlinear_arith)
            requires
                qy == py as u64 / c,
                c > 0,
        ;
        let x = qx * c;
        let y = qy * c;
        if x <= i32::MAX as u64 && y <= i32::MAX as u64 {
            let pos = (x as i32, y as i32);
            match cell_at(&self.cubes, pos) {
                Some(l) => {
                    put_cell(&mut self.cubes, pos, Life { x: l.x, y: l.y, state: l.state.toggled() });
                },
                None => {},
            }
        }
    }

    /// Sets every cell to `Dead`.
    pub fn clear(&mut self)
        requires
            old(self).wf(),
        ensures
            final(self).wf(),
            final(self).cell_size() == old(self).cell_size(),
            final(self)@ == cleared(old(self)@),
    {
        let keys = positions_of(&self.cubes);
        let ghost before = self@;
        let ghost c = self.cell_size();
        let mut i: usize = 0;
        while i < keys.len()
            invariant
                i <= keys@.len(),
                c == self.cell_size(),
                grid_ok(before, c),
                forall|p: (i32, i32)| keys@.contains(p) <==> before.contains_key(p),
                forall|p: (i32, i32)| #[trigger]
                    self@.contains_key(p) <==> before.contains_key(p),
                forall|p: (i32, i32)|
                    #[trigger] before.contains_key(p) ==> self@[p] == (if keys@.subrange(
                        0,
                        i as int,
                    ).contains(p) {
                        Life { x: before[p].x, y: before[p].y, state: LifeState::Dead }
                    } else {
                        before[p]
                    }),
            decreases keys@.len() - i,
        {
            let k = keys[i];
            let ghost prev = self@;
            assert(keys@.contains(k));
            assert(before.contains_key(k));
            put_cell(&mut self.cubes, k, Life { x: k.0, y: k.1, state: LifeState::Dead });
            assert(keys@.subrange(0, i + 1) == keys@.subrange(0, i as int).push(k));
            assert forall|p: (i32, i32)| #[trigger] before.contains_key(p) implies self@[p] == (
            if keys@.subrange(0, i + 1).contains(p) {
                Life { x: before[p].x, y: before[p].y, state: LifeState::Dead }
            } else {
                before[p]
            }) by {
                if p != k {
                    assert(prev.contains_key(p));
                    assert(keys@.subrange(0, i + 1).contains(p) == keys@.subrange(
                        0,
                        i as int,
                    ).contains(p));
                } else {
                    assert(keys@.subrange(0, i + 1)[i as int] == k);
                }
            }
            i += 1;
        }
        assert(keys@.subrange(0, keys@.len() as int) == keys@);
        assert forall|p: (i32, i32)| #[trigger] self@.contains_key(p) implies self@[p] == cleared(
            before,
        )[p] by {
            assert(keys@.contains(p));
        }
        assert(self@ =~= cleared(before));
    }

    /// The cells around `life` that exist in the grid, in the fixed order of [`offset`].
    pub fn get_neighbors(&self, life: &Life) -> (r: Vec<Life>)
        ensures
            r@ == neighbors_of(self@, life.x as int, life.y as int, self.cell_size()),
    {
        let c = self.cube_size as i64;
        let mut out: Vec<Life> = Vec::new();
        let mut i: usize = 0;
        while i < 8
            invariant
                i <= 8,
                c == self.cell_size(),
                0 <= c <= u32::MAX,
                out@ == neighbors_upto(self@, life.x as int, life.y as int, c as int, i as nat),
            decreases 8 - i,
        {
            let (dx, dy) = neighbor_offset(c, i);
            let nx = life.x as i64 + dx;
            let ny = life.y as i64 + dy;
            if i32::MIN as i64 <= nx && nx <= i32::MAX as i64 && i32::MIN as i64 <= ny && ny
                <= i32::MAX as i64 {
                match cell_at(&self.cubes, (nx as i32, ny as i32)) {
                    Some(n) => out.push(n),
                    None => {},
                }
            }
            i += 1;
        }
        out
    }

    /// The state that the cell at `pos` takes in the next generation.
    pub fn next_state_at(&self, pos: (i32, i32)) -> (r: LifeState)
        requires
            self.wf(),
            self@.contains_key(pos),
        ensures
            r == next_at(self@, pos, self.cell_size()),
    {
        let life = match cell_at(&self.cubes, pos) {
            Some(l) => l,
            None => Life { x: pos.0, y: pos.1, state: LifeState::Dead },
        };
        let neighbors = self.get_neighbors(&life);
        let alive = count_alive_in(&neighbors);
        life.state.next(alive)
    }

    /// Advances every cell by one generation. All next states are computed from
    /// the current grid before any of them is written back.
    pub fn apply_rules_to_each_lifes(&mut self)
        requires
            old(self).wf(),
        ensures
            final(self).wf(),
            final(self).cell_size() == old(self).cell_size(),
            final(self)@ == step_grid(old(self)@, old(self).cell_size()),
    {
        let keys = positions_of(&self.cubes);
        assert forall|j: int| 0 <= j < keys@.len() implies self@.contains_key(#[trigger] keys@[j]) by {
            assert(keys@.contains(keys@[j]));
        }
        let states = next_states(self, &keys);
        let ghost before = self@;
        let ghost c = self.cell_size();
        let ghost after = step_grid(before, c);
        let mut i: usize = 0;
        while i < keys.len()
            invariant
                i <= keys@.len(),
                states@.len() == keys@.len(),
                c == self.cell_size(),
                grid_ok(before, c),
                forall|j: int| 0 <= j < keys@.len() ==> before.contains_key(#[trigger] keys@[j]),
                forall|j: int|
                    0 <= j < keys@.len() ==> #[trigger] states@[j] == next_at(before, keys@[j], c),
                forall|p: (i32, i32)| #[trigger]
                    self@.contains_key(p) <==> before.contains_key(p),
                forall|p: (i32, i32)|
                    #[trigger] before.contains_key(p) ==> self@[p] == (if keys@.subrange(
                        0,
                        i as int,
                    ).contains(p) {
                        Life { x: before[p].x, y: before[p].y, state: next_at(before, p, c) }
                    } else {
                        before[p]
                    }),
            decreases keys@.len() - i,
        {
            let k = keys[i];
            let ghost prev = self@;
            assert(before.contains_key(k));
            assert(states@[i as int] == next_at(before, k, c));
            put_cell(&mut self.cubes, k, Life { x: k.0, y: k.1, state: states[i] });
            assert(keys@.subrange(0, i + 1) == keys@.subrange(0, i as int).push(k));
            assert forall|p: (i32, i32)| #[trigger] before.contains_key(p) implies self@[p] == (
            if keys@.subrange(0, i + 1).contains(p) {
                Life { x: before[p].x, y: before[p].y, state: next_at(before, p, c) }
            } else {
                before[p]
            }) by {
                if p != k {
                    assert(prev.contains_key(p));
                    assert(keys@.subrange(0, i + 1).contains(p) == keys@.subrange(
                        0,
                        i as int,
                    ).contains(p));
                } else {
                    assert(keys@.subrange(0, i + 1)[i as int] == k);
                }
            }
            i += 1;
        }
        assert(keys@.subrange(0, keys@.len() as int) == keys@);
        assert forall|p: (i32, i32)| #[trigger] self@.contains_key(p) <==> after.contains_key(p) by {
            if before.contains_key(p) {
                lemma_step_grid_at(before, c, p);
            }
        }
        assert forall|p: (i32, i32)| #[trigger] self@.contains_key(p) implies self@[p] == after[p] by {
            lemma_step_grid_at(before, c, p);
            assert(keys@.contains(p));
        }
        assert(self@ =~= after);
        assert forall|p: (i32, i32)| #[trigger] after.contains_key(p) implies after[p].x == p.0
            && after[p].y == p.1 && (p.0 as int) % c == 0 && (p.1 as int) % c == 0 by {
            lemma_step_grid_at(before, c, p);
        }
    }
}

/// The offsets of the lines that separate squares of side `cube_size` across an
/// extent of `extent` pixels: 0, `cube_size`, `2 * cube_size`, ... while below `extent`.
pub fn grid_lines(extent: u32, cube_size: u32) -> (r: Vec<u32>)
    requires
        cube_size > 0,
    ensures
        r@.len() == (extent as int + cube_size as int - 1) / cube_size as int,
        forall|i: int| 0 <= i < r@.len() ==> #[trigger] r@[i] == i * cube_size as int,
{
    let mut out: Vec<u32> = Vec::new();
    let mut v: u32 = 0;
    let ghost c = cube_size as int;
    assert(out@.len() * c == 0) by (nonlinear_arith)
        requires
            out@.len() == 0,
    ;
    while v < extent
        invariant
            c == cube_size as int,
            c > 0,
            v as int == out@.len() * c,
            out@.len() * c < extent + c,
            forall|i: int| 0 <= i < out@.len() ==> #[trigger] out@[i] == i * c,
        decreases extent - v,
    {
        out.push(v);
        assert((out@.len() - 1) * c == out@.len() * c - c) by (nonlinear_arith);
        if extent - v <= cube_size {
            assert(out@.len() * c >= extent) by (nonlinear_arith)
                requires
                    out@.len() * c == v + c,
                    extent - v <= c,
            ;
            proof {
                lemma_ceil_div(out@.len() as int, c, extent as int);
            }
            return out;
        }
        v = v + cube_size;
    }
    proof {
        lemma_ceil_div(out@.len() as int, c, extent as int);
    }
    out
}

proof fn lemma_ceil_div(n: int, c: int, e: int)
    requires
        c > 0,
        n >= 0,
        e >= 0,
        n * c >= e,
        n * c < e + c,
    ensures
        (e + c - 1) / c == n,
{
    lemma_fundamental_div_mod(e + c - 1, c);
    let q = (e + c - 1) / c;
    let r = (e + c - 1) % c;
    assert(0 <= r < c) by {
        vstd::arithmetic::div_mod::lemma_mod_pos_bound(e + c - 1, c);
    }
    assert(c * q == q * c) by (nonlinear_arith);
    if q < n {
        assert(q * c <= (n - 1) * c) by (nonlinear_arith)
            requires
                q <= n - 1,
                c > 0,
        ;
        assert((n - 1) * c == n * c - c) by (nonlinear_arith);
    }
    if q > n {
        assert(q * c >= (n + 1) * c) by (nonlinear_arith)
            requires
                q >= n + 1,
                c > 0,
        ;
        assert((n + 1) * c == n * c + c) by (nonlinear_arith);
    }
}

/// The offset of the `i`-th neighbour, for cells `c` pixels apart.
fn neighbor_offset(c: i64, i: usize) -> (r: (i64, i64))
    requires
        i < 8,
        0 <= c <= u32::MAX,
    ensures
        r.0 == offset(c as int, i as int).0,
        r.1 == offset(c as int, i as int).1,
{
    if i == 0 {
        (-c, -c)
    } else if i == 1 {
        (-c, 0)
    } else if i == 2 {
        (-c, c)
    } else if i == 3 {
        (0, -c)
    } else if i == 4 {
        (0, c)
    } else if i == 5 {
        (c, -c)
    } else if i == 6 {
        (c, 0)
    } else {
        (c, c)
    }
}

/// How many cells of `cells` are alive.
pub fn count_alive_in(cells: &Vec<Life>) -> (r: usize)
    ensures
        r == count_alive(cells@),
{
    let mut n: usize = 0;
    let mut i: usize = 0;
    while i < cells.len()
        invariant
            i <= cells@.len(),
            n == count_alive(cells@.subrange(0, i as int)),
            n <= i,
        decreases cells@.len() - i,
    {
        assert(cells@.subrange(0, i + 1).drop_last() == cells@.subrange(0, i as int));
        if cells[i].state == LifeState::Alive {
            n += 1;
        }
        i += 1;
    }
    assert(cells@.subrange(0, cells@.len() as int) == cells@);
    n
}

/// Relies on rayon's `par_iter`, `map` and `collect_into_vec`: each key is handed to
/// [`Game::next_state_at`] on some worker, and the results come back in the order
/// of the keys.
#[verifier::external_body]
fn next_states(game: &Game, keys: &Vec<(i32, i32)>) -> (r: Vec<LifeState>)
    requires
        game.wf(),
        forall|j: int| 0 <= j < keys@.len() ==> game@.contains_key(#[trigger] keys@[j]),
    ensures
        r@.len() == keys@.len(),
        forall|j: int|
            0 <= j < keys@.len() ==> #[trigger] r@[j] == next_at(game@, keys@[j], game.cell_size()),
{
    let mut r = Vec::new();
    keys.par_iter().map(|k| game.next_state_at(*k)).collect_into_vec(&mut r);
    r
}

} // verus!
