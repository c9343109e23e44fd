//! The deterministic tile-merging game engine.
//!
//! The state is a 4x4 grid of 8-bit exponent cells stored row-major (0 =
//! empty, `n >= 1` = a tile of value `2^n`), a cumulative score, and the
//! xorshift generator state. A move slides every row or column with the line
//! rule, and spawns one tile when and only when some cell changed; which cell
//! and which tile are a deterministic function of the grid and the generator
//! state.

use vstd::prelude::*;

use crate::line::{
    GRID, lemma_nonzeros_concat, lemma_nonzeros_zeros, lemma_occ4_eq, lemma_occ_rev4,
    lemma_occ_update, lemma_slide_bounded, lemma_slide_len, lemma_slide_occ, nz, occ, rev4,
    slide_line, slide_spec,
};
use crate::rng::xorshift_step;

verus! {

/// Number of cells in the whole grid.
pub const CELLS: usize = GRID * GRID;

/// The four slide directions.
#[derive(Clone, Copy)]
pub enum Direction {
    Up,
    Down,
    Left,
    Right,
}

/// Whether `dir` slides whole rows (else whole columns).
pub open spec fn is_row_dir(dir: Direction) -> bool {
    dir == Direction::Left || dir == Direction::Right
}

/// Row `r` of the grid, left to right.
pub open spec fn row_of(g: Seq<u8>, r: int) -> Seq<u8> {
    Seq::new(4, |c: int| g[4 * r + c])
}

/// Column `c` of the grid, top to bottom.
pub open spec fn col_of(g: Seq<u8>, c: int) -> Seq<u8> {
    Seq::new(4, |r: int| g[4 * r + c])
}

/// Line `k` of the grid in the orientation the slide works on: sliding is
/// always towards index 0 of the line, so Right and Down read their line
/// reversed.
pub open spec fn line_of(g: Seq<u8>, dir: Direction, k: int) -> Seq<u8> {
    match dir {
        Direction::Left => row_of(g, k),
        Direction::Right => rev4(row_of(g, k)),
        Direction::Up => col_of(g, k),
        Direction::Down => rev4(col_of(g, k)),
    }
}

/// Grid index of cell `c` of line `k` in the line orientation of `dir`.
pub open spec fn grid_pos(dir: Direction, k: int, c: int) -> int {
    match dir {
        Direction::Left => 4 * k + c,
        Direction::Right => 4 * k + 3 - c,
        Direction::Up => 4 * c + k,
        Direction::Down => 4 * (3 - c) + k,
    }
}

/// Which line of `dir` the grid cell `i` belongs to.
pub open spec fn line_index(dir: Direction, i: int) -> int {
    if is_row_dir(dir) {
        i / 4
    } else {
        i % 4
    }
}

/// Position within its line (in the line orientation of `dir`) of cell `i`.
pub open spec fn cpos_of(dir: Direction, i: int) -> int {
    match dir {
        Direction::Left => i % 4,
        Direction::Right => 3 - i % 4,
        Direction::Up => i / 4,
        Direction::Down => 3 - i / 4,
    }
}

/// Line `k` after the slide, written back in grid orientation.
pub open spec fn slid_line(g: Seq<u8>, dir: Direction, k: int) -> Seq<u8> {
    match dir {
        Direction::Left => slide_spec(row_of(g, k)),
        Direction::Right => rev4(slide_spec(rev4(row_of(g, k)))),
        Direction::Up => slide_spec(col_of(g, k)),
        Direction::Down => rev4(slide_spec(rev4(col_of(g, k)))),
    }
}

/// The grid after sliding every line of `dir`, before any spawn.
pub open spec fn move_grid(g: Seq<u8>, dir: Direction) -> Seq<u8> {
    Seq::new(
        16,
        |i: int|
            if is_row_dir(dir) {
                slid_line(g, dir, i / 4)[i % 4]
            } else {
                slid_line(g, dir, i % 4)[i / 4]
            },
    )
}

/// Every exponent stays below the largest 8-bit value, so a merge can always
/// increment it.
pub open spec fn cells_below_max(g: Seq<u8>) -> bool {
    forall|i: int| 0 <= i < g.len() ==> g[i] < 255
}

/// The grid with every cell empty.
pub open spec fn empty_grid() -> Seq<u8> {
    Seq::new(16, |i: int| 0u8)
}

/// Row-major indices of the empty cells of `g`, in ascending order.
pub open spec fn empties(g: Seq<u8>) -> Seq<int>
    decreases g.len(),
{
    if g.len() == 0 {
        Seq::empty()
    } else if g.last() == 0 {
        empties(g.drop_last()).push(g.len() - 1)
    } else {
        empties(g.drop_last())
    }
}

/// Grid and generator state after one spawn attempt: a no-op on a full grid;
/// otherwise one draw picks an empty cell (the draw reduced modulo the count
/// of empty cells, indexing them in row-major order) and a second draw picks
/// the tile — exponent 1 when its low two bits are zero, else exponent 2, so
/// three spawns in four are "4" tiles and one in four a "2".
pub open spec fn spawn_spec(g: Seq<u8>, rng: u32) -> (Seq<u8>, u32) {
    let es = empties(g);
    if es.len() == 0 {
        (g, rng)
    } else {
        let r1 = xorshift_step(rng);
        let pos = es[(r1 as int) % (es.len() as int)];
        let r2 = xorshift_step(r1);
        let v: u8 = if r2 & 3 == 0 {
            1u8
        } else {
            2u8
        };
        (g.update(pos, v), r2)
    }
}

/// Grid and generator state after a reset: a cleared grid with two tiles
/// spawned in turn. The generator is not reseeded.
pub open spec fn reset_spec(rng: u32) -> (Seq<u8>, u32) {
    let first = spawn_spec(empty_grid(), rng);
    spawn_spec(first.0, first.1)
}

pub proof fn lemma_empties_push(s: Seq<u8>, x: u8)
    ensures
        x == 0 ==> empties(s.push(x)) == empties(s).push(s.len() as int),
        x != 0 ==> empties(s.push(x)) == empties(s),
{
    assert(s.push(x).drop_last() =~= s);
    assert(s.push(x).last() == x);
}

/// The empty-cell index list points at exactly the empty cells: every entry
/// is in range and empty, and there are as many entries as cells minus the
/// occupied ones.
pub proof fn lemma_empties_props(g: Seq<u8>)
    ensures
        forall|k: int|
            0 <= k < empties(g).len() ==> 0 <= #[trigger] empties(g)[k] < g.len() && g[empties(
                g,
            )[k]] == 0,
        empties(g).len() + occ(g) == g.len(),
    decreases g.len(),
{
    if g.len() > 0 {
        let dl = g.drop_last();
        lemma_empties_props(dl);
        assert(forall|j: int| 0 <= j < dl.len() ==> #[trigger] dl[j] == g[j]);
        assert(g =~= dl.push(g.last()));
        crate::line::lemma_nonzeros_push(dl, g.last());
        if g.last() == 0 {
            assert forall|k: int| 0 <= k < empties(g).len() implies 0 <= #[trigger] empties(g)[k]
                < g.len() && g[empties(g)[k]] == 0 by {
                assert(empties(g) == empties(dl).push(dl.len() as int));
                if k < empties(dl).len() {
                    assert(empties(g)[k] == empties(dl)[k]);
                } else {
                    assert(empties(g)[k] == dl.len());
                    assert(g[g.len() - 1] == 0);
                }
            }
        } else {
            assert(empties(g) == empties(dl));
        }
    }
}

pub proof fn lemma_occ_grid_rows(g: Seq<u8>)
    requires
        g.len() == 16,
    ensures
        occ(g) == occ(row_of(g, 0)) + occ(row_of(g, 1)) + occ(row_of(g, 2)) + occ(row_of(g, 3)),
{
    let r0 = row_of(g, 0);
    let r1 = row_of(g, 1);
    let r2 = row_of(g, 2);
    let r3 = row_of(g, 3);
    assert(g =~= r0 + r1 + r2 + r3);
    lemma_nonzeros_concat(r0 + r1 + r2, r3);
    lemma_nonzeros_concat(r0 + r1, r2);
    lemma_nonzeros_concat(r0, r1);
}

pub proof fn lemma_occ_grid_cols(g: Seq<u8>)
    requires
        g.len() == 16,
    ensures
        occ(g) == occ(col_of(g, 0)) + occ(col_of(g, 1)) + occ(col_of(g, 2)) + occ(col_of(g, 3)),
{
    lemma_occ_grid_rows(g);
    lemma_occ4_eq(row_of(g, 0));
    lemma_occ4_eq(row_of(g, 1));
    lemma_occ4_eq(row_of(g, 2));
    lemma_occ4_eq(row_of(g, 3));
    lemma_occ4_eq(col_of(g, 0));
    lemma_occ4_eq(col_of(g, 1));
    lemma_occ4_eq(col_of(g, 2));
    lemma_occ4_eq(col_of(g, 3));
    assert(occ(row_of(g, 0)) == nz(g[0]) + nz(g[1]) + nz(g[2]) + nz(g[3]));
    assert(occ(row_of(g, 1)) == nz(g[4]) + nz(g[5]) + nz(g[6]) + nz(g[7]));
    assert(occ(row_of(g, 2)) == nz(g[8]) + nz(g[9]) + nz(g[10]) + nz(g[11]));
    assert(occ(row_of(g, 3)) == nz(g[12]) + nz(g[13]) + nz(g[14]) + nz(g[15]));
    assert(occ(col_of(g, 0)) == nz(g[0]) + nz(g[4]) + nz(g[8]) + nz(g[12]));
    assert(occ(col_of(g, 1)) == nz(g[1]) + nz(g[5]) + nz(g[9]) + nz(g[13]));
    assert(occ(col_of(g, 2)) == nz(g[2]) + nz(g[6]) + nz(g[10]) + nz(g[14]));
    assert(occ(col_of(g, 3)) == nz(g[3]) + nz(g[7]) + nz(g[11]) + nz(g[15]));
}

/// What the slid line `k` looks like from the grid: each of its cells in
/// grid orientation, both before and after the move, and the line/position
/// bookkeeping that ties grid indices to line cells.
pub proof fn lemma_move_grid_line(g: Seq<u8>, dir: Direction, k: int)
    requires
        g.len() == 16,
        0 <= k < 4,
    ensures
        line_of(g, dir, k).len() == 4,
        slide_spec(line_of(g, dir, k)).len() == 4,
        forall|c: int|
            0 <= c < 4 ==> 0 <= #[trigger] grid_pos(dir, k, c) < 16 && line_index(
                dir,
                grid_pos(dir, k, c),
            ) == k && cpos_of(dir, grid_pos(dir, k, c)) == c,
        forall|i: int|
            0 <= i < 16 && line_index(dir, i) == k ==> 0 <= #[trigger] cpos_of(dir, i) < 4
                && grid_pos(dir, k, cpos_of(dir, i)) == i && g[i] == line_of(g, dir, k)[cpos_of(
                dir,
                i,
            )] && move_grid(g, dir)[i] == slide_spec(line_of(g, dir, k))[cpos_of(dir, i)],
{
    lemma_slide_len(line_of(g, dir, k));
    assert forall|i: int| 0 <= i < 16 && line_index(dir, i) == k implies 0 <= #[trigger] cpos_of(
        dir,
        i,
    ) < 4 && grid_pos(dir, k, cpos_of(dir, i)) == i && g[i] == line_of(g, dir, k)[cpos_of(dir, i)]
        && move_grid(g, dir)[i] == slide_spec(line_of(g, dir, k))[cpos_of(dir, i)] by {
        let c = cpos_of(dir, i);
        match dir {
            Direction::Left => {
                assert(i == 4 * k + c);
            },
            Direction::Right => {
                assert(i == 4 * k + 3 - c);
                assert(slid_line(g, dir, k)[i % 4] == slide_spec(rev4(row_of(g, k)))[3 - i % 4]);
            },
            Direction::Up => {
                assert(i == 4 * c + k);
            },
            Direction::Down => {
                assert(i == 4 * (3 - c) + k);
                assert(slid_line(g, dir, k)[i / 4] == slide_spec(rev4(col_of(g, k)))[3 - i / 4]);
            },
        }
    }
}

/// A move never raises the number of occupied cells of the grid.
pub proof fn lemma_move_grid_occ(g: Seq<u8>, dir: Direction)
    requires
        g.len() == 16,
    ensures
        move_grid(g, dir).len() == 16,
        occ(move_grid(g, dir)) <= occ(g),
{
    let m = move_grid(g, dir);
    if is_row_dir(dir) {
        lemma_occ_grid_rows(g);
        lemma_occ_grid_rows(m);
        assert forall|k: int| 0 <= k < 4 implies occ(row_of(m, k)) <= occ(row_of(g, k)) by {
            lemma_slide_len(line_of(g, dir, k));
            assert(row_of(m, k) =~= slid_line(g, dir, k));
            if dir == Direction::Left {
                lemma_slide_occ(row_of(g, k));
            } else {
                lemma_occ_rev4(row_of(g, k));
                lemma_slide_occ(rev4(row_of(g, k)));
                lemma_occ_rev4(slide_spec(rev4(row_of(g, k))));
            }
        }
    } else {
        lemma_occ_grid_cols(g);
        lemma_occ_grid_cols(m);
        assert forall|k: int| 0 <= k < 4 implies occ(col_of(m, k)) <= occ(col_of(g, k)) by {
            lemma_slide_len(line_of(g, dir, k));
            assert(col_of(m, k) =~= slid_line(g, dir, k));
            if dir == Direction::Up {
                lemma_slide_occ(col_of(g, k));
            } else {
                lemma_occ_rev4(col_of(g, k));
                lemma_slide_occ(rev4(col_of(g, k)));
                lemma_occ_rev4(slide_spec(rev4(col_of(g, k))));
            }
        }
    }
}

/// Ghost image of the whole game state.
pub ghost struct GameView {
    pub grid: Seq<u8>,
    pub score: u32,
    pub rng: u32,
}

/// The authoritative puzzle state: the 4x4 exponent grid stored row-major,
/// the cumulative score, and the xorshift generator state.
pub struct Game {
    grid: Vec<u8>,
    score: u32,
    rng: u32,
}

impl View for Game {
    type V = GameView;

    closed spec fn view(&self) -> GameView {
        GameView { grid: self.grid@, score: self.score, rng: self.rng }
    }
}

impl Game {
    /// The grid always holds exactly one cell per board position.
    pub open spec fn wf(&self) -> bool {
        self@.grid.len() == CELLS
    }

    /// A fresh game: empty grid, zero score, generator seeded with 1.
    pub fn new() -> (game: Game)
        ensures
            game.wf(),
            game@.grid == empty_grid(),
            game@.score == 0u32,
            game@.rng == 1u32,
    {
        let mut grid: Vec<u8> = Vec::new();
        let mut i: usize = 0;
        while i < CELLS
            invariant
                i <= CELLS,
                grid@.len() == i,
                forall|j: int| 0 <= j < i ==> grid@[j] == 0u8,
            decreases CELLS - i,
        {
            grid.push(0u8);
            i = i + 1;
        }
        let game = Game { grid, score: 0, rng: 1 };
        proof {
            assert(game@.grid =~= empty_grid());
        }
        game
    }

    /// The exponent at row `r`, column `c`.
    pub fn cell(&self, r: usize, c: usize) -> (e: u8)
        requires
            self.wf(),
            r < GRID,
            c < GRID,
        ensures
            e == self@.grid[4 * r + c],
    {
        self.grid[4 * r + c]
    }

    /// The cumulative score.
    pub fn score(&self) -> (s: u32)
        ensures
            s == self@.score,
    {
        self.score
    }

    /// The current generator state.
    pub fn rand_state(&self) -> (r: u32)
        ensures
            r == self@.rng,
    {
        self.rng
    }

    /// Draw the next value from the xorshift generator; the drawn value is
    /// also the new state, and is non-zero whenever the old state was.
    pub fn next_rand(&mut self) -> (r: u32)
        ensures
            final(self)@.grid == old(self)@.grid,
            final(self)@.score == old(self)@.score,
            r == xorshift_step(old(self)@.rng),
            final(self)@.rng == r,
            old(self)@.rng != 0 ==> r != 0,
    {
        let mut x = self.rng;
        x = x ^ (x << 13u32);
        x = x ^ (x >> 17u32);
        x = x ^ (x << 5u32);
        self.rng = x;
        proof {
            if old(self)@.rng != 0 {
                crate::rng::lemma_xorshift_nonzero(old(self)@.rng);
            }
        }
        x
    }

    /// Spawn one tile as `spawn_spec` says: a no-op on a full grid, else one
    /// draw picks an empty cell uniformly by reduction modulo the count of
    /// empty cells, and a second draw picks exponent 1 (one chance in four)
    /// or 2. Occupancy grows by exactly one when any cell was empty.
    pub fn spawn_tile(&mut self)
        requires
            old(self).wf(),
        ensures
            final(self).wf(),
            final(self)@.score == old(self)@.score,
            final(self)@.grid == spawn_spec(old(self)@.grid, old(self)@.rng).0,
            final(self)@.rng == spawn_spec(old(self)@.grid, old(self)@.rng).1,
            occ(final(self)@.grid) == occ(old(self)@.grid) + (
            if empties(old(self)@.grid).len() == 0 {
                0int
            } else {
                1int
            }),
    {
        let ghost g0 = self.grid@;
        let mut empty_cells: Vec<usize> = Vec::new();
        let mut i: usize = 0;
        while i < CELLS
            invariant
                self.wf(),
                self@.grid == g0,
                i <= CELLS,
                empty_cells@.len() == empties(g0.subrange(0, i as int)).len(),
                forall|t: int|
                    0 <= t < empty_cells@.len() ==> #[trigger] empty_cells@[t] as int == empties(
                        g0.subrange(0, i as int),
                    )[t] && empty_cells@[t] < CELLS,
            decreases CELLS - i,
        {
            let ghost pre = g0.subrange(0, i as int);
            proof {
                assert(g0.subrange(0, i as int + 1) =~= pre.push(g0[i as int]));
                lemma_empties_push(pre, g0[i as int]);
            }
            if self.grid[i] == 0 {
                empty_cells.push(i);
            }
            i = i + 1;
        }
        proof {
            assert(g0.subrange(0, CELLS as int) =~= g0);
            lemma_empties_props(g0);
        }
        let count = empty_cells.len();
        if count == 0 {
            return ;
        }
        let r1 = self.next_rand();
        let idx = (r1 % (count as u32)) as usize;
        let pos = empty_cells[idx];
        let r2 = self.next_rand();
        let v: u8 = if r2 & 3 == 0 {
            1
        } else {
            2
        };
        self.grid[pos] = v;
        proof {
            let es = empties(g0);
            assert(idx as int == (r1 as int) % (es.len() as int));
            assert(pos as int == es[idx as int]);
            assert(g0[pos as int] == 0);
            assert(self@.grid =~= g0.update(pos as int, v));
            lemma_occ_update(g0, pos as int, v);
        }
    }

    /// Clear the grid and the score, then spawn two tiles in turn. The
    /// generator keeps its state and is not reseeded. Exactly two cells of
    /// the fresh board are occupied.
    pub fn reset(&mut self)
        requires
            old(self).wf(),
        ensures
            final(self).wf(),
            final(self)@.score == 0u32,
            final(self)@.grid == reset_spec(old(self)@.rng).0,
            final(self)@.rng == reset_spec(old(self)@.rng).1,
            occ(final(self)@.grid) == 2,
            forall|i: int| 0 <= i < CELLS ==> final(self)@.grid[i] <= 2,
    {
        let mut i: usize = 0;
        while i < CELLS
            invariant
                old(self).wf(),
                self.wf(),
                self@.score == old(self)@.score,
                self@.rng == old(self)@.rng,
                i <= CELLS,
                forall|j: int| 0 <= j < i ==> self@.grid[j] == 0u8,
            decreases CELLS - i,
        {
            self.grid[i] = 0;
            i = i + 1;
        }
        self.score = 0;
        proof {
            assert(self@.grid =~= empty_grid());
            lemma_nonzeros_zeros(16nat);
            assert(occ(empty_grid()) == 0);
            lemma_empties_props(empty_grid());
        }
        self.spawn_tile();
        proof {
            lemma_empties_props(self@.grid);
        }
        self.spawn_tile();
    }

    /// Line `k` of the grid in the orientation the slide works on.
    fn read_line(&self, dir: Direction, k: usize) -> (line: Vec<u8>)
        requires
            self.wf(),
            k < GRID,
        ensures
            line@.len() == GRID,
            line@ == line_of(self@.grid, dir, k as int),
    {
        let mut line: Vec<u8> = Vec::new();
        match dir {
            Direction::Left => {
                line.push(self.grid[4 * k]);
                line.push(self.grid[4 * k + 1]);
                line.push(self.grid[4 * k + 2]);
                line.push(self.grid[4 * k + 3]);
            },
            Direction::Right => {
                line.push(self.grid[4 * k + 3]);
                line.push(self.grid[4 * k + 2]);
                line.push(self.grid[4 * k + 1]);
                line.push(self.grid[4 * k]);
            },
            Direction::Up => {
                line.push(self.grid[k]);
                line.push(self.grid[4 + k]);
                line.push(self.grid[8 + k]);
                line.push(self.grid[12 + k]);
            },
            Direction::Down => {
                line.push(self.grid[12 + k]);
                line.push(self.grid[8 + k]);
                line.push(self.grid[4 + k]);
                line.push(self.grid[k]);
            },
        }
        proof {
            assert(line@ =~= line_of(self@.grid, dir, k as int));
        }
        line
    }

    /// Write line `k` back into the grid, undoing the orientation of
    /// `read_line`; every cell outside the line keeps its value.
    fn write_line(&mut self, dir: Direction, k: usize, line: &Vec<u8>)
        requires
            old(self).wf(),
            k < GRID,
            line@.len() == GRID,
        ensures
            final(self).wf(),
            final(self)@.score == old(self)@.score,
            final(self)@.rng == old(self)@.rng,
            forall|c: int|
                0 <= c < 4 ==> final(self)@.grid[#[trigger] grid_pos(dir, k as int, c)] == line@[c],
            forall|i: int|
                0 <= i < 16 && line_index(dir, i) != k ==> final(self)@.grid[i] == old(
                    self,
                )@.grid[i],
    {
        match dir {
            Direction::Left => {
                self.grid[4 * k] = line[0];
                self.grid[4 * k + 1] = line[1];
                self.grid[4 * k + 2] = line[2];
                self.grid[4 * k + 3] = line[3];
            },
            Direction::Right => {
                self.grid[4 * k + 3] = line[0];
                self.grid[4 * k + 2] = line[1];
                self.grid[4 * k + 1] = line[2];
                self.grid[4 * k] = line[3];
            },
            Direction::Up => {
                self.grid[k] = line[0];
                self.grid[4 + k] = line[1];
                self.grid[8 + k] = line[2];
                self.grid[12 + k] = line[3];
            },
            Direction::Down => {
                self.grid[12 + k] = line[0];
                self.grid[8 + k] = line[1];
                self.grid[4 + k] = line[2];
                self.grid[k] = line[3];
            },
        }
    }

    /// Apply one move: slide every line of `dir`, and report whether any
    /// cell changed value or position. On a change, exactly one tile is
    /// spawned before returning, so occupancy grows by at most one; on no
    /// change the whole state — grid, score and generator — is left exactly
    /// as it was.
    pub fn make_move(&mut self, dir: Direction) -> (moved: bool)
        requires
            old(self).wf(),
            cells_below_max(old(self)@.grid),
        ensures
            final(self).wf(),
            final(self)@.score == old(self)@.score,
            moved == (move_grid(old(self)@.grid, dir) != old(self)@.grid),
            !moved ==> final(self)@.grid == old(self)@.grid && final(self)@.rng == old(self)@.rng
                && final(self)@.score == old(self)@.score,
            moved ==> final(self)@.grid == spawn_spec(
                move_grid(old(self)@.grid, dir),
                old(self)@.rng,
            ).0,
            moved ==> final(self)@.rng == spawn_spec(
                move_grid(old(self)@.grid, dir),
                old(self)@.rng,
            ).1,
            occ(final(self)@.grid) <= occ(old(self)@.grid) + 1,
            !moved ==> occ(final(self)@.grid) == occ(old(self)@.grid),
            occ(final(self)@.grid) > occ(old(self)@.grid) ==> moved,
            (forall|i: int| 0 <= i < CELLS ==> old(self)@.grid[i] < 254) ==> cells_below_max(
                final(self)@.grid,
            ),
    {
        let ghost g0 = self.grid@;
        let ghost m = move_grid(g0, dir);
        let mut moved = false;
        let mut k: usize = 0;
        while k < GRID
            invariant
                old(self).wf(),
                self.wf(),
                cells_below_max(g0),
                g0 == old(self)@.grid,
                m == move_grid(g0, dir),
                self@.score == old(self)@.score,
                self@.rng == old(self)@.rng,
                k <= GRID,
                forall|i: int|
                    0 <= i < 16 && line_index(dir, i) < k ==> self@.grid[i] == #[trigger] m[i],
                forall|i: int|
                    0 <= i < 16 && line_index(dir, i) >= k ==> self@.grid[i] == #[trigger] g0[i],
                moved == exists|i: int|
                    0 <= i < 16 && line_index(dir, i) < k && #[trigger] m[i] != g0[i],
            decreases GRID - k,
        {
            proof {
                lemma_move_grid_line(g0, dir, k as int);
            }
            let mut line = self.read_line(dir, k);
            proof {
                assert(line@ =~= line_of(g0, dir, k as int)) by {
                    assert(forall|c: int|
                        0 <= c < 4 ==> line_index(dir, #[trigger] grid_pos(dir, k as int, c))
                            == k);
                    assert(forall|c: int|
                        0 <= c < 4 ==> line_of(self@.grid, dir, k as int)[c] == self@.grid[
                        #[trigger] grid_pos(dir, k as int, c)]);
                    assert(forall|c: int|
                        0 <= c < 4 ==> line_of(g0, dir, k as int)[c] == g0[#[trigger] grid_pos(
                            dir,
                            k as int,
                            c,
                        )]);
                }
                assert(forall|c: int| 0 <= c < 4 ==> #[trigger] line@[c] < 255) by {
                    assert(forall|c: int|
                        0 <= c < 4 ==> line@[c] == g0[#[trigger] grid_pos(dir, k as int, c)]);
                }
            }
            let line_moved = slide_line(&mut line);
            self.write_line(dir, k, &line);
            moved = moved || line_moved;
            proof {
                let lk = line_of(g0, dir, k as int);
                assert forall|i: int| 0 <= i < 16 && line_index(dir, i) == k implies self@.grid[i]
                    == m[i] by {
                    let c = cpos_of(dir, i);
                    assert(grid_pos(dir, k as int, c) == i);
                    assert(self@.grid[i] == line@[c]);
                    assert(m[i] == slide_spec(lk)[c]);
                }
                if line_moved {
                    assert(slide_spec(lk) != lk);
                    assert(exists|c: int| 0 <= c < 4 && #[trigger] slide_spec(lk)[c] != lk[c]) by {
                        if forall|c: int| 0 <= c < 4 ==> #[trigger] slide_spec(lk)[c] == lk[c] {
                            assert(slide_spec(lk) =~= lk);
                        }
                    }
                    let c2 = choose|c2: int| 0 <= c2 < 4 && #[trigger] slide_spec(lk)[c2] != lk[c2];
                    let i2 = grid_pos(dir, k as int, c2);
                    assert(m[i2] == slide_spec(lk)[cpos_of(dir, i2)]);
                    assert(g0[i2] == lk[cpos_of(dir, i2)]);
                    assert(m[i2] != g0[i2]);
                    assert(line_index(dir, i2) < k + 1);
                } else {
                    assert(slide_spec(lk) == lk);
                    assert forall|i: int|
                        0 <= i < 16 && line_index(dir, i) == k implies #[trigger] m[i]
                        == g0[i] by {
                        let c = cpos_of(dir, i);
                        assert(m[i] == slide_spec(lk)[c] && g0[i] == lk[c]);
                    }
                }
            }
            k = k + 1;
        }
        proof {
            assert forall|i: int| 0 <= i < 16 implies 0 <= #[trigger] line_index(dir, i) < 4 by {}
            assert(self@.grid =~= m);
            if moved {
                assert(m != g0) by {
                    let i = choose|i: int|
                        0 <= i < 16 && line_index(dir, i) < 4 && #[trigger] m[i] != g0[i];
                    assert(m[i] != g0[i]);
                }
            } else {
                assert(m =~= g0);
            }
            lemma_move_grid_occ(g0, dir);
        }
        if moved {
            self.spawn_tile();
        }
        proof {
            if forall|i: int| 0 <= i < CELLS ==> g0[i] < 254 {
                assert forall|i: int| 0 <= i < 16 implies m[i] < 255 by {
                    let k = line_index(dir, i);
                    assert(0 <= k < 4);
                    lemma_move_grid_line(g0, dir, k);
                    assert forall|c: int| 0 <= c < 4 implies line_of(g0, dir, k)[c] < 254 by {
                        let i2 = grid_pos(dir, k, c);
                        assert(0 <= i2 < 16 && line_index(dir, i2) == k && cpos_of(dir, i2) == c);
                        assert(g0[i2] == line_of(g0, dir, k)[c]);
                    }
                    lemma_slide_bounded(line_of(g0, dir, k), 254);
                    assert(m[i] == slide_spec(line_of(g0, dir, k))[cpos_of(dir, i)]);
                }
                if moved {
                    let sp = spawn_spec(m, old(self)@.rng);
                    assert(self@.grid == sp.0);
                    if empties(m).len() != 0 {
                        lemma_empties_props(m);
                        let r1 = xorshift_step(old(self)@.rng);
                        let t = (r1 as int) % (empties(m).len() as int);
                        assert(0 <= t < empties(m).len());
                        let pos = empties(m)[t];
                        assert(0 <= pos < 16);
                        assert(sp.0 == m.update(
                            pos,
                            if xorshift_step(r1) & 3 == 0 {
                                1u8
                            } else {
                                2u8
                            },
                        ));
                        assert(forall|i: int| 0 <= i < 16 ==> sp.0[i] < 255);
                    }
                } else {
                    assert(self@.grid == g0);
                }
                assert(cells_below_max(self@.grid));
            }
        }
        moved
    }
}

} // verus!
