//! The board and the engine: cell access, neighbour lookup under a direction,
//! terminal-state detection, and the sliding-merge move.

use vstd::prelude::*;
use vstd::arithmetic::div_mod::{
    lemma_fundamental_div_mod_converse_div,
    lemma_fundamental_div_mod_converse_mod,
};
use vstd::arithmetic::mul::lemma_mul_nonnegative;
use vstd::arithmetic::power2::{
    lemma2_to64,
    lemma_pow2_strictly_increases,
    lemma_pow2_unfold,
    pow2,
};
use vstd::arithmetic::div_mod::{lemma_fundamental_div_mod, lemma_mod_bound};
use crate::lanes::{
    collapse_gain,
    collapse_stack,
    lemma_collapse_props,
    lemma_collapse_settled,
    lemma_collapse_shrinks,
    lemma_sweep_step,
    lemma_swept_done,
    lemma_swept_start,
    packed,
    swept,
    sweep_traces,
    walk,
    walk_gain,
    walk_traces,
};
use crate::sums::{
    lemma_sum_lower_one,
    lemma_sum_lower_two,
    lemma_sum_nonneg,
    lemma_sum_update,
    sum_terms,
    terms_nonneg,
};

verus! {

/// One of the four move directions.  `Up` decrements the row, `Down`
/// increments it, `Left` decrements the column, `Right` increments it.
pub enum Direction {
    Up,
    Down,
    Left,
    Right,
}

/// A tile is the stored exponent of the displayed value: `0` marks an empty
/// cell, a stored `v > 0` displays as `2^v`.
pub type Tile = i32;

/// A `(row, column)` pair; row 0 is the top edge, column 0 the left edge.
pub type Coordinate = (usize, usize);

/// The net displacement `(from, to)` of one tile during one shift.
pub type Trace = (Coordinate, Coordinate);

/// The game board: a `size x size` grid of tiles in row-major order, and the
/// score accumulated by merges.
#[derive(Debug)]
pub struct Board {
    pub size: usize,
    pub tiles: Vec<Tile>,
    pub score: u32,
}

impl Board {
    /// The grid really is `size x size`.
    pub open spec fn shaped(self) -> bool {
        self.tiles@.len() == (self.size as int) * (self.size as int)
    }

    /// The tile stored at row `r`, column `c`.
    pub open spec fn cell(self, r: int, c: int) -> Tile {
        self.tiles@[r * (self.size as int) + c]
    }

    /// `(r, c)` lies on the grid.
    pub open spec fn pos_ok(self, r: int, c: int) -> bool {
        0 <= r < self.size && 0 <= c < self.size
    }

    /// Every cell holds a non-negative exponent.
    pub open spec fn cells_nonneg(self) -> bool {
        forall|k: int| 0 <= k < self.tiles@.len() ==> self.tiles@[k] >= 0
    }

    /// Creates a board.  With `Some(data)` the flat row-major vector becomes
    /// the grid; with `None` every cell starts empty.
    pub fn new(size: usize, tiles: Option<Vec<Tile>>, score: u32) -> (board: Board)
        requires
            size >= 2,
            (size as int) * (size as int) <= usize::MAX as int,
            tiles matches Some(data) ==> data@.len() == (size as int) * (size as int),
            tiles matches Some(data) ==> forall|k: int| 0 <= k < data@.len() ==> data@[k] >= 0,
        ensures
            board.size == size,
            board.score == score,
            board.shaped(),
            board.cells_nonneg(),
            tiles matches Some(data) ==> board.tiles@ == data@,
            tiles matches None ==> forall|k: int| 0 <= k < board.tiles@.len() ==> board.tiles@[k] == 0,
    {
        proof {
            lemma_square_bounds(size as int);
        }
        let n: usize = size * size;
        match tiles {
            Some(data) => Board { size, tiles: data, score },
            None => Board { size, tiles: vec![0i32; n], score },
        }
    }

    /// Row-major index of `(r, c)`.
    fn flat(&self, r: usize, c: usize) -> (i: usize)
        requires
            self.shaped(),
            r < self.size,
            c < self.size,
        ensures
            i == r * (self.size as int) + c,
            i < self.tiles@.len(),
    {
        // a Vec's length is a usize, so the whole grid area fits the type
        let n: usize = self.tiles.len();
        proof {
            lemma_flat_index(self.size as int, r as int, c as int);
        }
        r * self.size + c
    }

    /// Returns the tile at `pos`, or `None` when `pos` is off the grid.
    pub fn get(&self, pos: &Coordinate) -> (t: Option<Tile>)
        requires
            self.shaped(),
        ensures
            t == if self.pos_ok(pos.0 as int, pos.1 as int) {
                Some(self.cell(pos.0 as int, pos.1 as int))
            } else {
                None::<Tile>
            },
    {
        if pos.0 < self.size && pos.1 < self.size {
            let i: usize = self.flat(pos.0, pos.1);
            Some(self.tiles[i])
        } else {
            None
        }
    }

    /// Writes `value` at `pos`; the caller answers for the bounds and the
    /// sign, as a violation is a programmer error.
    pub fn set(&mut self, pos: &Coordinate, value: Tile)
        requires
            old(self).shaped(),
            old(self).pos_ok(pos.0 as int, pos.1 as int),
            value >= 0,
        ensures
            final(self).size == old(self).size,
            final(self).score == old(self).score,
            final(self).tiles@ == old(self).tiles@.update(
                pos.0 as int * (old(self).size as int) + pos.1 as int,
                value,
            ),
            final(self).shaped(),
    {
        let i: usize = self.flat(pos.0, pos.1);
        self.tiles[i] = value;
    }

    /// One seeding attempt: writes `value` at `pos` when that cell is still
    /// empty and reports whether it did.  The driver draws `pos` and `value`
    /// at random and retries on an occupied cell; that rejection loop may
    /// run forever on a full board, so the loop lives with the driver and
    /// only this decision is made here.
    pub fn place_if_empty(&mut self, pos: &Coordinate, value: Tile) -> (placed: bool)
        requires
            old(self).shaped(),
            old(self).pos_ok(pos.0 as int, pos.1 as int),
            value >= 0,
        ensures
            final(self).size == old(self).size,
            final(self).score == old(self).score,
            final(self).shaped(),
            placed == (old(self).cell(pos.0 as int, pos.1 as int) == 0),
            placed ==> final(self).tiles@ == old(self).tiles@.update(
                pos.0 as int * (old(self).size as int) + pos.1 as int,
                value,
            ),
            !placed ==> final(self).tiles@ == old(self).tiles@,
    {
        let i: usize = self.flat(pos.0, pos.1);
        if self.tiles[i] == 0 {
            self.tiles[i] = value;
            true
        } else {
            false
        }
    }

    /// The immediate neighbour of `pos` in `direction`, while it stays on the
    /// grid.
    pub fn next(&self, pos: &Coordinate, direction: &Direction) -> (n: Option<Coordinate>)
        requires
            self.pos_ok(pos.0 as int, pos.1 as int),
        ensures
            n == spec_neighbour(self.size, *pos, *direction),
    {
        match direction {
            Direction::Up => {
                if pos.0 >= 1 {
                    Some((pos.0 - 1, pos.1))
                } else {
                    None
                }
            }
            Direction::Down => {
                if pos.0 + 1 < self.size {
                    Some((pos.0 + 1, pos.1))
                } else {
                    None
                }
            }
            Direction::Left => {
                if pos.1 >= 1 {
                    Some((pos.0, pos.1 - 1))
                } else {
                    None
                }
            }
            Direction::Right => {
                if pos.1 + 1 < self.size {
                    Some((pos.0, pos.1 + 1))
                } else {
                    None
                }
            }
        }
    }
}

/// Where a step from `pos` toward `direction` lands, while it stays on the
/// grid.
pub open spec fn spec_neighbour(size: usize, pos: Coordinate, direction: Direction) -> Option<
    Coordinate,
> {
    match direction {
        Direction::Up => if pos.0 >= 1 {
            Some(((pos.0 - 1) as usize, pos.1))
        } else {
            None
        },
        Direction::Down => if pos.0 + 1 < size {
            Some(((pos.0 + 1) as usize, pos.1))
        } else {
            None
        },
        Direction::Left => if pos.1 >= 1 {
            Some((pos.0, (pos.1 - 1) as usize))
        } else {
            None
        },
        Direction::Right => if pos.1 + 1 < size {
            Some((pos.0, (pos.1 + 1) as usize))
        } else {
            None
        },
    }
}

proof fn lemma_square_bounds(s: int)
    by (nonlinear_arith)
    requires
        s >= 2,
    ensures
        s * s >= s + s,
        s * s >= 4,
{
}

pub(crate) proof fn lemma_flat_index(s: int, r: int, c: int)
    by (nonlinear_arith)
    requires
        0 <= r < s,
        0 <= c < s,
    ensures
        0 <= r * s + c < s * s,
{
}

/// The stateless operator that executes moves and detects the end of the
/// game.
pub struct Core;

impl Core {
    pub fn new() -> (core: Core) {
        Core {  }
    }

    /// True exactly when no move can change the board: every cell is
    /// occupied and no two orthogonally adjacent cells hold equal values.
    /// `lemma_stuck_no_move` and `lemma_move_when_not_stuck` tie this to
    /// `shift`'s outcome: a stuck board is unchanged by every direction,
    /// and a board holding any tile that is not stuck is changed by some
    /// direction.
    pub fn is_game_over(&self, board: &Board) -> (over: bool)
        requires
            board.shaped(),
        ensures
            over == board.stuck(),
    {
        let size: usize = board.size;
        let mut r: usize = 0;
        while r < size
            invariant
                board.shaped(),
                size == board.size,
                r <= size,
                forall|i: int, j: int|
                    0 <= i < r && 0 <= j < size ==> !board.blocked_violation(i, j),
            decreases size - r,
        {
            let mut c: usize = 0;
            while c < size
                invariant
                    board.shaped(),
                    size == board.size,
                    r < size,
                    c <= size,
                    forall|i: int, j: int|
                        0 <= i < r && 0 <= j < size ==> !board.blocked_violation(i, j),
                    forall|j: int| 0 <= j < c ==> !board.blocked_violation(r as int, j),
                decreases size - c,
            {
                let i: usize = board.flat(r, c);
                if board.tiles[i] == 0 {
                    assert(board.blocked_violation(r as int, c as int));
                    return false;
                }
                if c + 1 < size {
                    let iright: usize = board.flat(r, c + 1);
                    if board.tiles[i] == board.tiles[iright] {
                        assert(board.blocked_violation(r as int, c as int));
                        return false;
                    }
                }
                if r + 1 < size {
                    let idown: usize = board.flat(r + 1, c);
                    if board.tiles[i] == board.tiles[idown] {
                        assert(board.blocked_violation(r as int, c as int));
                        return false;
                    }
                }
                c = c + 1;
            }
            r = r + 1;
        }
        true
    }
}

impl Board {
    /// The cell at `(r, c)` witnesses that a move is still possible: it is
    /// empty, or it matches its right or its down neighbour.
    pub open spec fn blocked_violation(self, r: int, c: int) -> bool {
        ||| self.cell(r, c) == 0
        ||| c + 1 < self.size && self.cell(r, c) == self.cell(r, c + 1)
        ||| r + 1 < self.size && self.cell(r, c) == self.cell(r + 1, c)
    }

    /// No move can change the board: every cell is occupied and no two
    /// orthogonally adjacent cells hold equal values.  Inspecting each
    /// cell's right and down neighbours covers every adjacent pair, since
    /// every such pair is the right or the down pair of its first member.
    pub open spec fn stuck(self) -> bool {
        forall|r: int, c: int| self.pos_ok(r, c) ==> !self.blocked_violation(r, c)
    }

    /// A board the engine can move on: the grid is square and addressable
    /// (a square with more than `2^30` rows could not be allocated, and the
    /// bound also keeps every exponent a sweep can form inside the tile
    /// type), every cell is a non-negative exponent, the displayed values
    /// sum to at most `2^31`, and the score together with the board's
    /// remaining merge yield fits a `u32`.  A shift keeps all of this (see
    /// `shift`), because it conserves both the displayed sum and
    /// `score + psi`.
    pub open spec fn wf(self) -> bool {
        &&& 2 <= self.size <= 0x4000_0000
        &&& self.shaped()
        &&& self.cells_nonneg()
        &&& self.tiles@.len() <= usize::MAX
        &&& disp(self.tiles@) <= 0x8000_0000
        &&& self.score + psi(self.tiles@) <= 0xFFFF_FFFF
    }
}

/// `p` and `q` are orthogonally adjacent cells: they share a row or a
/// column and the other coordinates differ by one, in either order.
pub open spec fn adjacent(p: (int, int), q: (int, int)) -> bool {
    ||| p.0 == q.0 && (p.1 == q.1 + 1 || p.1 + 1 == q.1)
    ||| p.1 == q.1 && (p.0 == q.0 + 1 || p.0 + 1 == q.0)
}

/// The game is over exactly when every cell is occupied and no two
/// orthogonally adjacent cells hold equal values.  `stuck` inspects only
/// each cell's right and down neighbours; that covers every adjacent pair,
/// since every such pair is the right or the down pair of one of its two
/// members.
pub proof fn lemma_stuck_means(b: Board)
    ensures
        b.stuck() <==> ((forall|r: int, c: int| b.pos_ok(r, c) ==> b.cell(r, c) != 0) && (forall|
            r1: int,
            c1: int,
            r2: int,
            c2: int,
        |
            b.pos_ok(r1, c1) && b.pos_ok(r2, c2) && adjacent((r1, c1), (r2, c2))
                ==> b.cell(r1, c1) != b.cell(r2, c2))),
{
    if b.stuck() {
        assert forall|r: int, c: int| b.pos_ok(r, c) implies b.cell(r, c) != 0 by {
            assert(!b.blocked_violation(r, c));
        }
        assert forall|r1: int, c1: int, r2: int, c2: int|
            b.pos_ok(r1, c1) && b.pos_ok(r2, c2) && adjacent(
                (r1, c1),
                (r2, c2),
            ) implies b.cell(r1, c1) != b.cell(r2, c2) by {
            if r1 == r2 && c1 == c2 + 1 {
                assert(!b.blocked_violation(r2, c2));
            } else if r1 == r2 && c1 + 1 == c2 {
                assert(!b.blocked_violation(r1, c1));
            } else if c1 == c2 && r1 == r2 + 1 {
                assert(!b.blocked_violation(r2, c2));
            } else {
                assert(!b.blocked_violation(r1, c1));
            }
        }
    }
    if ((forall|r: int, c: int| b.pos_ok(r, c) ==> b.cell(r, c) != 0) && (forall|
        r1: int,
        c1: int,
        r2: int,
        c2: int,
    |
        b.pos_ok(r1, c1) && b.pos_ok(r2, c2) && adjacent((r1, c1), (r2, c2)) ==> b.cell(r1, c1)
            != b.cell(r2, c2))) {
        assert forall|r: int, c: int| b.pos_ok(r, c) implies !b.blocked_violation(r, c) by {
            assert(b.cell(r, c) != 0);
            if c + 1 < b.size {
                assert(adjacent((r, c), (r, c + 1)));
            }
            if r + 1 < b.size {
                assert(adjacent((r, c), (r + 1, c)));
            }
        }
    }
}

/// A lane holding an empty cell nearer the destination edge than some
/// occupied cell is changed by its collapse: the fold packs every tile
/// against the edge, so the hole cannot survive.
proof fn lemma_lane_hole(b: Board, d: Direction, a: int, j: int, k: int)
    requires
        b.wf(),
        0 <= a < b.size,
        0 <= j < k < b.size,
        lane_of(b.tiles@, d, b.size as int, a)[j] == 0,
        lane_of(b.tiles@, d, b.size as int, a)[k] != 0,
    ensures
        packed(collapse_stack(lane_of(b.tiles@, d, b.size as int, a)), b.size as int) != lane_of(
            b.tiles@,
            d,
            b.size as int,
            a,
        ),
{
    let s = b.size as int;
    let l = lane_of(b.tiles@, d, s, a);
    lemma_caps(b.tiles@);
    lemma_lane_range(b.tiles@, d, s, a);
    lemma_collapse_props(l);
    let st = collapse_stack(l);
    let p = packed(st, s);
    if p == l {
        assert(p[j] == 0);
        assert(j >= st.len());
        assert(p[k] == 0);
    }
}

/// A fully occupied lane with two equal neighbours is changed by its
/// collapse: the merge leaves the cell farthest from the edge empty.
proof fn lemma_lane_pair(b: Board, d: Direction, a: int, j: int)
    requires
        b.wf(),
        0 <= a < b.size,
        0 < j < b.size,
        forall|k: int|
            0 <= k < b.size ==> #[trigger] lane_of(b.tiles@, d, b.size as int, a)[k] != 0,
        lane_of(b.tiles@, d, b.size as int, a)[j] == lane_of(b.tiles@, d, b.size as int, a)[j - 1],
    ensures
        packed(collapse_stack(lane_of(b.tiles@, d, b.size as int, a)), b.size as int) != lane_of(
            b.tiles@,
            d,
            b.size as int,
            a,
        ),
{
    let s = b.size as int;
    let l = lane_of(b.tiles@, d, s, a);
    lemma_collapse_shrinks(l);
    let st = collapse_stack(l);
    let p = packed(st, s);
    assert(p[s - 1] == 0);
    assert(l[s - 1] != 0);
}

/// When no lane gains, the lanes together gain nothing.
proof fn lemma_lanes_gain_zero(t: Seq<i32>, d: Direction, size: int, n: int)
    requires
        forall|a: int| 0 <= a < n ==> collapse_gain(#[trigger] lane_of(t, d, size, a)) == 0,
    ensures
        lanes_gain(t, d, size, n) == 0,
    decreases n,
{
    if n > 0 {
        lemma_lanes_gain_zero(t, d, size, n - 1);
    }
}

/// On a stuck board no direction moves anything: every lane collapses to
/// itself and no direction gains a point.  With `shift`'s contract this is
/// one half of "the game is over exactly when no shift can change the
/// board".
pub proof fn lemma_stuck_no_move(b: Board, d: Direction)
    requires
        b.wf(),
        b.stuck(),
    ensures
        forall|a: int|
            0 <= a < b.size ==> packed(
                collapse_stack(#[trigger] lane_of(b.tiles@, d, b.size as int, a)),
                b.size as int,
            ) == lane_of(b.tiles@, d, b.size as int, a),
        lanes_gain(b.tiles@, d, b.size as int, b.size as int) == 0,
{
    let s = b.size as int;
    assert forall|a: int| 0 <= a < s implies packed(
        collapse_stack(#[trigger] lane_of(b.tiles@, d, s, a)),
        s,
    ) == lane_of(b.tiles@, d, s, a) && collapse_gain(lane_of(b.tiles@, d, s, a)) == 0 by {
        let l = lane_of(b.tiles@, d, s, a);
        assert forall|k: int| 0 <= k < s implies #[trigger] l[k] != 0 by {
            let r = lane_row(d, s, a, k);
            let c = lane_col(d, s, a, k);
            assert(!b.blocked_violation(r, c));
            assert(l[k] == b.cell(r, c));
        }
        assert forall|k: int| 0 < k < s implies #[trigger] l[k] != l[k - 1] by {
            match d {
                Direction::Up => {
                    assert(!b.blocked_violation(k - 1, a));
                }
                Direction::Down => {
                    assert(!b.blocked_violation(s - 1 - k, a));
                }
                Direction::Left => {
                    assert(!b.blocked_violation(a, k - 1));
                }
                Direction::Right => {
                    assert(!b.blocked_violation(a, s - 1 - k));
                }
            }
        }
        lemma_collapse_settled(l);
        assert(packed(collapse_stack(l), s) =~= l);
    }
    lemma_lanes_gain_zero(b.tiles@, d, s, s);
}

/// On a board that is not stuck and holds at least one tile, some direction
/// moves something: a direction and a lane exist whose collapse changes the
/// lane.  With `shift`'s contract this is the other half of "the game is
/// over exactly when no shift can change the board"; a board with no tiles
/// at all is the one exception, unchanged by every shift yet not stuck.
pub proof fn lemma_move_when_not_stuck(b: Board)
    requires
        b.wf(),
        !b.stuck(),
        exists|k: int| 0 <= k < b.tiles@.len() && #[trigger] b.tiles@[k] != 0,
    ensures
        exists|d: Direction, a: int|
            0 <= a < b.size && packed(
                collapse_stack(lane_of(b.tiles@, d, b.size as int, a)),
                b.size as int,
            ) != lane_of(b.tiles@, d, b.size as int, a),
{
    let s = b.size as int;
    let (r, c) = choose|r: int, c: int| b.pos_ok(r, c) && #[trigger] b.blocked_violation(r, c);
    if b.cell(r, c) == 0 {
        let k0 = choose|k: int| 0 <= k < b.tiles@.len() && #[trigger] b.tiles@[k] != 0;
        let r2 = k0 / s;
        let c2 = k0 % s;
        proof_cell_of_flat(b, k0);
        if c2 == c {
            lemma_vertical_witness(b, r, r2, c);
        } else if b.cell(r2, c) != 0 {
            lemma_vertical_witness(b, r, r2, c);
        } else {
            lemma_horizontal_witness(b, r2, c, c2);
        }
    } else if c + 1 < s && b.cell(r, c) == b.cell(r, c + 1) {
        lemma_row_pair_witness(b, r, c);
    } else {
        lemma_col_pair_witness(b, r, c);
    }
}

/// The cell a flat index addresses.
proof fn proof_cell_of_flat(b: Board, k: int)
    requires
        b.wf(),
        0 <= k < b.tiles@.len(),
    ensures
        b.pos_ok(k / (b.size as int), k % (b.size as int)),
        b.cell(k / (b.size as int), k % (b.size as int)) == b.tiles@[k],
{
    let s = b.size as int;
    lemma_fundamental_div_mod(k, s);
    lemma_mod_bound(k, s);
    assert(0 <= k / s < s) by (nonlinear_arith)
        requires
            k == (k / s) * s + k % s,
            0 <= k % s < s,
            0 <= k < s * s,
    ;
}

/// A column holding an empty cell at `(r, c)` and a tile at `(r2, c)`
/// yields a direction whose collapse changes that column.
proof fn lemma_vertical_witness(b: Board, r: int, r2: int, c: int)
    requires
        b.wf(),
        b.pos_ok(r, c),
        b.pos_ok(r2, c),
        b.cell(r, c) == 0,
        b.cell(r2, c) != 0,
    ensures
        exists|d: Direction, a: int|
            0 <= a < b.size && packed(
                collapse_stack(lane_of(b.tiles@, d, b.size as int, a)),
                b.size as int,
            ) != lane_of(b.tiles@, d, b.size as int, a),
{
    let s = b.size as int;
    if r2 > r {
        let l = lane_of(b.tiles@, Direction::Up, s, c);
        assert(l[r] == b.cell(r, c) && l[r2] == b.cell(r2, c));
        lemma_lane_hole(b, Direction::Up, c, r, r2);
    } else {
        let l = lane_of(b.tiles@, Direction::Down, s, c);
        assert(l[s - 1 - r] == b.cell(r, c) && l[s - 1 - r2] == b.cell(r2, c));
        lemma_lane_hole(b, Direction::Down, c, s - 1 - r, s - 1 - r2);
    }
}

/// A row holding an empty cell at `(r, c)` and a tile at `(r, c2)` yields a
/// direction whose collapse changes that row.
proof fn lemma_horizontal_witness(b: Board, r: int, c: int, c2: int)
    requires
        b.wf(),
        b.pos_ok(r, c),
        b.pos_ok(r, c2),
        b.cell(r, c) == 0,
        b.cell(r, c2) != 0,
    ensures
        exists|d: Direction, a: int|
            0 <= a < b.size && packed(
                collapse_stack(lane_of(b.tiles@, d, b.size as int, a)),
                b.size as int,
            ) != lane_of(b.tiles@, d, b.size as int, a),
{
    let s = b.size as int;
    if c2 > c {
        let l = lane_of(b.tiles@, Direction::Left, s, r);
        assert(l[c] == b.cell(r, c) && l[c2] == b.cell(r, c2));
        lemma_lane_hole(b, Direction::Left, r, c, c2);
    } else {
        let l = lane_of(b.tiles@, Direction::Right, s, r);
        assert(l[s - 1 - c] == b.cell(r, c) && l[s - 1 - c2] == b.cell(r, c2));
        lemma_lane_hole(b, Direction::Right, r, s - 1 - c, s - 1 - c2);
    }
}

/// An equal horizontal pair at `(r, c)`, `(r, c + 1)` yields a direction
/// whose collapse changes row `r`.
proof fn lemma_row_pair_witness(b: Board, r: int, c: int)
    requires
        b.wf(),
        b.pos_ok(r, c),
        c + 1 < b.size,
        b.cell(r, c) == b.cell(r, c + 1),
        b.cell(r, c) != 0,
    ensures
        exists|d: Direction, a: int|
            0 <= a < b.size && packed(
                collapse_stack(lane_of(b.tiles@, d, b.size as int, a)),
                b.size as int,
            ) != lane_of(b.tiles@, d, b.size as int, a),
{
    let s = b.size as int;
    let l = lane_of(b.tiles@, Direction::Left, s, r);
    assert(forall|k: int| 0 <= k < s ==> #[trigger] l[k] == b.cell(r, k));
    if exists|k: int| 0 <= k < s && #[trigger] l[k] == 0 {
        let k0 = choose|k: int| 0 <= k < s && #[trigger] l[k] == 0;
        if k0 < c + 1 {
            lemma_horizontal_witness(b, r, k0, c + 1);
        } else {
            lemma_horizontal_witness(b, r, k0, c);
        }
    } else {
        lemma_lane_pair(b, Direction::Left, r, c + 1);
    }
}

/// An equal vertical pair at `(r, c)`, `(r + 1, c)` yields a direction
/// whose collapse changes column `c`.
proof fn lemma_col_pair_witness(b: Board, r: int, c: int)
    requires
        b.wf(),
        b.pos_ok(r, c),
        r + 1 < b.size,
        b.cell(r, c) == b.cell(r + 1, c),
        b.cell(r, c) != 0,
    ensures
        exists|d: Direction, a: int|
            0 <= a < b.size && packed(
                collapse_stack(lane_of(b.tiles@, d, b.size as int, a)),
                b.size as int,
            ) != lane_of(b.tiles@, d, b.size as int, a),
{
    let s = b.size as int;
    let l = lane_of(b.tiles@, Direction::Up, s, c);
    assert(forall|k: int| 0 <= k < s ==> #[trigger] l[k] == b.cell(k, c));
    if exists|k: int| 0 <= k < s && #[trigger] l[k] == 0 {
        let k0 = choose|k: int| 0 <= k < s && #[trigger] l[k] == 0;
        if k0 < r + 1 {
            lemma_vertical_witness(b, k0, r + 1, c);
        } else {
            lemma_vertical_witness(b, k0, r, c);
        }
    } else {
        lemma_lane_pair(b, Direction::Up, c, r + 1);
    }
}

/// The displayed value of one cell: `2^v` for an occupied cell, `0` for an
/// empty one.
pub open spec fn disp_f() -> spec_fn(int, i32) -> int {
    |k: int, v: i32| if v > 0 {
        pow2(v as nat) as int
    } else {
        0
    }
}

/// The sum of the displayed values of all tiles.  A slide moves a term and a
/// merge replaces `2^v + 2^v` by `2^(v+1)`, so a shift conserves this sum.
pub open spec fn disp(s: Seq<i32>) -> int {
    sum_terms(disp_f(), s)
}

/// The merge yield still stored in one cell: `(31 - v) * 2^v`.  Merging two
/// tiles of value `v` turns `2 * (31 - v) * 2^v` into
/// `(30 - v) * 2^(v+1) = (31 - v) * 2^(v+1) - 2^(v+1)`, so each merge moves
/// exactly its score gain `2^(v+1)` out of this sum and a shift conserves
/// `score + psi`.
pub open spec fn psi_f() -> spec_fn(int, i32) -> int {
    |k: int, v: i32| if v > 0 {
        (31 - v) * (pow2(v as nat) as int)
    } else {
        0
    }
}

/// The total merge yield still stored on the board.
pub open spec fn psi(s: Seq<i32>) -> int {
    sum_terms(psi_f(), s)
}

/// How far `(r, c)` stands from the edge a move toward `d` presses against.
pub open spec fn coord_dist(d: Direction, size: int, r: int, c: int) -> int {
    match d {
        Direction::Up => r,
        Direction::Down => size - 1 - r,
        Direction::Left => c,
        Direction::Right => size - 1 - c,
    }
}

/// The distance of one occupied cell from the destination edge, over the
/// flat index.
pub open spec fn weight_f(d: Direction, size: int) -> spec_fn(int, i32) -> int {
    |k: int, v: i32| if v != 0 {
        coord_dist(d, size, k / size, k % size)
    } else {
        0
    }
}

/// The total distance of the occupied cells from the destination edge.
/// Every slide and every merge strictly lowers it, so a shift changes the
/// board exactly when it records a trace.
pub open spec fn weight(d: Direction, size: int, s: Seq<i32>) -> int {
    sum_terms(weight_f(d, size), s)
}

/// Which lane a move toward `d` carries the cell `(r, c)` along: its row
/// for a horizontal move, its column for a vertical one.
pub open spec fn lane_a_of(d: Direction, r: int, c: int) -> int {
    match d {
        Direction::Up | Direction::Down => c,
        Direction::Left | Direction::Right => r,
    }
}

/// The row of the cell of lane `a` that stands `k` steps from the edge the
/// move presses against.
pub open spec fn lane_row(d: Direction, size: int, a: int, k: int) -> int {
    match d {
        Direction::Up => k,
        Direction::Down => size - 1 - k,
        Direction::Left => a,
        Direction::Right => a,
    }
}

/// The column of that cell.
pub open spec fn lane_col(d: Direction, size: int, a: int, k: int) -> int {
    match d {
        Direction::Up => a,
        Direction::Down => a,
        Direction::Left => k,
        Direction::Right => size - 1 - k,
    }
}

/// The flat index of that cell.
pub open spec fn lane_idx(d: Direction, size: int, a: int, k: int) -> int {
    lane_row(d, size, a, k) * size + lane_col(d, size, a, k)
}

/// Lane `a` of the grid in lane-local order: position `k` holds the tile
/// `k` steps from the destination edge.
pub open spec fn lane_of(t: Seq<i32>, d: Direction, size: int, a: int) -> Seq<i32> {
    Seq::new(size as nat, |k: int| t[lane_idx(d, size, a, k)])
}

/// Every on-grid cell is the cell of its lane at its edge distance.
proof fn lemma_lane_coords(d: Direction, size: int, r: int, c: int)
    requires
        0 <= r < size,
        0 <= c < size,
    ensures
        0 <= lane_a_of(d, r, c) < size,
        0 <= coord_dist(d, size, r, c) < size,
        lane_row(d, size, lane_a_of(d, r, c), coord_dist(d, size, r, c)) == r,
        lane_col(d, size, lane_a_of(d, r, c), coord_dist(d, size, r, c)) == c,
        lane_idx(d, size, lane_a_of(d, r, c), coord_dist(d, size, r, c)) == r * size + c,
{
}

/// Distinct lane positions index distinct cells.
proof fn lemma_lane_idx_inj(d: Direction, size: int, a1: int, k1: int, a2: int, k2: int)
    requires
        1 <= size,
        0 <= a1 < size,
        0 <= k1 < size,
        0 <= a2 < size,
        0 <= k2 < size,
        lane_idx(d, size, a1, k1) == lane_idx(d, size, a2, k2),
    ensures
        a1 == a2,
        k1 == k2,
{
    lemma_coords_div_mod(size, lane_row(d, size, a1, k1), lane_col(d, size, a1, k1));
    lemma_coords_div_mod(size, lane_row(d, size, a2, k2), lane_col(d, size, a2, k2));
}

/// Updating one cell updates its own lane at its edge distance and leaves
/// every other lane as it was.
proof fn lemma_lane_update(t: Seq<i32>, d: Direction, size: int, a: int, k: int, v: i32)
    requires
        1 <= size,
        t.len() == size * size,
        0 <= a < size,
        0 <= k < size,
    ensures
        lane_of(t.update(lane_idx(d, size, a, k), v), d, size, a) == lane_of(t, d, size, a).update(
            k,
            v,
        ),
        forall|a2: int|
            0 <= a2 < size && a2 != a ==> lane_of(t.update(lane_idx(d, size, a, k), v), d, size, a2)
                == lane_of(t, d, size, a2),
{
    let i = lane_idx(d, size, a, k);
    lemma_flat_index(size, lane_row(d, size, a, k), lane_col(d, size, a, k));
    let u = t.update(i, v);
    assert forall|k2: int| 0 <= k2 < size implies lane_of(u, d, size, a)[k2] == lane_of(
        t,
        d,
        size,
        a,
    ).update(k, v)[k2] by {
        lemma_flat_index(size, lane_row(d, size, a, k2), lane_col(d, size, a, k2));
        if k2 != k && lane_idx(d, size, a, k2) == lane_idx(d, size, a, k) {
            lemma_lane_idx_inj(d, size, a, k2, a, k);
        }
    }
    assert(lane_of(u, d, size, a) =~= lane_of(t, d, size, a).update(k, v));
    assert forall|a2: int| 0 <= a2 < size && a2 != a implies lane_of(u, d, size, a2) == lane_of(
        t,
        d,
        size,
        a2,
    ) by {
        assert forall|k2: int| 0 <= k2 < size implies lane_of(u, d, size, a2)[k2] == lane_of(
            t,
            d,
            size,
            a2,
        )[k2] by {
            lemma_flat_index(size, lane_row(d, size, a2, k2), lane_col(d, size, a2, k2));
            if lane_idx(d, size, a2, k2) == lane_idx(d, size, a, k) {
                lemma_lane_idx_inj(d, size, a2, k2, a, k);
            }
        }
        assert(lane_of(u, d, size, a2) =~= lane_of(t, d, size, a2));
    }
}

/// The tiles of one lane of a board whose cells all lie in `[0, 31]` lie in
/// `[0, 31]` too.
proof fn lemma_lane_range(t: Seq<i32>, d: Direction, size: int, a: int)
    requires
        1 <= size,
        t.len() == size * size,
        0 <= a < size,
        forall|k: int| 0 <= k < t.len() ==> 0 <= #[trigger] t[k] <= 31,
    ensures
        forall|k: int| 0 <= k < size ==> 0 <= #[trigger] lane_of(t, d, size, a)[k] <= 31,
{
    assert forall|k: int| 0 <= k < size implies 0 <= #[trigger] lane_of(t, d, size, a)[k]
        <= 31 by {
        lemma_flat_index(size, lane_row(d, size, a, k), lane_col(d, size, a, k));
    }
}

/// The score gained by collapsing the first `n` lanes.
pub open spec fn lanes_gain(t: Seq<i32>, d: Direction, size: int, n: int) -> int
    decreases n,
{
    if n <= 0 {
        0
    } else {
        lanes_gain(t, d, size, n - 1) + collapse_gain(lane_of(t, d, size, n - 1))
    }
}

/// Lane-local `(from, to)` edge distances turned back into grid traces.
pub open spec fn to_coords(d: Direction, size: int, a: int, tr: Seq<(int, int)>) -> Seq<Trace> {
    tr.map(
        |i: int, p: (int, int)|
            (
                (lane_row(d, size, a, p.0) as usize, lane_col(d, size, a, p.0) as usize),
                (lane_row(d, size, a, p.1) as usize, lane_col(d, size, a, p.1) as usize),
            ),
    )
}

/// The traces of a whole shift: each lane's sweep traces in lane order —
/// the traversal order of the move.
pub open spec fn all_traces(t: Seq<i32>, d: Direction, size: int, n: int) -> Seq<Trace>
    decreases n,
{
    if n <= 0 {
        Seq::empty()
    } else {
        all_traces(t, d, size, n - 1) + to_coords(
            d,
            size,
            n - 1,
            sweep_traces(lane_of(t, d, size, n - 1), size),
        )
    }
}

/// A trace runs along one lane of the move, toward the destination edge.
pub open spec fn trace_dir_wf(d: Direction, size: int, t: Trace) -> bool {
    &&& lane_a_of(d, t.0.0 as int, t.0.1 as int) == lane_a_of(d, t.1.0 as int, t.1.1 as int)
    &&& coord_dist(d, size, t.1.0 as int, t.1.1 as int) < coord_dist(
        d,
        size,
        t.0.0 as int,
        t.0.1 as int,
    )
}

/// A trace is two distinct coordinates on the grid.
pub open spec fn trace_wf(size: usize, t: Trace) -> bool {
    &&& t.0 != t.1
    &&& t.0.0 < size
    &&& t.0.1 < size
    &&& t.1.0 < size
    &&& t.1.1 < size
}

/// Everything one move step (or any chain of move steps) guarantees about
/// the board it produced and the traces it recorded:
/// the shape and the displayed sum are kept, `score + psi` is conserved, the
/// score never drops, an empty trace list means an untouched board, a
/// non-empty one a strictly lowered weight, and every trace is two distinct
/// on-grid coordinates.
pub open spec fn move_rel(b0: Board, b: Board, traces: Seq<Trace>, d: Direction) -> bool {
    &&& b.size == b0.size
    &&& b.shaped()
    &&& b.cells_nonneg()
    &&& disp(b.tiles@) == disp(b0.tiles@)
    &&& b.score + psi(b.tiles@) == b0.score + psi(b0.tiles@)
    &&& b.score >= b0.score
    &&& (traces.len() == 0 ==> b.tiles@ == b0.tiles@ && b.score == b0.score)
    &&& (traces.len() > 0 ==> weight(d, b0.size as int, b.tiles@) < weight(
        d,
        b0.size as int,
        b0.tiles@,
    ))
    &&& weight(d, b0.size as int, b.tiles@) <= weight(d, b0.size as int, b0.tiles@)
    &&& (forall|i: int| 0 <= i < traces.len() ==> trace_wf(b0.size, #[trigger] traces[i]))
    &&& (forall|i: int| 0 <= i < traces.len() ==> trace_dir_wf(d, b0.size as int, #[trigger] traces[i]))
}

/// Across any sequence of shifts the score never drops, the displayed sum
/// is conserved, and `score + psi` is conserved: chaining the relation one
/// `shift` ensures extends all three over the whole sequence, one step at a
/// time.
pub proof fn lemma_shift_chain(
    b0: Board,
    b1: Board,
    b2: Board,
    t1: Seq<Trace>,
    t2: Seq<Trace>,
    d1: Direction,
    d2: Direction,
)
    requires
        move_rel(b0, b1, t1, d1),
        move_rel(b1, b2, t2, d2),
    ensures
        b2.score >= b0.score,
        disp(b2.tiles@) == disp(b0.tiles@),
        b2.score + psi(b2.tiles@) == b0.score + psi(b0.tiles@),
        b2.size == b0.size,
{
}

/// Chaining two move steps of one direction chains everything `move_rel`
/// states.
proof fn lemma_move_rel_trans(b0: Board, b1: Board, b2: Board, t1: Seq<Trace>, t2: Seq<Trace>, d: Direction)
    requires
        move_rel(b0, b1, t1, d),
        move_rel(b1, b2, t2, d),
    ensures
        move_rel(b0, b2, t1 + t2, d),
{
    let t = t1 + t2;
    assert forall|i: int| 0 <= i < t.len() implies trace_wf(b0.size, #[trigger] t[i])
        && trace_dir_wf(d, b0.size as int, t[i]) by {
        if i < t1.len() {
            assert(t[i] == t1[i]);
        } else {
            assert(t[i] == t2[i - t1.len()]);
        }
    }
    if t.len() == 0 {
        assert(t1.len() == 0 && t2.len() == 0);
    }
}

/// The flat index of `(r, c)` decomposes back into `(r, c)`.
proof fn lemma_coords_div_mod(size: int, r: int, c: int)
    requires
        size >= 1,
        0 <= r,
        0 <= c < size,
    ensures
        (r * size + c) / size == r,
        (r * size + c) % size == c,
{
    lemma_fundamental_div_mod_converse_div(r * size + c, size, r, c);
    lemma_fundamental_div_mod_converse_mod(r * size + c, size, r, c);
}

/// Under the displayed-sum cap every cell holds at most `31`, so every
/// `psi` term is non-negative and so is `psi` itself.
pub(crate) proof fn lemma_caps(s: Seq<i32>)
    requires
        forall|k: int| 0 <= k < s.len() ==> s[k] >= 0,
        disp(s) <= 0x8000_0000,
    ensures
        forall|k: int| 0 <= k < s.len() ==> #[trigger] s[k] <= 31,
        terms_nonneg(disp_f(), s),
        terms_nonneg(psi_f(), s),
        psi(s) >= 0,
{
    assert(terms_nonneg(disp_f(), s));
    assert forall|k: int| 0 <= k < s.len() implies #[trigger] s[k] <= 31 by {
        if s[k] > 31 {
            lemma_sum_lower_one(disp_f(), s, k);
            lemma_pow2_strictly_increases(31, s[k] as nat);
            lemma2_to64();
        }
    }
    assert forall|k: int| 0 <= k < s.len() implies #[trigger] psi_f()(k, s[k]) >= 0 by {
        if s[k] > 0 {
            lemma_mul_nonnegative(31 - s[k], pow2(s[k] as nat) as int);
        }
    }
    lemma_sum_nonneg(psi_f(), s);
}

/// Two distinct cells of the same value `v` need `2 * 2^v` of the displayed
/// sum, so under the cap `v` stays below `31`.
proof fn lemma_merge_bound(s: Seq<i32>, i: int, j: int, v: i32)
    requires
        forall|k: int| 0 <= k < s.len() ==> s[k] >= 0,
        disp(s) <= 0x8000_0000,
        0 <= i < s.len(),
        0 <= j < s.len(),
        i != j,
        s[i] == v,
        s[j] == v,
        v >= 1,
    ensures
        v <= 30,
{
    assert(terms_nonneg(disp_f(), s));
    if i < j {
        lemma_sum_lower_two(disp_f(), s, i, j);
    } else {
        lemma_sum_lower_two(disp_f(), s, j, i);
    }
    if v >= 31 {
        if v > 31 {
            lemma_pow2_strictly_increases(31, v as nat);
        }
        lemma2_to64();
        assert(false);
    }
}

/// `q = (qr, qc)` is the on-grid neighbour of `p = (pr, pc)` toward `d`.
pub open spec fn step_rel(d: Direction, size: int, pr: int, pc: int, qr: int, qc: int) -> bool {
    &&& 0 <= pr < size
    &&& 0 <= pc < size
    &&& 0 <= qr < size
    &&& 0 <= qc < size
    &&& match d {
        Direction::Up => qr == pr - 1 && qc == pc,
        Direction::Down => qr == pr + 1 && qc == pc,
        Direction::Left => qr == pr && qc == pc - 1,
        Direction::Right => qr == pr && qc == pc + 1,
    }
}

/// How one slide (`v` moves from `p` into the empty `q`) changes the three
/// sums: displayed sum and merge yield are untouched, the weight drops by
/// exactly one.
proof fn lemma_slide_effect(d: Direction, size: int, s: Seq<i32>, pr: int, pc: int, qr: int, qc: int)
    requires
        size >= 2,
        s.len() == size * size,
        step_rel(d, size, pr, pc, qr, qc),
        s[pr * size + pc] >= 1,
        s[qr * size + qc] == 0,
    ensures
        ({
            let s2 = s.update(qr * size + qc, s[pr * size + pc]).update(pr * size + pc, 0);
            &&& disp(s2) == disp(s)
            &&& psi(s2) == psi(s)
            &&& weight(d, size, s2) == weight(d, size, s) - 1
        }),
    {
        let pi = pr * size + pc;
        let qi = qr * size + qc;
        let v = s[pi];
        lemma_flat_index(size, pr, pc);
        lemma_flat_index(size, qr, qc);
        lemma_coords_div_mod(size, pr, pc);
        lemma_coords_div_mod(size, qr, qc);
        assert(pi != qi) by {
            if pi == qi {
                assert(pr == qr && pc == qc);
            }
        }
        let s1 = s.update(qi, v);
        let s2 = s1.update(pi, 0);
        lemma_sum_update(disp_f(), s, qi, v);
        lemma_sum_update(disp_f(), s1, pi, 0);
        lemma_sum_update(psi_f(), s, qi, v);
        lemma_sum_update(psi_f(), s1, pi, 0);
        lemma_sum_update(weight_f(d, size), s, qi, v);
        lemma_sum_update(weight_f(d, size), s1, pi, 0);
        assert(coord_dist(d, size, qr, qc) == coord_dist(d, size, pr, pc) - 1);
    }

/// How one merge (`v` from `p` joins the equal `v` in `q`) changes the three
/// sums: the displayed sum is untouched, the merge yield drops by exactly
/// the score gain `2^(v+1)`, and the weight drops by the distance of `p`
/// from the destination edge, which is at least one.
proof fn lemma_merge_effect(d: Direction, size: int, s: Seq<i32>, pr: int, pc: int, qr: int, qc: int)
    requires
        size >= 2,
        s.len() == size * size,
        step_rel(d, size, pr, pc, qr, qc),
        1 <= s[pr * size + pc] <= 30,
        s[qr * size + qc] == s[pr * size + pc],
    ensures
        ({
            let v = s[pr * size + pc];
            let s2 = s.update(qr * size + qc, (v + 1) as i32).update(pr * size + pc, 0);
            &&& disp(s2) == disp(s)
            &&& psi(s2) == psi(s) - pow2((v + 1) as nat)
            &&& weight(d, size, s2) == weight(d, size, s) - coord_dist(d, size, pr, pc)
            &&& coord_dist(d, size, pr, pc) >= 1
        }),
    {
        let pi = pr * size + pc;
        let qi = qr * size + qc;
        let v = s[pi];
        lemma_flat_index(size, pr, pc);
        lemma_flat_index(size, qr, qc);
        lemma_coords_div_mod(size, pr, pc);
        lemma_coords_div_mod(size, qr, qc);
        assert(pi != qi) by {
            if pi == qi {
                assert(pr == qr && pc == qc);
            }
        }
        let s1 = s.update(qi, (v + 1) as i32);
        let s2 = s1.update(pi, 0);
        lemma_sum_update(disp_f(), s, qi, (v + 1) as i32);
        lemma_sum_update(disp_f(), s1, pi, 0);
        lemma_sum_update(psi_f(), s, qi, (v + 1) as i32);
        lemma_sum_update(psi_f(), s1, pi, 0);
        lemma_sum_update(weight_f(d, size), s, qi, (v + 1) as i32);
        lemma_sum_update(weight_f(d, size), s1, pi, 0);
        lemma_pow2_unfold((v + 1) as nat);
        let a = pow2(v as nat) as int;
        assert((31 - (v + 1)) * (2 * a) - (31 - v) * a + 0 - (31 - v) * a == 0 - (2 * a))
            by (nonlinear_arith);
        assert(weight_f(d, size)(qi, (v + 1) as i32) == weight_f(d, size)(qi, v));
    }

/// `2^e` as a machine word.
fn pow2_u32(e: u32) -> (r: u32)
    requires
        e <= 31,
    ensures
        r as int == pow2(e as nat),
{
    let mut k: u32 = 0;
    let mut p: u32 = 1;
    proof {
        lemma2_to64();
    }
    while k < e
        invariant
            k <= e <= 31,
            p as int == pow2(k as nat),
        decreases e - k,
    {
        proof {
            lemma2_to64();
            if k < 31 {
                lemma_pow2_strictly_increases(k as nat, 31);
            }
            lemma_pow2_unfold((k + 1) as nat);
        }
        p = p * 2;
        k = k + 1;
    }
    p
}

impl Core {
    /// Runs the single-tile slide procedure from `tile`: the walk steps
    /// toward `direction`, carrying a tile over empty cells, merging it into
    /// an equal neighbour for `2^(v+1)` points, and stopping at the edge.
    /// Consecutive slides of one tile coalesce into a single trace; a merge
    /// always records its own trace.  Only the start cell's lane changes,
    /// and on that lane the walk computes exactly `walk` of the lane's
    /// pre-state from the start's edge distance, gaining `walk_gain`.
    #[verifier::loop_isolation(false)]
    #[verifier::rlimit(100)]
    pub fn do_shift(&self, board: &mut Board, tile: &Coordinate, direction: &Direction) -> (traces:
        Vec<Trace>)
        requires
            old(board).wf(),
            old(board).pos_ok(tile.0 as int, tile.1 as int),
        ensures
            move_rel(*old(board), *final(board), traces@, *direction),
            final(board).wf(),
            ({
                let d = *direction;
                let s = old(board).size as int;
                let a = lane_a_of(d, tile.0 as int, tile.1 as int);
                let m = coord_dist(d, s, tile.0 as int, tile.1 as int);
                let l0 = lane_of(old(board).tiles@, d, s, a);
                &&& (forall|a2: int|
                    0 <= a2 < s && a2 != a ==> lane_of(final(board).tiles@, d, s, a2) == lane_of(
                        old(board).tiles@,
                        d,
                        s,
                        a2,
                    ))
                &&& lane_of(final(board).tiles@, d, s, a) == walk(l0, m)
                &&& final(board).score == old(board).score + walk_gain(l0, m)
                &&& traces@ == to_coords(d, s, a, walk_traces(l0, m, Seq::empty(), false))
            }),
    {
        let ghost b0 = *old(board);
        let ghost sz = old(board).size as int;
        let ghost dd = *direction;
        let ghost a_g = lane_a_of(dd, tile.0 as int, tile.1 as int);
        let ghost m_g = coord_dist(dd, sz, tile.0 as int, tile.1 as int);
        let ghost l0_g = lane_of(b0.tiles@, dd, sz, a_g);
        let mut pos: Coordinate = *tile;
        let mut no_swapped: bool = false;
        let mut traces: Vec<Trace> = Vec::new();
        let ghost mut acc_g: Seq<(int, int)> = Seq::empty();
        while board.next(&pos, direction).is_some()
            invariant
                board.shaped(),
                pos.0 < board.size,
                pos.1 < board.size,
                move_rel(b0, *board, traces@, *direction),
                lane_a_of(dd, pos.0 as int, pos.1 as int) == a_g,
                forall|a2: int|
                    0 <= a2 < sz && a2 != a_g ==> lane_of(board.tiles@, dd, sz, a2) == lane_of(
                        b0.tiles@,
                        dd,
                        sz,
                        a2,
                    ),
                walk(l0_g, m_g) == walk(
                    lane_of(board.tiles@, dd, sz, a_g),
                    coord_dist(dd, sz, pos.0 as int, pos.1 as int),
                ),
                b0.score + walk_gain(l0_g, m_g) == board.score + walk_gain(
                    lane_of(board.tiles@, dd, sz, a_g),
                    coord_dist(dd, sz, pos.0 as int, pos.1 as int),
                ),
                traces@ == to_coords(dd, sz, a_g, acc_g),
                walk_traces(l0_g, m_g, Seq::empty(), false) == walk_traces(
                    lane_of(board.tiles@, dd, sz, a_g),
                    coord_dist(dd, sz, pos.0 as int, pos.1 as int),
                    acc_g,
                    no_swapped,
                ),
                no_swapped ==> acc_g.len() >= 1 && acc_g.last().0 == coord_dist(
                    dd,
                    sz,
                    traces@.last().0.0 as int,
                    traces@.last().0.1 as int,
                ) && 0 <= acc_g.last().0 < sz,
                no_swapped ==> traces@.len() >= 1 && coord_dist(
                    dd,
                    sz,
                    traces@.last().0.0 as int,
                    traces@.last().0.1 as int,
                ) > coord_dist(dd, sz, pos.0 as int, pos.1 as int) && lane_a_of(
                    dd,
                    traces@.last().0.0 as int,
                    traces@.last().0.1 as int,
                ) == a_g,
            decreases coord_dist(dd, sz, pos.0 as int, pos.1 as int),
        {
            let next_pos = board.next(&pos, direction).unwrap();
            let ghost t_pre = board.tiles@;
            let ghost pi = pos.0 as int * sz + pos.1 as int;
            let ghost qi = next_pos.0 as int * sz + next_pos.1 as int;
            let ghost jd = coord_dist(dd, sz, pos.0 as int, pos.1 as int);
            let ghost lane_cur = lane_of(t_pre, dd, sz, a_g);
            let tile_val = board.get(&pos).unwrap();
            let next_val = board.get(&next_pos).unwrap();
            proof {
                assert(step_rel(
                    dd,
                    sz,
                    pos.0 as int,
                    pos.1 as int,
                    next_pos.0 as int,
                    next_pos.1 as int,
                ));
                lemma_flat_index(sz, pos.0 as int, pos.1 as int);
                lemma_flat_index(sz, next_pos.0 as int, next_pos.1 as int);
                lemma_lane_coords(dd, sz, pos.0 as int, pos.1 as int);
                lemma_lane_coords(dd, sz, next_pos.0 as int, next_pos.1 as int);
                assert(lane_a_of(dd, next_pos.0 as int, next_pos.1 as int) == a_g);
                assert(coord_dist(dd, sz, next_pos.0 as int, next_pos.1 as int) == jd - 1);
                assert(lane_idx(dd, sz, a_g, jd) == pi);
                assert(lane_idx(dd, sz, a_g, jd - 1) == qi);
                assert(tile_val == t_pre[pi]);
                assert(next_val == t_pre[qi]);
                assert(lane_cur[jd] == tile_val);
                assert(lane_cur[jd - 1] == next_val);
                assert(t_pre[pi] >= 0);
                assert(t_pre[qi] >= 0);
            }
            if tile_val != 0 {
                if next_val == 0 {
                    // slide into the empty neighbour
                    proof {
                        lemma_slide_effect(
                            dd,
                            sz,
                            t_pre,
                            pos.0 as int,
                            pos.1 as int,
                            next_pos.0 as int,
                            next_pos.1 as int,
                        );
                    }
                    board.set(&next_pos, tile_val);
                    board.set(&pos, 0);
                    proof {
                        assert(board.tiles@ =~= t_pre.update(qi, tile_val).update(pi, 0));
                        assert forall|k: int| 0 <= k < board.tiles@.len() implies board.tiles@[k]
                            >= 0 by {
                            assert(t_pre[k] >= 0);
                        }
                        lemma_lane_update(t_pre, dd, sz, a_g, jd - 1, tile_val);
                        lemma_lane_update(t_pre.update(qi, tile_val), dd, sz, a_g, jd, 0);
                        assert(lane_of(board.tiles@, dd, sz, a_g) == lane_cur.update(
                            jd - 1,
                            tile_val,
                        ).update(jd, 0));
                        assert(walk(lane_cur, jd) == walk(
                            lane_cur.update(jd - 1, tile_val).update(jd, 0),
                            jd - 1,
                        ));
                        assert(walk_gain(lane_cur, jd) == walk_gain(
                            lane_cur.update(jd - 1, tile_val).update(jd, 0),
                            jd - 1,
                        ));
                        assert(walk_traces(lane_cur, jd, acc_g, no_swapped) == walk_traces(
                            lane_cur.update(jd - 1, tile_val).update(jd, 0),
                            jd - 1,
                            if no_swapped {
                                acc_g.drop_last().push((acc_g.last().0, jd - 1))
                            } else {
                                acc_g.push((jd, jd - 1))
                            },
                            true,
                        ));
                    }
                    if no_swapped {
                        let prev = traces.pop().unwrap();
                        traces.push((prev.0, next_pos));
                        proof {
                            assert(traces@.last() == (prev.0, next_pos));
                            acc_g = acc_g.drop_last().push((acc_g.last().0, jd - 1));
                            lemma_lane_coords(dd, sz, prev.0.0 as int, prev.0.1 as int);
                            assert(traces@ =~= to_coords(dd, sz, a_g, acc_g));
                        }
                    } else {
                        traces.push((pos, next_pos));
                        proof {
                            acc_g = acc_g.push((jd, jd - 1));
                            assert(traces@ =~= to_coords(dd, sz, a_g, acc_g));
                        }
                    }
                    no_swapped = true;
                } else if tile_val == next_val {
                    // merge into the equal neighbour
                    proof {
                        assert(pi != qi) by {
                            lemma_coords_div_mod(sz, pos.0 as int, pos.1 as int);
                            lemma_coords_div_mod(sz, next_pos.0 as int, next_pos.1 as int);
                        }
                        lemma_merge_bound(t_pre, pi, qi, tile_val);
                        lemma_merge_effect(
                            dd,
                            sz,
                            t_pre,
                            pos.0 as int,
                            pos.1 as int,
                            next_pos.0 as int,
                            next_pos.1 as int,
                        );
                    }
                    board.set(&next_pos, tile_val + 1);
                    board.set(&pos, 0);
                    proof {
                        assert(board.tiles@ =~= t_pre.update(qi, (tile_val + 1) as i32).update(
                            pi,
                            0,
                        ));
                        assert forall|k: int| 0 <= k < board.tiles@.len() implies board.tiles@[k]
                            >= 0 by {
                            assert(t_pre[k] >= 0);
                        }
                        lemma_caps(board.tiles@);
                        lemma_lane_update(t_pre, dd, sz, a_g, jd - 1, (tile_val + 1) as i32);
                        lemma_lane_update(
                            t_pre.update(qi, (tile_val + 1) as i32),
                            dd,
                            sz,
                            a_g,
                            jd,
                            0,
                        );
                        assert(lane_of(board.tiles@, dd, sz, a_g) == lane_cur.update(
                            jd - 1,
                            (tile_val + 1) as i32,
                        ).update(jd, 0));
                        assert(walk(lane_cur, jd) == walk(
                            lane_cur.update(jd - 1, (tile_val + 1) as i32).update(jd, 0),
                            jd - 1,
                        ));
                        assert(walk_gain(lane_cur, jd) == pow2((tile_val + 1) as nat) + walk_gain(
                            lane_cur.update(jd - 1, (tile_val + 1) as i32).update(jd, 0),
                            jd - 1,
                        ));
                        assert(walk_traces(lane_cur, jd, acc_g, no_swapped) == walk_traces(
                            lane_cur.update(jd - 1, (tile_val + 1) as i32).update(jd, 0),
                            jd - 1,
                            acc_g.push((jd, jd - 1)),
                            false,
                        ));
                    }
                    let gain = pow2_u32((tile_val + 1) as u32);
                    board.score = board.score + gain;
                    traces.push((pos, next_pos));
                    proof {
                        acc_g = acc_g.push((jd, jd - 1));
                        assert(traces@ =~= to_coords(dd, sz, a_g, acc_g));
                    }
                    no_swapped = false;
                } else {
                    // blocked by a different occupied tile
                    proof {
                        assert(walk(lane_cur, jd) == walk(lane_cur, jd - 1));
                        assert(walk_gain(lane_cur, jd) == walk_gain(lane_cur, jd - 1));
                        assert(walk_traces(lane_cur, jd, acc_g, no_swapped) == walk_traces(
                            lane_cur,
                            jd - 1,
                            acc_g,
                            no_swapped,
                        ));
                    }
                }
            } else {
                // an empty start cell carries nothing
                proof {
                    assert(walk(lane_cur, jd) == walk(lane_cur, jd - 1));
                    assert(walk_gain(lane_cur, jd) == walk_gain(lane_cur, jd - 1));
                    assert(walk_traces(lane_cur, jd, acc_g, no_swapped) == walk_traces(
                        lane_cur,
                        jd - 1,
                        acc_g,
                        no_swapped,
                    ));
                }
            }
            pos = next_pos;
        }
        proof {
            lemma_caps(board.tiles@);
            assert(coord_dist(dd, sz, pos.0 as int, pos.1 as int) == 0);
            assert(walk(lane_of(board.tiles@, dd, sz, a_g), 0) == lane_of(
                board.tiles@,
                dd,
                sz,
                a_g,
            ));
        }
        traces
    }
}

/// The start cell the sweep hands to the single-tile procedure in step
/// `(a, b)`: lanes run over `a`, and `b` walks each lane from the
/// destination edge of `direction` inward.
fn sweep_start(direction: &Direction, size: usize, a: usize, b: usize) -> (p: Coordinate)
    requires
        a < size,
        b < size,
    ensures
        p.0 < size,
        p.1 < size,
        lane_a_of(*direction, p.0 as int, p.1 as int) == a as int,
        coord_dist(*direction, size as int, p.0 as int, p.1 as int) == b as int,
{
    match direction {
        Direction::Right => (a, size - 1 - b),
        Direction::Down => (size - 1 - b, a),
        Direction::Up => (b, a),
        Direction::Left => (a, b),
    }
}

impl Core {
    /// Applies one sliding-merge move toward `direction`, mutating the board
    /// in place, and returns the traces of all moved tiles in traversal
    /// order.  Each lane of the move collapses independently: its tiles,
    /// read from the destination edge inward, fold into a stack where each
    /// arriving tile merges with an equal top for `2^(v+1)` points, merges
    /// cascading; the folded tiles end packed against the edge and the score
    /// grows by exactly the sum of the lanes' gains.  The board stays well
    /// formed, the displayed sum is conserved, and the trace list is pinned
    /// exactly: lane by lane, start by start from the destination edge, the
    /// walks' traces with their slide-coalescing, in traversal order.  It is
    /// empty exactly when the move changed nothing, and every trace runs
    /// along one lane toward the destination edge.
    #[verifier::loop_isolation(false)]
    #[verifier::rlimit(100)]
    pub fn shift(&self, board: &mut Board, direction: &Direction) -> (traces: Vec<Trace>)
        requires
            old(board).wf(),
        ensures
            move_rel(*old(board), *final(board), traces@, *direction),
            final(board).wf(),
            final(board).size == old(board).size,
            final(board).score >= old(board).score,
            disp(final(board).tiles@) == disp(old(board).tiles@),
            final(board).score + psi(final(board).tiles@) == old(board).score + psi(
                old(board).tiles@,
            ),
            traces@.len() == 0 <==> final(board).tiles@ == old(board).tiles@,
            traces@.len() == 0 ==> final(board).score == old(board).score,
            forall|i: int| 0 <= i < traces@.len() ==> trace_wf(old(board).size, #[trigger] traces@[i]),
            forall|i: int|
                0 <= i < traces@.len() ==> trace_dir_wf(
                    *direction,
                    old(board).size as int,
                    #[trigger] traces@[i],
                ),
            forall|a: int|
                0 <= a < old(board).size ==> lane_of(
                    final(board).tiles@,
                    *direction,
                    old(board).size as int,
                    a,
                ) == packed(
                    collapse_stack(
                        lane_of(old(board).tiles@, *direction, old(board).size as int, a),
                    ),
                    old(board).size as int,
                ),
            final(board).score == old(board).score + lanes_gain(
                old(board).tiles@,
                *direction,
                old(board).size as int,
                old(board).size as int,
            ),
            traces@ == all_traces(
                old(board).tiles@,
                *direction,
                old(board).size as int,
                old(board).size as int,
            ),
    {
        let ghost b0 = *old(board);
        let ghost dd = *direction;
        let ghost szi = old(board).size as int;
        let mut traces: Vec<Trace> = Vec::new();
        let size = board.size;
        proof {
            lemma_caps(b0.tiles@);
        }
        let mut a: usize = 0;
        while a < size
            invariant
                a <= size,
                move_rel(b0, *board, traces@, dd),
                forall|a2: int|
                    0 <= a2 < a ==> lane_of(board.tiles@, dd, szi, a2) == packed(
                        collapse_stack(lane_of(b0.tiles@, dd, szi, a2)),
                        szi,
                    ),
                forall|a2: int|
                    a <= a2 < szi ==> lane_of(board.tiles@, dd, szi, a2) == lane_of(
                        b0.tiles@,
                        dd,
                        szi,
                        a2,
                    ),
                board.score == b0.score + lanes_gain(b0.tiles@, dd, szi, a as int),
                traces@ == all_traces(b0.tiles@, dd, szi, a as int),
            decreases size - a,
        {
            let ghost l0a = lane_of(b0.tiles@, dd, szi, a as int);
            proof {
                lemma_swept_start(l0a);
                assert(collapse_gain(l0a.take(0)) == 0) by {
                    assert(l0a.take(0) =~= Seq::<i32>::empty());
                }
                lemma_lane_range(b0.tiles@, dd, szi, a as int);
                assert(to_coords(dd, szi, a as int, sweep_traces(l0a, 0)) =~= Seq::<
                    Trace,
                >::empty());
                assert(traces@ =~= all_traces(b0.tiles@, dd, szi, a as int) + to_coords(
                    dd,
                    szi,
                    a as int,
                    sweep_traces(l0a, 0),
                ));
            }
            let mut b: usize = 0;
            while b < size
                invariant
                    a < size,
                    b <= size,
                    move_rel(b0, *board, traces@, dd),
                    l0a == lane_of(b0.tiles@, dd, szi, a as int),
                    forall|a2: int|
                        0 <= a2 < a ==> lane_of(board.tiles@, dd, szi, a2) == packed(
                            collapse_stack(lane_of(b0.tiles@, dd, szi, a2)),
                            szi,
                        ),
                    forall|a2: int|
                        a < a2 < szi ==> lane_of(board.tiles@, dd, szi, a2) == lane_of(
                            b0.tiles@,
                            dd,
                            szi,
                            a2,
                        ),
                    lane_of(board.tiles@, dd, szi, a as int) == swept(l0a, b as int),
                    board.score == b0.score + lanes_gain(b0.tiles@, dd, szi, a as int)
                        + collapse_gain(l0a.take(b as int)),
                    traces@ == all_traces(b0.tiles@, dd, szi, a as int) + to_coords(
                        dd,
                        szi,
                        a as int,
                        sweep_traces(l0a, b as int),
                    ),
                decreases size - b,
            {
                let start = sweep_start(direction, size, a, b);
                let ghost mid = *board;
                let ghost tr_pre = traces@;
                let mut t = self.do_shift(board, &start, direction);
                let ghost tseq = t@;
                proof {
                    lemma_move_rel_trans(b0, mid, *board, tr_pre, tseq, dd);
                    lemma_sweep_step(l0a, b as int);
                    assert(tseq == to_coords(
                        dd,
                        szi,
                        a as int,
                        walk_traces(swept(l0a, b as int), b as int, Seq::empty(), false),
                    ));
                    assert(to_coords(dd, szi, a as int, sweep_traces(l0a, b as int + 1)) =~= to_coords(
                        dd,
                        szi,
                        a as int,
                        sweep_traces(l0a, b as int),
                    ) + to_coords(
                        dd,
                        szi,
                        a as int,
                        walk_traces(swept(l0a, b as int), b as int, Seq::empty(), false),
                    ));
                    assert(tr_pre + tseq =~= all_traces(b0.tiles@, dd, szi, a as int) + to_coords(
                        dd,
                        szi,
                        a as int,
                        sweep_traces(l0a, b as int + 1),
                    ));
                }
                traces.append(&mut t);
                b = b + 1;
            }
            proof {
                lemma_swept_done(l0a);
                assert(lanes_gain(b0.tiles@, dd, szi, a as int + 1) == lanes_gain(
                    b0.tiles@,
                    dd,
                    szi,
                    a as int,
                ) + collapse_gain(l0a));
                assert(all_traces(b0.tiles@, dd, szi, a as int + 1) == all_traces(
                    b0.tiles@,
                    dd,
                    szi,
                    a as int,
                ) + to_coords(dd, szi, a as int, sweep_traces(l0a, szi)));
            }
            a = a + 1;
        }
        proof {
            lemma_caps(board.tiles@);
            if traces@.len() > 0 {
                assert(board.tiles@ != b0.tiles@);
            }
        }
        traces
    }
}

} // verus!
