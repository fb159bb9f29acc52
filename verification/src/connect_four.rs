//! The Connect Four board: a 6-row by 7-column grid filled bottom-up.
//!
//! The grid is stored as a flat vector of 42 cells in row-major order with
//! row 0 at the bottom, so the cell in row `y` and column `x` sits at index
//! `y * 7 + x`. Stones obey gravity: within a column the occupied cells form
//! a contiguous prefix from the bottom. The board caches its game state,
//! which is updated right after each placement.

use rand::Rng;
use vstd::prelude::*;

verus! {

/// Number of rows of the grid (the board's height).
pub const ROWS: usize = 6;

/// Number of columns of the grid (the board's width).
pub const COLS: usize = 7;

/// Total number of cells, `ROWS * COLS`.
pub const CELLS: usize = 42;

/// One of the two players.
#[derive(Clone, Copy, Debug, PartialEq, Eq, Structural)]
pub enum Player {
    Player1,
    Player2,
}

impl Player {
    /// The opponent of this player.
    pub open spec fn other_spec(self) -> Player {
        match self {
            Player::Player1 => Player::Player2,
            Player::Player2 => Player::Player1,
        }
    }

    /// Returns the opponent of this player.
    pub fn other(self) -> (r: Player)
        ensures
            r == self.other_spec(),
    {
        match self {
            Player::Player1 => Player::Player2,
            Player::Player2 => Player::Player1,
        }
    }
}

/// A cell position: `y` is the row (0 = bottom), `x` the column (0 = left).
#[derive(Clone, Copy, Debug, PartialEq, Eq, Structural)]
pub struct Coordinate {
    pub y: usize,
    pub x: usize,
}

/// A move: the column a stone is dropped into. The row is derived by
/// gravity when the move is applied.
#[derive(Clone, Copy, Debug, PartialEq, Eq, Structural)]
pub struct GameMove {
    pub x: usize,
}

impl GameMove {
    /// Wraps a column index as a move.
    pub fn new(position: usize) -> (r: GameMove)
        ensures
            r.x == position,
    {
        GameMove { x: position }
    }
}

/// The outcome of a finished game.
#[derive(Clone, Copy, Debug, PartialEq, Eq, Structural)]
pub enum GameResult {
    Draw,
    Win(Player),
}

/// Whether the game is still running, and its outcome once it is not.
#[derive(Clone, Copy, Debug, PartialEq, Eq, Structural)]
pub enum GameState {
    Ongoing,
    GameResult(GameResult),
}

/// The error returned when a move names a column that is out of range or
/// already full.
#[derive(Clone, Copy, Debug, PartialEq, Eq, Structural)]
pub struct InvalidMove;

/// Index of the cell in row `y`, column `x` within the flat grid.
pub open spec fn idx(y: int, x: int) -> int {
    y * 7 + x
}

/// Whether `(y, x)` lies on the board.
pub open spec fn in_bounds(y: int, x: int) -> bool {
    0 <= y < 6 && 0 <= x < 7
}

/// Whether the cell `(y, x)` is on the board and holds a stone of `p`.
pub open spec fn cell_is(g: Seq<Option<Player>>, p: Player, y: int, x: int) -> bool {
    in_bounds(y, x) && g[idx(y, x)] == Some(p)
}

/// The grid has 42 cells and obeys gravity: every occupied cell rests on
/// an occupied cell or on the bottom row.
pub open spec fn grid_wf(g: Seq<Option<Player>>) -> bool {
    &&& g.len() == 42
    &&& forall|y: int, x: int|
        0 < y < 6 && 0 <= x < 7 && #[trigger] g[idx(y, x)] is Some ==> g[idx(y - 1, x)] is Some
}

/// Whether column `x` is full, i.e. its top cell is occupied.
pub open spec fn col_full(g: Seq<Option<Player>>, x: int) -> bool {
    g[idx(5, x)] is Some
}

/// Whether the whole board is full, i.e. the top row is occupied.
pub open spec fn board_full(g: Seq<Option<Player>>) -> bool {
    forall|x: int| 0 <= x < 7 ==> col_full(g, x)
}

/// Number of stones in column `x` among the rows below `y`.
pub open spec fn col_height_upto(g: Seq<Option<Player>>, x: int, y: int) -> nat
    decreases y,
{
    if y <= 0 {
        0
    } else {
        col_height_upto(g, x, y - 1) + if g[idx(y - 1, x)] is Some {
            1nat
        } else {
            0nat
        }
    }
}

/// Number of stones in column `x`. Under gravity this is also the row the
/// next stone dropped into `x` would land in.
pub open spec fn col_height(g: Seq<Option<Player>>, x: int) -> nat {
    col_height_upto(g, x, 6)
}

/// The legal moves with column index at least `x`, in ascending order.
pub open spec fn legal_from(g: Seq<Option<Player>>, x: int) -> Seq<GameMove>
    decreases 7 - x,
{
    if x < 0 || x >= 7 {
        Seq::empty()
    } else if !col_full(g, x) {
        seq![GameMove { x: x as usize }] + legal_from(g, x + 1)
    } else {
        legal_from(g, x + 1)
    }
}

/// All legal moves: one per column whose top cell is empty, ascending.
pub open spec fn legal_moves_spec(g: Seq<Option<Player>>) -> Seq<GameMove> {
    legal_from(g, 0)
}

/// Number of stones among the first `i` cells of the flat grid.
pub open spec fn stones_upto(g: Seq<Option<Player>>, i: int) -> nat
    decreases i,
{
    if i <= 0 {
        0
    } else {
        stones_upto(g, i - 1) + if g[i - 1] is Some {
            1nat
        } else {
            0nat
        }
    }
}

/// Number of stones on the board.
pub open spec fn stone_count(g: Seq<Option<Player>>) -> nat {
    stones_upto(g, 42)
}

/// Whether `(dy, dx)` is one of the four canonical line directions:
/// horizontal, vertical, and the two diagonals.
pub open spec fn is_win_dir(dy: int, dx: int) -> bool {
    (dy == 0 && dx == 1) || (dy == 1 && dx == 0) || (dy == 1 && dx == 1) || (dy == 1 && dx == -1)
}

/// Whether the four cells starting at `(y, x)` and stepping by `(dy, dx)`
/// all hold stones of `p`.
pub open spec fn four_at(
    g: Seq<Option<Player>>,
    p: Player,
    y: int,
    x: int,
    dy: int,
    dx: int,
) -> bool {
    forall|i: int| 0 <= i < 4 ==> #[trigger] cell_is(g, p, y + i * dy, x + i * dx)
}

/// Whether a line of four stones of `p` passes through the cell `(y, x)`.
pub open spec fn wins_through(g: Seq<Option<Player>>, p: Player, y: int, x: int) -> bool {
    exists|k: int, dy: int, dx: int|
        0 <= k < 4 && is_win_dir(dy, dx) && #[trigger] four_at(g, p, y - k * dy, x - k * dx, dy, dx)
}

/// Whether some line of four stones of `p` lies anywhere on the board.
pub open spec fn has_connect_four(g: Seq<Option<Player>>, p: Player) -> bool {
    exists|y: int, x: int, dy: int, dx: int|
        is_win_dir(dy, dx) && #[trigger] four_at(g, p, y, x, dy, dx)
}

/// The grid after `p` drops a stone into column `x`: the lowest empty cell
/// of the column is filled.
pub open spec fn grid_after(g: Seq<Option<Player>>, p: Player, x: int) -> Seq<Option<Player>> {
    g.update(idx(col_height(g, x) as int, x), Some(p))
}

/// The cached state after `p` drops a stone into column `x` of `g`:
/// a win if the new stone completes a line of four, a draw if the board
/// became full without one, else still ongoing.
pub open spec fn state_after(g: Seq<Option<Player>>, p: Player, x: int) -> GameState {
    if wins_through(grid_after(g, p, x), p, col_height(g, x) as int, x) {
        GameState::GameResult(GameResult::Win(p))
    } else if board_full(grid_after(g, p, x)) {
        GameState::GameResult(GameResult::Draw)
    } else {
        GameState::Ongoing
    }
}

/// The cached state is faithful to the grid: a win is only cached when the
/// winner has a line of four, a draw only when the board is full, and an
/// ongoing game has neither a line of four nor a full board.
pub open spec fn state_consistent(g: Seq<Option<Player>>, s: GameState) -> bool {
    match s {
        GameState::Ongoing => !board_full(g) && !has_connect_four(g, Player::Player1)
            && !has_connect_four(g, Player::Player2),
        GameState::GameResult(GameResult::Draw) => board_full(g),
        GameState::GameResult(GameResult::Win(p)) => has_connect_four(g, p),
    }
}

/// Cell indices are unique: two in-bounds positions with the same flat
/// index are the same position.
pub proof fn lemma_idx_injective(y1: int, x1: int, y2: int, x2: int)
    requires
        in_bounds(y1, x1),
        in_bounds(y2, x2),
        idx(y1, x1) == idx(y2, x2),
    ensures
        y1 == y2 && x1 == x2,
{
    assert(y1 == y2 && x1 == x2) by (nonlinear_arith)
        requires
            0 <= x1 < 7 && 0 <= x2 < 7 && y1 * 7 + x1 == y2 * 7 + x2,
    ;
}

/// Flat indices of in-bounds cells lie within the grid.
pub proof fn lemma_idx_bounds(y: int, x: int)
    requires
        in_bounds(y, x),
    ensures
        0 <= idx(y, x) < 42,
{
    assert(0 <= y * 7 + x < 42) by (nonlinear_arith)
        requires
            0 <= y < 6 && 0 <= x < 7,
    ;
}

proof fn lemma_height_upto_char(g: Seq<Option<Player>>, x: int, y: int)
    requires
        grid_wf(g),
        0 <= x < 7,
        0 <= y <= 6,
    ensures
        col_height_upto(g, x, y) <= y,
        forall|z: int| 0 <= z < y ==> (g[idx(z, x)] is Some <==> z < col_height_upto(g, x, y)),
    decreases y,
{
    if y > 0 {
        lemma_height_upto_char(g, x, y - 1);
        let h = col_height_upto(g, x, y - 1);
        if g[idx(y - 1, x)] is Some {
            if y - 1 > 0 {
                assert(g[idx(y - 2, x)] is Some);
                assert(h == y - 1);
            }
        }
    }
}

/// In a well-formed grid the stones of a column form a prefix from the
/// bottom whose length is the column's height, which is at most 6.
pub proof fn lemma_height_char(g: Seq<Option<Player>>, x: int)
    requires
        grid_wf(g),
        0 <= x < 7,
    ensures
        col_height(g, x) <= 6,
        forall|z: int| 0 <= z < 6 ==> (g[idx(z, x)] is Some <==> z < col_height(g, x)),
        col_full(g, x) <==> col_height(g, x) == 6,
{
    lemma_height_upto_char(g, x, 6);
    if col_full(g, x) {
        assert(g[idx(5, x)] is Some);
    }
}

proof fn lemma_stones_update(g: Seq<Option<Player>>, p: Player, i: int, k: int)
    requires
        0 <= i < g.len(),
        g[i] is None,
        0 <= k <= g.len(),
    ensures
        stones_upto(g.update(i, Some(p)), k) == stones_upto(g, k) + if i < k {
            1int
        } else {
            0int
        },
    decreases k,
{
    if k > 0 {
        lemma_stones_update(g, p, i, k - 1);
    }
}

proof fn lemma_stones_bound(g: Seq<Option<Player>>, k: int)
    requires
        0 <= k <= g.len(),
    ensures
        stones_upto(g, k) <= k,
    decreases k,
{
    if k > 0 {
        lemma_stones_bound(g, k - 1);
    }
}

/// The number of stones on a well-formed board is at most 42.
pub proof fn lemma_stone_count_bound(g: Seq<Option<Player>>)
    requires
        g.len() == 42,
    ensures
        stone_count(g) <= 42,
{
    lemma_stones_bound(g, 42);
}

proof fn lemma_stones_missing(g: Seq<Option<Player>>, i: int, k: int)
    requires
        0 <= i < k <= g.len(),
        g[i] is None,
    ensures
        stones_upto(g, k) < k,
    decreases k,
{
    if i == k - 1 {
        lemma_stones_bound(g, k - 1);
    } else {
        lemma_stones_missing(g, i, k - 1);
    }
}

/// A board with an empty cell holds fewer than 42 stones.
pub proof fn lemma_stone_count_missing(g: Seq<Option<Player>>, y: int, x: int)
    requires
        g.len() == 42,
        in_bounds(y, x),
        g[idx(y, x)] is None,
    ensures
        stone_count(g) < 42,
{
    lemma_idx_bounds(y, x);
    lemma_stones_missing(g, idx(y, x), 42);
}

/// Characterizes the legal-move list from column `x0` on: it holds exactly
/// the non-full columns at or beyond `x0`, in strictly ascending order.
pub proof fn lemma_legal_from_char(g: Seq<Option<Player>>, x0: int)
    requires
        0 <= x0 <= 7,
    ensures
        forall|m: GameMove|
            #[trigger] legal_from(g, x0).contains(m) <==> (x0 <= m.x < 7 && !col_full(
                g,
                m.x as int,
            )),
        forall|i: int|
            0 <= i < legal_from(g, x0).len() ==> x0 <= #[trigger] legal_from(g, x0)[i].x < 7,
        forall|i: int, j: int|
            0 <= i < j < legal_from(g, x0).len() ==> legal_from(g, x0)[i].x < legal_from(
                g,
                x0,
            )[j].x,
    decreases 7 - x0,
{
    if x0 < 7 {
        lemma_legal_from_char(g, x0 + 1);
        let tail = legal_from(g, x0 + 1);
        if !col_full(g, x0) {
            let whole = legal_from(g, x0);
            assert(whole == seq![GameMove { x: x0 as usize }] + tail);
            assert forall|m: GameMove| #[trigger]
                whole.contains(m) implies (x0 <= m.x < 7 && !col_full(g, m.x as int)) by {
                let i = choose|i: int| 0 <= i < whole.len() && whole[i] == m;
                if i > 0 {
                    assert(tail[i - 1] == m);
                    assert(tail.contains(m));
                }
            }
            assert forall|m: GameMove|
                x0 <= m.x < 7 && !col_full(g, m.x as int) implies #[trigger] whole.contains(m) by {
                if m.x > x0 {
                    assert(tail.contains(m));
                    let i = choose|i: int| 0 <= i < tail.len() && tail[i] == m;
                    assert(whole[i + 1] == m);
                } else {
                    assert(whole[0] == m);
                }
            }
        } else {
            assert(legal_from(g, x0) == tail);
        }
    }
}

/// The legal-move list is empty exactly when the board is full.
pub proof fn lemma_legal_empty_iff_full(g: Seq<Option<Player>>)
    requires
        grid_wf(g),
    ensures
        legal_moves_spec(g).len() == 0 <==> board_full(g),
{
    lemma_legal_from_char(g, 0);
    let legal = legal_moves_spec(g);
    if legal.len() > 0 {
        assert(legal.contains(legal[0]));
        assert(!col_full(g, legal[0].x as int));
    }
    if !board_full(g) {
        let c = choose|c: int| 0 <= c < 7 && !col_full(g, c);
        assert(legal.contains(GameMove { x: c as usize }));
    }
}

/// A legal move always names an in-range column whose top cell is empty,
/// and applying it grows exactly that column's stone count by one while
/// every other column keeps its count.
pub proof fn lemma_legal_move_fills_column(g: Seq<Option<Player>>, p: Player, m: GameMove)
    requires
        grid_wf(g),
        legal_moves_spec(g).contains(m),
    ensures
        m.x < 7,
        g[idx(5, m.x as int)] is None,
        col_height(grid_after(g, p, m.x as int), m.x as int) == col_height(g, m.x as int) + 1,
        forall|c: int|
            0 <= c < 7 && c != m.x ==> #[trigger] col_height(grid_after(g, p, m.x as int), c)
                == col_height(g, c),
{
    lemma_legal_from_char(g, 0);
    lemma_col_height_after(g, p, m.x as int);
}

/// Dropping a stone into a non-full column `x` fills the cell at the
/// column's height: that cell was empty, the grid stays well-formed, the
/// column's height grows by one, every other column keeps its height, and
/// the stone count grows by one.
pub proof fn lemma_col_height_after(g: Seq<Option<Player>>, p: Player, x: int)
    requires
        grid_wf(g),
        0 <= x < 7,
        !col_full(g, x),
    ensures
        col_height(g, x) <= 5,
        g[idx(col_height(g, x) as int, x)] is None,
        grid_wf(grid_after(g, p, x)),
        cell_is(grid_after(g, p, x), p, col_height(g, x) as int, x),
        col_height(grid_after(g, p, x), x) == col_height(g, x) + 1,
        forall|c: int|
            0 <= c < 7 && c != x ==> #[trigger] col_height(grid_after(g, p, x), c) == col_height(
                g,
                c,
            ),
        stone_count(grid_after(g, p, x)) == stone_count(g) + 1,
{
    lemma_height_char(g, x);
    let h = col_height(g, x) as int;
    assert(!(h < h));
    assert(g[idx(h, x)] is None);
    lemma_idx_bounds(h, x);
    let g2 = grid_after(g, p, x);
    assert(g2.len() == 42);
    assert forall|y: int, xx: int|
        0 < y < 6 && 0 <= xx < 7 && #[trigger] g2[idx(y, xx)] is Some implies g2[idx(
        y - 1,
        xx,
    )] is Some by {
        if idx(y, xx) == idx(h, x) {
            lemma_idx_injective(y, xx, h, x);
            assert(g[idx(h - 1, x)] is Some);
            if idx(y - 1, xx) == idx(h, x) {
                lemma_idx_injective(y - 1, xx, h, x);
            }
        } else {
            lemma_idx_bounds(y, xx);
            assert(g[idx(y, xx)] is Some);
            assert(g[idx(y - 1, xx)] is Some);
            if idx(y - 1, xx) != idx(h, x) {
                lemma_idx_bounds(y - 1, xx);
            }
        }
    }
    lemma_height_char(g2, x);
    let h2 = col_height(g2, x) as int;
    assert(g2[idx(h, x)] is Some);
    assert(h < h2);
    if h + 1 < 6 {
        if idx(h + 1, x) == idx(h, x) {
            lemma_idx_injective(h + 1, x, h, x);
        }
        assert(g2[idx(h + 1, x)] == g[idx(h + 1, x)]);
        assert(!(h + 1 < h));
        assert(g[idx(h + 1, x)] is None);
        assert(!(h + 1 < h2));
    }
    assert(h2 == h + 1);
    assert forall|c: int| 0 <= c < 7 && c != x implies #[trigger] col_height(g2, c) == col_height(
        g,
        c,
    ) by {
        lemma_height_char(g, c);
        lemma_height_char(g2, c);
        let hc = col_height(g, c) as int;
        let hc2 = col_height(g2, c) as int;
        assert forall|z: int| 0 <= z < 6 implies g2[idx(z, c)] == g[idx(z, c)] by {
            if idx(z, c) == idx(h, x) {
                lemma_idx_injective(z, c, h, x);
            }
        }
        if hc2 < hc {
            assert(g[idx(hc2, c)] is Some);
            assert(g2[idx(hc2, c)] is Some);
        }
        if hc < hc2 {
            assert(g2[idx(hc, c)] is Some);
            assert(g[idx(hc, c)] is Some);
        }
    }
    lemma_stones_update(g, p, idx(h, x), 42);
}

/// Placing a stone of `p` on an empty cell creates no line of four for
/// `q` beyond, possibly, one through the placed cell itself — which only
/// `p` can own.
pub proof fn lemma_no_new_four(g: Seq<Option<Player>>, p: Player, q: Player, y0: int, x0: int)
    requires
        g.len() == 42,
        in_bounds(y0, x0),
        g[idx(y0, x0)] is None,
        !has_connect_four(g, q),
        q == p ==> !wins_through(g.update(idx(y0, x0), Some(p)), q, y0, x0),
    ensures
        !has_connect_four(g.update(idx(y0, x0), Some(p)), q),
{
    let g2 = g.update(idx(y0, x0), Some(p));
    lemma_idx_bounds(y0, x0);
    assert forall|y: int, x: int, dy: int, dx: int|
        is_win_dir(dy, dx) implies !(#[trigger] four_at(g2, q, y, x, dy, dx)) by {
        if four_at(g2, q, y, x, dy, dx) {
            let hit = (y == y0 && x == x0) || (y + dy == y0 && x + dx == x0) || (y + 2 * dy == y0
                && x + 2 * dx == x0) || (y + 3 * dy == y0 && x + 3 * dx == x0);
            if hit {
                assert(cell_is(g2, q, y + 0 * dy, x + 0 * dx));
                assert(cell_is(g2, q, y + 1 * dy, x + 1 * dx));
                assert(cell_is(g2, q, y + 2 * dy, x + 2 * dx));
                assert(cell_is(g2, q, y + 3 * dy, x + 3 * dx));
                assert(cell_is(g2, q, y0, x0));
                assert(g2[idx(y0, x0)] == Some(p));
                assert(q == p);
                if y == y0 && x == x0 {
                    assert(four_at(g2, q, y0 - 0 * dy, x0 - 0 * dx, dy, dx));
                } else if y + dy == y0 && x + dx == x0 {
                    assert(y0 - 1 * dy == y && x0 - 1 * dx == x);
                    assert(four_at(g2, q, y0 - 1 * dy, x0 - 1 * dx, dy, dx));
                } else if y + 2 * dy == y0 && x + 2 * dx == x0 {
                    assert(y0 - 2 * dy == y && x0 - 2 * dx == x);
                    assert(four_at(g2, q, y0 - 2 * dy, x0 - 2 * dx, dy, dx));
                } else {
                    assert(y0 - 3 * dy == y && x0 - 3 * dx == x);
                    assert(four_at(g2, q, y0 - 3 * dy, x0 - 3 * dx, dy, dx));
                }
                assert(wins_through(g2, q, y0, x0));
                assert(false);
            } else {
                assert forall|i: int| 0 <= i < 4 implies #[trigger] cell_is(
                    g,
                    q,
                    y + i * dy,
                    x + i * dx,
                ) by {
                    assert(cell_is(g2, q, y + i * dy, x + i * dx));
                    let yi = y + i * dy;
                    let xi = x + i * dx;
                    lemma_idx_bounds(yi, xi);
                    assert(i == 0 || i == 1 || i == 2 || i == 3);
                    assert(0 * dy == 0 && 0 * dx == 0 && 1 * dy == dy && 1 * dx == dx);
                    assert(!(yi == y0 && xi == x0));
                    if idx(yi, xi) == idx(y0, x0) {
                        lemma_idx_injective(yi, xi, y0, x0);
                    }
                    assert(g[idx(yi, xi)] == g2[idx(yi, xi)]);
                }
                assert(four_at(g, q, y, x, dy, dx));
                assert(has_connect_four(g, q));
                assert(false);
            }
        }
    }
    if has_connect_four(g2, q) {
        let (y, x, dy, dx) = choose|y: int, x: int, dy: int, dx: int|
            is_win_dir(dy, dx) && #[trigger] four_at(g2, q, y, x, dy, dx);
        assert(!four_at(g2, q, y, x, dy, dx));
    }
}

/// A unit step on the grid. Lines are walked in these directions outward
/// from a just-placed stone; the vertical walk only ever goes down, since
/// no stone can sit above a just-placed one.
#[derive(Clone, Copy, Debug, PartialEq, Eq, Structural)]
enum Dir {
    East,
    West,
    NorthEast,
    SouthWest,
    SouthEast,
    NorthWest,
    South,
}

/// The row delta of one step in direction `d`.
spec fn dir_dy(d: Dir) -> int {
    match d {
        Dir::East => 0,
        Dir::West => 0,
        Dir::NorthEast => 1,
        Dir::SouthWest => -1,
        Dir::SouthEast => -1,
        Dir::NorthWest => 1,
        Dir::South => -1,
    }
}

/// The column delta of one step in direction `d`.
spec fn dir_dx(d: Dir) -> int {
    match d {
        Dir::East => 1,
        Dir::West => -1,
        Dir::NorthEast => 1,
        Dir::SouthWest => -1,
        Dir::SouthEast => 1,
        Dir::NorthWest => -1,
        Dir::South => 0,
    }
}

/// An upper bound on how many steps in direction `d` stay on the board
/// from `(y, x)`; each step decreases it by one.
spec fn run_measure(d: Dir, y: int, x: int) -> int {
    match d {
        Dir::East | Dir::NorthEast | Dir::SouthEast => 7 - x,
        Dir::West | Dir::SouthWest | Dir::NorthWest => x,
        Dir::South => y,
    }
}

/// Moves one step in direction `d`, returning `None` at the board's edge
/// rather than wrapping around.
fn step(c: Coordinate, d: Dir) -> (r: Option<Coordinate>)
    requires
        in_bounds(c.y as int, c.x as int),
    ensures
        match r {
            Some(c2) => in_bounds(c2.y as int, c2.x as int) && c2.y as int == c.y + dir_dy(d)
                && c2.x as int == c.x + dir_dx(d),
            None => !in_bounds(c.y + dir_dy(d), c.x + dir_dx(d)),
        },
{
    match d {
        Dir::East => if c.x + 1 < COLS {
            Some(Coordinate { y: c.y, x: c.x + 1 })
        } else {
            None
        },
        Dir::West => if c.x > 0 {
            Some(Coordinate { y: c.y, x: c.x - 1 })
        } else {
            None
        },
        Dir::NorthEast => if c.y + 1 < ROWS && c.x + 1 < COLS {
            Some(Coordinate { y: c.y + 1, x: c.x + 1 })
        } else {
            None
        },
        Dir::SouthWest => if c.y > 0 && c.x > 0 {
            Some(Coordinate { y: c.y - 1, x: c.x - 1 })
        } else {
            None
        },
        Dir::SouthEast => if c.y > 0 && c.x + 1 < COLS {
            Some(Coordinate { y: c.y - 1, x: c.x + 1 })
        } else {
            None
        },
        Dir::NorthWest => if c.y + 1 < ROWS && c.x > 0 {
            Some(Coordinate { y: c.y + 1, x: c.x - 1 })
        } else {
            None
        },
        Dir::South => if c.y > 0 {
            Some(Coordinate { y: c.y - 1, x: c.x })
        } else {
            None
        },
    }
}

/// Two contiguous runs of `p`'s stones in opposite directions around a
/// stone of `p`, together at least four long, contain a window of four.
proof fn lemma_runs_give_window(
    g: Seq<Option<Player>>,
    p: Player,
    y: int,
    x: int,
    dy: int,
    dx: int,
    a: int,
    b: int,
)
    requires
        is_win_dir(dy, dx),
        cell_is(g, p, y, x),
        a >= 0,
        b >= 0,
        a + b + 1 >= 4,
        forall|i: int| 1 <= i <= a ==> #[trigger] cell_is(g, p, y + i * dy, x + i * dx),
        forall|i: int| 1 <= i <= b ==> #[trigger] cell_is(g, p, y - i * dy, x - i * dx),
    ensures
        wins_through(g, p, y, x),
{
    let k: int = if b >= 3 {
        3
    } else {
        b
    };
    let sy = y - k * dy;
    let sx = x - k * dx;
    assert forall|i: int| 0 <= i < 4 implies #[trigger] cell_is(
        g,
        p,
        sy + i * dy,
        sx + i * dx,
    ) by {
        let o = i - k;
        assert(sy + i * dy == y + o * dy && sx + i * dx == x + o * dx) by (nonlinear_arith)
            requires
                sy == y - k * dy && sx == x - k * dx && o == i - k,
        ;
        if o == 0 {
            assert(y + 0 * dy == y && x + 0 * dx == x);
        } else if o < 0 {
            let j = -o;
            assert(1 <= j <= b);
            assert(y - j * dy == y + o * dy && x - j * dx == x + o * dx) by (nonlinear_arith)
                requires
                    j == -o,
            ;
            assert(cell_is(g, p, y - j * dy, x - j * dx));
        } else {
            assert(1 <= o <= a);
            assert(cell_is(g, p, y + o * dy, x + o * dx));
        }
    }
    assert(four_at(g, p, y - k * dy, x - k * dx, dy, dx));
}

/// A window of four stones of `p` through `(y, x)` cannot outrun the
/// maximal contiguous runs around `(y, x)`: the run bounds that end just
/// past a non-matching cell force the window inside the runs.
proof fn lemma_window_bounds_runs(
    g: Seq<Option<Player>>,
    p: Player,
    y: int,
    x: int,
    dy: int,
    dx: int,
    k: int,
    a: int,
    b: int,
)
    requires
        0 <= k < 4,
        four_at(g, p, y - k * dy, x - k * dx, dy, dx),
        a >= 0,
        b >= 0,
        !cell_is(g, p, y + (a + 1) * dy, x + (a + 1) * dx),
        !cell_is(g, p, y - (b + 1) * dy, x - (b + 1) * dx),
    ensures
        a >= 3 - k,
        b >= k,
{
    let sy = y - k * dy;
    let sx = x - k * dx;
    if a < 3 - k {
        let i = k + a + 1;
        assert(0 <= i < 4);
        assert(cell_is(g, p, sy + i * dy, sx + i * dx));
        assert(sy + i * dy == y + (a + 1) * dy && sx + i * dx == x + (a + 1) * dx)
            by (nonlinear_arith)
            requires
                sy == y - k * dy && sx == x - k * dx && i == k + a + 1,
        ;
    }
    if b < k {
        let i = k - (b + 1);
        assert(0 <= i < 4);
        assert(cell_is(g, p, sy + i * dy, sx + i * dx));
        assert(sy + i * dy == y - (b + 1) * dy && sx + i * dx == x - (b + 1) * dx)
            by (nonlinear_arith)
            requires
                sy == y - k * dy && sx == x - k * dx && i == k - (b + 1),
        ;
    }
}

/// The Connect Four board: the grid plus the cached game state.
pub struct GameBoard {
    cells: Vec<Option<Player>>,
    game_state: GameState,
}

impl GameBoard {
    /// The flat grid, row-major with row 0 at the bottom.
    pub closed spec fn grid(&self) -> Seq<Option<Player>> {
        self.cells@
    }

    /// The cached game state.
    pub closed spec fn state_spec(&self) -> GameState {
        self.game_state
    }

    /// Well-formedness: the grid obeys gravity and the cached state is
    /// faithful to it.
    pub open spec fn wf(&self) -> bool {
        &&& grid_wf(self.grid())
        &&& state_consistent(self.grid(), self.state_spec())
    }

    /// Creates an empty board with the game ongoing.
    pub fn new() -> (r: GameBoard)
        ensures
            r.wf(),
            r.grid() =~= Seq::new(42, |i: int| None::<Player>),
            r.state_spec() == GameState::Ongoing,
    {
        let mut cells: Vec<Option<Player>> = Vec::new();
        let mut i: usize = 0;
        while i < CELLS
            invariant
                i <= 42,
                cells@.len() == i,
                forall|j: int| 0 <= j < i ==> cells@[j] is None,
            decreases 42 - i,
        {
            cells.push(None);
            i = i + 1;
        }
        let r = GameBoard { cells, game_state: GameState::Ongoing };
        proof {
            assert forall|p: Player| !has_connect_four(r.grid(), p) by {
                assert forall|y: int, x: int, dy: int, dx: int|
                    is_win_dir(dy, dx) implies !four_at(r.grid(), p, y, x, dy, dx) by {
                    assert(y + 0 * dy == y && x + 0 * dx == x);
                    assert(!cell_is(r.grid(), p, y, x)) by {
                        if in_bounds(y, x) {
                            assert(0 <= idx(y, x) < 42) by (nonlinear_arith)
                                requires
                                    in_bounds(y, x),
                            ;
                        }
                    }
                }
            }
            assert(!col_full(r.grid(), 0));
        }
        r
    }

    /// Creates an empty board; same as `new`.
    pub fn default() -> (r: GameBoard)
        ensures
            r.wf(),
            r.grid() =~= Seq::new(42, |i: int| None::<Player>),
            r.state_spec() == GameState::Ongoing,
    {
        GameBoard::new()
    }

    /// Returns the cached game state.
    pub fn get_game_state(&self) -> (r: GameState)
        ensures
            r == self.state_spec(),
    {
        self.game_state
    }

    /// Returns the board's extents as `(rows, columns)`.
    pub fn get_dimensions(&self) -> (r: (usize, usize))
        requires
            grid_wf(self.grid()),
        ensures
            r.0 == 6usize && r.1 == 7usize,
            r.0 * r.1 == self.grid().len(),
    {
        proof {
            assert(6 * 7 == 42int);
        }
        (ROWS, COLS)
    }

    /// Returns the occupancy of a single cell.
    pub fn get_field(&self, coordinate: Coordinate) -> (r: Option<Player>)
        requires
            grid_wf(self.grid()),
            in_bounds(coordinate.y as int, coordinate.x as int),
        ensures
            r == self.grid()[idx(coordinate.y as int, coordinate.x as int)],
    {
        proof {
            assert(0 <= idx(coordinate.y as int, coordinate.x as int) < 42) by (nonlinear_arith)
                requires
                    in_bounds(coordinate.y as int, coordinate.x as int),
            ;
        }
        self.cells[coordinate.y * COLS + coordinate.x]
    }

    /// Whether no further stone can be placed: the top row is full, which
    /// under gravity means the whole board is.
    pub fn is_draw(&self) -> (r: bool)
        requires
            grid_wf(self.grid()),
        ensures
            r == board_full(self.grid()),
    {
        let mut x: usize = 0;
        while x < COLS
            invariant
                x <= 7,
                grid_wf(self.grid()),
                forall|c: int| 0 <= c < x ==> col_full(self.grid(), c),
            decreases 7 - x,
        {
            if self.cells[5 * COLS + x].is_none() {
                assert(!col_full(self.grid(), x as int));
                return false;
            }
            x = x + 1;
        }
        true
    }

    /// The legal moves: one per column whose top cell is empty, in
    /// ascending column order; empty when the board is full.
    pub fn get_possible_moves(&self) -> (r: Vec<GameMove>)
        requires
            grid_wf(self.grid()),
        ensures
            r@ == legal_moves_spec(self.grid()),
    {
        let ghost g = self.grid();
        let mut r: Vec<GameMove> = Vec::new();
        let mut x: usize = 0;
        while x < COLS
            invariant
                x <= 7,
                grid_wf(g),
                g == self.grid(),
                r@ + legal_from(g, x as int) == legal_moves_spec(g),
            decreases 7 - x,
        {
            if self.cells[5 * COLS + x].is_none() {
                let ghost r_old = r@;
                proof {
                    assert(!col_full(g, x as int));
                    assert(legal_from(g, x as int) == seq![GameMove { x }] + legal_from(
                        g,
                        x as int + 1,
                    ));
                }
                r.push(GameMove { x });
                proof {
                    assert(r@ + legal_from(g, x as int + 1) =~= r_old + legal_from(g, x as int));
                }
            } else {
                proof {
                    assert(col_full(g, x as int));
                    assert(legal_from(g, x as int) == legal_from(g, x as int + 1));
                }
            }
            x = x + 1;
        }
        proof {
            assert(legal_from(g, 7) == Seq::<GameMove>::empty());
            assert(r@ + Seq::<GameMove>::empty() =~= r@);
        }
        r
    }

    /// Counts the contiguous stones of `player` strictly beyond `start` in
    /// direction `d`, stopping at the first other cell or at the edge.
    fn count_run(&self, player: Player, start: Coordinate, d: Dir) -> (n: usize)
        requires
            grid_wf(self.grid()),
            in_bounds(start.y as int, start.x as int),
        ensures
            n <= 7,
            forall|i: int|
                1 <= i <= n ==> #[trigger] cell_is(
                    self.grid(),
                    player,
                    start.y + i * dir_dy(d),
                    start.x + i * dir_dx(d),
                ),
            !cell_is(
                self.grid(),
                player,
                start.y + (n + 1) * dir_dy(d),
                start.x + (n + 1) * dir_dx(d),
            ),
    {
        let ghost g = self.grid();
        let mut n: usize = 0;
        let mut cur = start;
        loop
            invariant
                grid_wf(g),
                g == self.grid(),
                in_bounds(cur.y as int, cur.x as int),
                in_bounds(start.y as int, start.x as int),
                cur.y as int == start.y + n * dir_dy(d),
                cur.x as int == start.x + n * dir_dx(d),
                n <= 7,
                forall|i: int|
                    1 <= i <= n ==> #[trigger] cell_is(
                        g,
                        player,
                        start.y + i * dir_dy(d),
                        start.x + i * dir_dx(d),
                    ),
            decreases run_measure(d, cur.y as int, cur.x as int),
        {
            proof {
                assert((n + 1) * dir_dy(d) == n * dir_dy(d) + dir_dy(d) && (n + 1) * dir_dx(d) == n
                    * dir_dx(d) + dir_dx(d)) by (nonlinear_arith);
            }
            match step(cur, d) {
                None => {
                    return n;
                },
                Some(nc) => {
                    proof {
                        lemma_idx_bounds(nc.y as int, nc.x as int);
                    }
                    let hit = match self.cells[nc.y * COLS + nc.x] {
                        Some(q) => q == player,
                        None => false,
                    };
                    if hit {
                        proof {
                            assert(cell_is(
                                g,
                                player,
                                start.y + (n + 1) * dir_dy(d),
                                start.x + (n + 1) * dir_dx(d),
                            ));
                            match d {
                                Dir::East | Dir::NorthEast | Dir::SouthEast => {
                                    assert((n + 1) * 1 == n + 1) by (nonlinear_arith);
                                    assert(n + 1 <= 7);
                                },
                                Dir::West | Dir::SouthWest | Dir::NorthWest => {
                                    assert((n + 1) * (-1) == -(n + 1)) by (nonlinear_arith);
                                    assert(n + 1 <= 7);
                                },
                                Dir::South => {
                                    assert((n + 1) * (-1) == -(n + 1)) by (nonlinear_arith);
                                    assert(n + 1 <= 7);
                                },
                            }
                        }
                        n = n + 1;
                        cur = nc;
                    } else {
                        return n;
                    }
                },
            }
        }
    }

    /// Whether the stone of `player` just placed at `coordinate` completes
    /// a line of four: true exactly when a line of four of `player`'s
    /// stones passes through `coordinate`. Walks outward from the placed
    /// stone in each direction; the vertical line is only walked downward,
    /// which the "nothing of the player above the placed stone" caller
    /// obligation justifies.
    pub fn check_win(&self, player: Player, coordinate: Coordinate) -> (r: bool)
        requires
            grid_wf(self.grid()),
            in_bounds(coordinate.y as int, coordinate.x as int),
            cell_is(self.grid(), player, coordinate.y as int, coordinate.x as int),
            !cell_is(self.grid(), player, coordinate.y + 1, coordinate.x as int),
        ensures
            r == wins_through(self.grid(), player, coordinate.y as int, coordinate.x as int),
    {
        let ghost g = self.grid();
        let ghost y = coordinate.y as int;
        let ghost x = coordinate.x as int;
        let east = self.count_run(player, coordinate, Dir::East);
        let west = self.count_run(player, coordinate, Dir::West);
        let ne = self.count_run(player, coordinate, Dir::NorthEast);
        let sw = self.count_run(player, coordinate, Dir::SouthWest);
        let nw = self.count_run(player, coordinate, Dir::NorthWest);
        let se = self.count_run(player, coordinate, Dir::SouthEast);
        let below = self.count_run(player, coordinate, Dir::South);
        let r = east + west + 1 >= 4 || ne + sw + 1 >= 4 || nw + se + 1 >= 4 || below + 1 >= 4;
        proof {
            lemma_run_flip(g, player, y, x, east as int, Dir::East, 0, 1);
            lemma_run_flip(g, player, y, x, west as int, Dir::West, 0, 1);
            lemma_run_flip(g, player, y, x, ne as int, Dir::NorthEast, 1, 1);
            lemma_run_flip(g, player, y, x, sw as int, Dir::SouthWest, 1, 1);
            lemma_run_flip(g, player, y, x, nw as int, Dir::NorthWest, 1, -1);
            lemma_run_flip(g, player, y, x, se as int, Dir::SouthEast, 1, -1);
            lemma_run_flip(g, player, y, x, below as int, Dir::South, 1, 0);
            assert(0 * 1 == 0 && 1 * 1 == 1) by (nonlinear_arith);
            if r {
                if east + west + 1 >= 4 {
                    lemma_runs_give_window(g, player, y, x, 0, 1, east as int, west as int);
                } else if ne + sw + 1 >= 4 {
                    lemma_runs_give_window(g, player, y, x, 1, 1, ne as int, sw as int);
                } else if nw + se + 1 >= 4 {
                    lemma_runs_give_window(g, player, y, x, 1, -1, nw as int, se as int);
                } else {
                    assert(!cell_is(g, player, y + 1 * 1, x + 1 * 0));
                    lemma_runs_give_window(g, player, y, x, 1, 0, 0, below as int);
                }
            }
            if wins_through(g, player, y, x) {
                let (k, dy, dx) = choose|k: int, dy: int, dx: int|
                    0 <= k < 4 && is_win_dir(dy, dx) && #[trigger] four_at(
                        g,
                        player,
                        y - k * dy,
                        x - k * dx,
                        dy,
                        dx,
                    );
                if dy == 0 && dx == 1 {
                    lemma_window_bounds_runs(g, player, y, x, 0, 1, k, east as int, west as int);
                } else if dy == 1 && dx == 1 {
                    lemma_window_bounds_runs(g, player, y, x, 1, 1, k, ne as int, sw as int);
                } else if dy == 1 && dx == -1 {
                    lemma_window_bounds_runs(g, player, y, x, 1, -1, k, nw as int, se as int);
                } else {
                    assert(!cell_is(g, player, y + 1 * 1, x + 1 * 0));
                    lemma_window_bounds_runs(g, player, y, x, 1, 0, k, 0, below as int);
                }
                assert(r);
            }
        }
        r
    }

    /// Drops a stone of `player` into the column named by `game_move`: the
    /// stone lands on the lowest empty cell, the cached state is updated,
    /// and whether the placement won the game for `player` is returned.
    /// Fails with `InvalidMove` exactly when the column is out of range or
    /// already full, leaving the board untouched.
    pub fn drop_stone(&mut self, player: Player, game_move: GameMove) -> (r: Result<
        bool,
        InvalidMove,
    >)
        requires
            old(self).wf(),
            old(self).state_spec() == GameState::Ongoing,
        ensures
            final(self).wf(),
            r is Err <==> (game_move.x >= 7 || col_full(old(self).grid(), game_move.x as int)),
            match r {
                Ok(won) => {
                    &&& final(self).grid() == grid_after(
                        old(self).grid(),
                        player,
                        game_move.x as int,
                    )
                    &&& final(self).state_spec() == state_after(
                        old(self).grid(),
                        player,
                        game_move.x as int,
                    )
                    &&& won == wins_through(
                        final(self).grid(),
                        player,
                        col_height(old(self).grid(), game_move.x as int) as int,
                        game_move.x as int,
                    )
                    &&& (won <==> final(self).state_spec() == GameState::GameResult(
                        GameResult::Win(player),
                    ))
                    &&& stone_count(final(self).grid()) == stone_count(old(self).grid()) + 1
                },
                Err(_) => {
                    &&& final(self).grid() == old(self).grid()
                    &&& final(self).state_spec() == old(self).state_spec()
                },
            },
    {
        if game_move.x >= COLS {
            return Err(InvalidMove);
        }
        let x = game_move.x;
        if self.cells[5 * COLS + x].is_some() {
            return Err(InvalidMove);
        }
        let ghost g = self.grid();
        proof {
            lemma_height_char(g, x as int);
            lemma_col_height_after(g, player, x as int);
        }
        let ghost h = col_height(g, x as int) as int;
        let mut y: usize = 0;
        while self.cells[y * COLS + x].is_some()
            invariant
                grid_wf(g),
                g == self.grid(),
                0 <= x < 7,
                y <= h <= 5,
                forall|z: int| 0 <= z < 6 ==> (g[idx(z, x as int)] is Some <==> z < h),
            decreases 6 - y,
        {
            proof {
                assert(g[idx(y as int, x as int)] is Some);
            }
            y = y + 1;
        }
        proof {
            assert(!(g[idx(y as int, x as int)] is Some));
            assert(y == h);
            lemma_idx_bounds(h, x as int);
        }
        self.cells[y * COLS + x] = Some(player);
        let ghost g2 = self.grid();
        proof {
            assert(g2 == grid_after(g, player, x as int));
            if in_bounds(h + 1, x as int) {
                if idx(h + 1, x as int) == idx(h, x as int) {
                    lemma_idx_injective(h + 1, x as int, h, x as int);
                }
                assert(g2[idx(h + 1, x as int)] == g[idx(h + 1, x as int)]);
                assert(!(h + 1 < h));
            }
            assert(!cell_is(g2, player, h + 1, x as int));
        }
        let won = self.check_win(player, Coordinate { y, x });
        if won {
            self.game_state = GameState::GameResult(GameResult::Win(player));
            proof {
                let (k, dy, dx) = choose|k: int, dy: int, dx: int|
                    0 <= k < 4 && is_win_dir(dy, dx) && #[trigger] four_at(
                        g2,
                        player,
                        h - k * dy,
                        x - k * dx,
                        dy,
                        dx,
                    );
                assert(has_connect_four(g2, player));
            }
        } else if self.is_draw() {
            self.game_state = GameState::GameResult(GameResult::Draw);
        } else {
            proof {
                lemma_no_new_four(g, player, Player::Player1, h, x as int);
                lemma_no_new_four(g, player, Player::Player2, h, x as int);
            }
        }
        Ok(won)
    }

    /// Plays the board out to the end: starting with `player` to move, a
    /// uniformly random legal move is applied and the mover alternates
    /// until the game is decided, and that outcome is returned. On a board
    /// whose game is already decided the cached outcome is returned
    /// unchanged. The board itself is not modified; the playout runs on a
    /// copy.
    pub fn random_simulation(&self, player: Player) -> (r: GameResult)
        requires
            self.wf(),
        ensures
            self.state_spec() matches GameState::GameResult(o) ==> r == o,
    {
        let mut current_player = player;
        let mut simulation_board = self.clone();
        loop
            invariant
                simulation_board.wf(),
                self.state_spec() matches GameState::GameResult(o) ==> simulation_board.state_spec()
                    == self.state_spec(),
            decreases 42 - stone_count(simulation_board.grid()),
        {
            proof {
                lemma_stone_count_bound(simulation_board.grid());
            }
            match simulation_board.get_game_state() {
                GameState::GameResult(outcome) => {
                    return outcome;
                },
                GameState::Ongoing => {
                    let moves = simulation_board.get_possible_moves();
                    proof {
                        lemma_legal_empty_iff_full(simulation_board.grid());
                    }
                    let pick = random_below(moves.len());
                    let target_position = moves[pick];
                    proof {
                        lemma_legal_from_char(simulation_board.grid(), 0);
                        assert(legal_moves_spec(simulation_board.grid()).contains(
                            moves@[pick as int],
                        ));
                        lemma_stone_count_missing(
                            simulation_board.grid(),
                            5,
                            target_position.x as int,
                        );
                    }
                    let applied = simulation_board.drop_stone(current_player, target_position);
                    proof {
                        assert(applied is Ok);
                    }
                    current_player = current_player.other();
                },
            }
        }
    }
}

/// Relies on `rand::thread_rng` and `rand::Rng::gen_range`: returns a
/// value drawn uniformly from `[0, n)`. `gen_range` panics only on an
/// empty range, which `n > 0` rules out; nothing else is assumed of the
/// drawn value.
#[verifier::external_body]
fn random_below(n: usize) -> (r: usize)
    requires
        n > 0,
    ensures
        r < n,
{
    rand::thread_rng().gen_range(0..n)
}

impl Clone for GameBoard {
    /// Copies the board: the copy has the same grid and cached state.
    fn clone(&self) -> (r: Self)
        ensures
            r.grid() == self.grid(),
            r.state_spec() == self.state_spec(),
    {
        let mut cells: Vec<Option<Player>> = Vec::new();
        let mut i: usize = 0;
        while i < self.cells.len()
            invariant
                i <= self.cells@.len(),
                cells@.len() == i,
                forall|j: int| 0 <= j < i ==> cells@[j] == self.cells@[j],
            decreases self.cells@.len() - i,
        {
            cells.push(self.cells[i]);
            i = i + 1;
        }
        proof {
            assert(cells@ =~= self.cells@);
        }
        GameBoard { cells, game_state: self.game_state }
    }
}

/// Restates the facts of a walked run in direction `d` in terms of the
/// canonical line direction `(dy, dx)` it belongs to, as a forward run
/// when the deltas agree and as a backward run when they are opposite.
proof fn lemma_run_flip(
    g: Seq<Option<Player>>,
    p: Player,
    y: int,
    x: int,
    n: int,
    d: Dir,
    dy: int,
    dx: int,
)
    requires
        n >= 0,
        forall|i: int|
            1 <= i <= n ==> #[trigger] cell_is(g, p, y + i * dir_dy(d), x + i * dir_dx(d)),
        !cell_is(g, p, y + (n + 1) * dir_dy(d), x + (n + 1) * dir_dx(d)),
        (dir_dy(d) == dy && dir_dx(d) == dx) || (dir_dy(d) == -dy && dir_dx(d) == -dx),
    ensures
        dir_dy(d) == dy && dir_dx(d) == dx ==> {
            &&& forall|i: int| 1 <= i <= n ==> #[trigger] cell_is(g, p, y + i * dy, x + i * dx)
            &&& !cell_is(g, p, y + (n + 1) * dy, x + (n + 1) * dx)
        },
        dir_dy(d) == -dy && dir_dx(d) == -dx ==> {
            &&& forall|i: int| 1 <= i <= n ==> #[trigger] cell_is(g, p, y - i * dy, x - i * dx)
            &&& !cell_is(g, p, y - (n + 1) * dy, x - (n + 1) * dx)
        },
{
    if dir_dy(d) == dy && dir_dx(d) == dx {
        assert forall|i: int| 1 <= i <= n implies #[trigger] cell_is(
            g,
            p,
            y + i * dy,
            x + i * dx,
        ) by {
            assert(cell_is(g, p, y + i * dir_dy(d), x + i * dir_dx(d)));
        }
    } else {
        assert forall|i: int| 1 <= i <= n implies #[trigger] cell_is(
            g,
            p,
            y - i * dy,
            x - i * dx,
        ) by {
            assert(i * dir_dy(d) == -(i * dy) && i * dir_dx(d) == -(i * dx)) by (nonlinear_arith)
                requires
                    dir_dy(d) == -dy && dir_dx(d) == -dx,
            ;
            assert(cell_is(g, p, y + i * dir_dy(d), x + i * dir_dx(d)));
        }
        assert((n + 1) * dir_dy(d) == -((n + 1) * dy) && (n + 1) * dir_dx(d) == -((n + 1) * dx))
            by (nonlinear_arith)
            requires
                dir_dy(d) == -dy && dir_dx(d) == -dx,
        ;
    }
}

} // verus!
