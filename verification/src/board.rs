//! The game board: a fixed 6-wide by 7-tall grid of cells, column-based
//! gravity insertion, and incremental four-in-a-line win detection anchored
//! at the cell each insert fills.
use vstd::prelude::*;
use vstd::string::StringExecFns;

verus! {

/// Number of columns of the grid.
pub const WIDTH: usize = 6;

/// Number of rows of the grid. Row `HEIGHT - 1` is the bottom row, the one a
/// piece dropped into an empty column lands on.
pub const HEIGHT: usize = 7;

/// One slot of the grid: unoccupied, or owned by one of the two players.
#[derive(Copy, Clone, PartialEq, Eq, Structural, Debug)]
pub enum Cell {
    Empty,
    Player1,
    Player2,
}

/// True when `(x, y)` addresses a cell of the grid.
pub open spec fn in_bounds(x: int, y: int) -> bool {
    0 <= x < WIDTH as int && 0 <= y < HEIGHT as int
}

/// Position of cell `(x, y)` in the row-major linear layout of the grid.
pub open spec fn cell_index(x: int, y: int) -> int {
    x + y * (WIDTH as int)
}

/// Number of cells of the grid.
pub open spec fn grid_size() -> int {
    (WIDTH as int) * (HEIGHT as int)
}

/// The cell of grid `g` at column `x`, row `y`.
pub open spec fn cell_at(g: Seq<Cell>, x: int, y: int) -> Cell {
    g[cell_index(x, y)]
}

/// True when column `x` has no empty cell left.
pub open spec fn col_full(g: Seq<Cell>, x: int) -> bool {
    forall|y: int| 0 <= y < HEIGHT as int ==> #[trigger] cell_at(g, x, y) != Cell::Empty
}

/// The largest row index `<= y` of column `x` holding an empty cell, or `-1`
/// if rows `0..=y` of the column are all occupied. Mirrors the insert scan,
/// which walks from the bottom row upward.
pub open spec fn drop_row_from(g: Seq<Cell>, x: int, y: int) -> int
    decreases y + 1,
{
    if y < 0 {
        -1
    } else if cell_at(g, x, y) == Cell::Empty {
        y
    } else {
        drop_row_from(g, x, y - 1)
    }
}

/// The row a piece inserted into column `x` lands on (the bottom-most empty
/// row of the column), or `-1` when the column is full.
pub open spec fn drop_row(g: Seq<Cell>, x: int) -> int {
    drop_row_from(g, x, HEIGHT as int - 1)
}

/// Gravity: every occupied cell rests on occupied cells all the way down to
/// the bottom of the grid, i.e. below an occupied cell there is no hole.
pub open spec fn gravity_ok(g: Seq<Cell>) -> bool {
    forall|x: int, y1: int, y2: int|
        #![trigger cell_at(g, x, y1), cell_at(g, x, y2)]
        in_bounds(x, y1) && in_bounds(x, y2) && y1 <= y2 && cell_at(g, x, y1) != Cell::Empty
            ==> cell_at(g, x, y2) != Cell::Empty
}

/// True when `(x, y)` lies on the grid and holds `c`.
pub open spec fn win_cell(g: Seq<Cell>, c: Cell, x: int, y: int) -> bool {
    in_bounds(x, y) && cell_at(g, x, y) == c
}

/// The four axes of alignment, each by its canonical step: horizontal,
/// vertical, the two diagonals.
pub open spec fn is_dir(dx: int, dy: int) -> bool {
    ||| (dx == 1 && dy == 0)
    ||| (dx == 0 && dy == 1)
    ||| (dx == 1 && dy == 1)
    ||| (dx == 1 && dy == -1)
}

/// Four contiguous cells owned by `c`, starting at `(x, y)` and stepping by
/// `(dx, dy)`.
pub open spec fn line_win(g: Seq<Cell>, c: Cell, x: int, y: int, dx: int, dy: int) -> bool {
    &&& win_cell(g, c, x, y)
    &&& win_cell(g, c, x + dx, y + dy)
    &&& win_cell(g, c, x + 2 * dx, y + 2 * dy)
    &&& win_cell(g, c, x + 3 * dx, y + 3 * dy)
}

/// True when `(x, y)` is one of the four cells of the line starting at
/// `(sx, sy)` with step `(dx, dy)`.
pub open spec fn on_line(x: int, y: int, sx: int, sy: int, dx: int, dy: int) -> bool {
    ||| (x == sx && y == sy)
    ||| (x == sx + dx && y == sy + dy)
    ||| (x == sx + 2 * dx && y == sy + 2 * dy)
    ||| (x == sx + 3 * dx && y == sy + 3 * dy)
}

/// A win through `(x, y)`: some line of four cells owned by `c`, along one of
/// the four axes, passes through `(x, y)`.
pub open spec fn has_win_at(g: Seq<Cell>, c: Cell, x: int, y: int) -> bool {
    exists|sx: int, sy: int, dx: int, dy: int|
        is_dir(dx, dy) && on_line(x, y, sx, sy, dx, dy) && #[trigger] line_win(g, c, sx, sy, dx, dy)
}

/// A win for `c` anywhere on the grid.
pub open spec fn has_win(g: Seq<Cell>, c: Cell) -> bool {
    exists|x: int, y: int| #[trigger] has_win_at(g, c, x, y)
}

/// How many contiguous cells owned by `c` follow `(x, y)` in direction
/// `(dx, dy)`, the cell at `(x, y)` itself not counted; `fuel` bounds the
/// scan and any value of at least the grid's larger dimension is exact.
pub open spec fn arm_len(g: Seq<Cell>, c: Cell, x: int, y: int, dx: int, dy: int, fuel: nat) -> nat
    decreases fuel,
{
    if fuel == 0 {
        0
    } else if win_cell(g, c, x + dx, y + dy) {
        1 + arm_len(g, c, x + dx, y + dy, dx, dy, (fuel - 1) as nat)
    } else {
        0
    }
}

/// The two characters a cell contributes to the rendered grid: its symbol
/// and a separating space.
pub open spec fn symbol_text(c: Cell) -> Seq<char> {
    match c {
        Cell::Empty => seq!['-', ' '],
        Cell::Player1 => seq!['X', ' '],
        Cell::Player2 => seq!['O', ' '],
    }
}

/// The text of the first `n` cells of row `y`.
pub open spec fn row_cells_text(g: Seq<Cell>, y: int, n: int) -> Seq<char>
    decreases n,
{
    if n <= 0 {
        Seq::empty()
    } else {
        row_cells_text(g, y, n - 1) + symbol_text(cell_at(g, n - 1, y))
    }
}

/// The text of the first `n` rows of the grid, one line per row.
pub open spec fn rows_text(g: Seq<Cell>, n: int) -> Seq<char>
    decreases n,
{
    if n <= 0 {
        Seq::empty()
    } else {
        rows_text(g, n - 1) + row_cells_text(g, n - 1, WIDTH as int) + seq!['\n']
    }
}

/// The header line of the rendered grid: the column indices.
pub open spec fn header_text() -> Seq<char> {
    seq!['0', ' ', '1', ' ', '2', ' ', '3', ' ', '4', ' ', '5', ' ', '\n']
}

/// The whole rendered grid: header, the rows top to bottom, a blank line.
pub open spec fn render_text(g: Seq<Cell>) -> Seq<char> {
    header_text() + rows_text(g, HEIGHT as int) + seq!['\n']
}

/// Distinct in-bounds coordinates occupy distinct slots of the linear layout.
proof fn lemma_cell_index_distinct(a: int, b: int, x: int, y: int)
    requires
        in_bounds(a, b),
        in_bounds(x, y),
        !(a == x && b == y),
    ensures
        cell_index(a, b) != cell_index(x, y),
{
}

proof fn lemma_drop_row_from_props(g: Seq<Cell>, x: int, y: int)
    requires
        -1 <= y,
    ensures
        -1 <= drop_row_from(g, x, y) <= y,
        drop_row_from(g, x, y) >= 0 ==> cell_at(g, x, drop_row_from(g, x, y)) == Cell::Empty,
        forall|z: int| drop_row_from(g, x, y) < z <= y ==> #[trigger] cell_at(g, x, z) != Cell::Empty,
    decreases y + 1,
{
    if y >= 0 && cell_at(g, x, y) != Cell::Empty {
        lemma_drop_row_from_props(g, x, y - 1);
    }
}

/// When the cells of column `x` strictly above row `t` and down to row `y`
/// are all occupied, the scan from row `y` gives the same row as the scan
/// from row `t`.
proof fn lemma_drop_row_from_skip(g: Seq<Cell>, x: int, y: int, t: int)
    requires
        -1 <= t <= y,
        forall|z: int| t < z <= y ==> #[trigger] cell_at(g, x, z) != Cell::Empty,
    ensures
        drop_row_from(g, x, y) == drop_row_from(g, x, t),
    decreases y - t,
{
    if y > t {
        lemma_drop_row_from_skip(g, x, y - 1, t);
    }
}

/// What the landing row of a column is: an empty cell, every row below it
/// occupied, and it is `-1` exactly when the column is full.
pub proof fn lemma_drop_row_props(g: Seq<Cell>, x: int)
    ensures
        -1 <= drop_row(g, x) <= HEIGHT as int - 1,
        drop_row(g, x) >= 0 ==> cell_at(g, x, drop_row(g, x)) == Cell::Empty,
        forall|y: int| drop_row(g, x) < y < HEIGHT as int ==> #[trigger] cell_at(g, x, y) != Cell::Empty,
        drop_row(g, x) == -1 <==> col_full(g, x),
{
    lemma_drop_row_from_props(g, x, HEIGHT as int - 1);
}

/// The first three steps of an arm, made explicit: the arm reaches length
/// `k <= 3` exactly when the first `k` cells outward are owned by `c`.
proof fn lemma_arm_three(g: Seq<Cell>, c: Cell, x: int, y: int, dx: int, dy: int)
    ensures
        arm_len(g, c, x, y, dx, dy, 7) >= 1 <==> win_cell(g, c, x + dx, y + dy),
        arm_len(g, c, x, y, dx, dy, 7) >= 2 <==> (win_cell(g, c, x + dx, y + dy) && win_cell(
            g,
            c,
            x + 2 * dx,
            y + 2 * dy,
        )),
        arm_len(g, c, x, y, dx, dy, 7) >= 3 <==> (win_cell(g, c, x + dx, y + dy) && win_cell(
            g,
            c,
            x + 2 * dx,
            y + 2 * dy,
        ) && win_cell(g, c, x + 3 * dx, y + 3 * dy)),
{
    if win_cell(g, c, x + dx, y + dy) {
        assert(arm_len(g, c, x, y, dx, dy, 7) == 1 + arm_len(g, c, x + dx, y + dy, dx, dy, 6));
        if win_cell(g, c, x + 2 * dx, y + 2 * dy) {
            assert(arm_len(g, c, x + dx, y + dy, dx, dy, 6) == 1 + arm_len(
                g,
                c,
                x + 2 * dx,
                y + 2 * dy,
                dx,
                dy,
                5,
            ));
            if win_cell(g, c, x + 3 * dx, y + 3 * dy) {
                assert(arm_len(g, c, x + 2 * dx, y + 2 * dy, dx, dy, 5) >= 1);
            } else {
                assert(arm_len(g, c, x + 2 * dx, y + 2 * dy, dx, dy, 5) == 0);
            }
        } else {
            assert(arm_len(g, c, x + dx, y + dy, dx, dy, 6) == 0);
        }
    } else {
        assert(arm_len(g, c, x, y, dx, dy, 7) == 0);
    }
}

/// A line of four cells owned by `c` through `(x, y)` makes the maximal run
/// through `(x, y)` along the line's axis at least four: the anchor plus the
/// two outward arms cover the whole line.
proof fn lemma_line_win_run(g: Seq<Cell>, c: Cell, sx: int, sy: int, dx: int, dy: int, x: int, y: int)
    requires
        line_win(g, c, sx, sy, dx, dy),
        on_line(x, y, sx, sy, dx, dy),
    ensures
        1 + arm_len(g, c, x, y, dx, dy, 7) + arm_len(g, c, x, y, -dx, -dy, 7) >= 4,
{
    lemma_arm_three(g, c, x, y, dx, dy);
    lemma_arm_three(g, c, x, y, -dx, -dy);
}

/// A run of at least four through `(x, y)` along direction `(dx, dy)`
/// contains a line of four cells through `(x, y)` with that step: the line
/// starts within the backward arm, at most three cells before the anchor.
proof fn lemma_run_window(g: Seq<Cell>, c: Cell, x: int, y: int, dx: int, dy: int)
    requires
        win_cell(g, c, x, y),
        1 + arm_len(g, c, x, y, dx, dy, 7) + arm_len(g, c, x, y, -dx, -dy, 7) >= 4,
    ensures
        exists|sx: int, sy: int|
            on_line(x, y, sx, sy, dx, dy) && #[trigger] line_win(g, c, sx, sy, dx, dy),
{
    lemma_arm_three(g, c, x, y, dx, dy);
    lemma_arm_three(g, c, x, y, -dx, -dy);
    let b = arm_len(g, c, x, y, -dx, -dy, 7);
    if b >= 3 {
        assert(on_line(x, y, x - 3 * dx, y - 3 * dy, dx, dy) && line_win(g, c, x - 3 * dx, y - 3 * dy, dx, dy));
    } else if b == 2 {
        assert(on_line(x, y, x - 2 * dx, y - 2 * dy, dx, dy) && line_win(g, c, x - 2 * dx, y - 2 * dy, dx, dy));
    } else if b == 1 {
        assert(on_line(x, y, x - dx, y - dy, dx, dy) && line_win(g, c, x - dx, y - dy, dx, dy));
    } else {
        assert(on_line(x, y, x, y, dx, dy) && line_win(g, c, x, y, dx, dy));
    }
}

/// Win law: four colinear cells owned by one player, along any of the four
/// axes, are a win through every cell of the line — so an insert that
/// completes such a line through the cell it fills ends the game with that
/// player as winner, by the insert contract, and an insert that completes no
/// such line leaves the game ongoing.
pub proof fn lemma_line_through_cell_wins(
    g: Seq<Cell>,
    c: Cell,
    sx: int,
    sy: int,
    dx: int,
    dy: int,
    x: int,
    y: int,
)
    requires
        is_dir(dx, dy),
        on_line(x, y, sx, sy, dx, dy),
        line_win(g, c, sx, sy, dx, dy),
    ensures
        has_win_at(g, c, x, y),
{
}

/// A win through `(x, y)` forces one of the four axis runs through `(x, y)`
/// to reach four.
proof fn lemma_win_at_axis(g: Seq<Cell>, c: Cell, x: int, y: int)
    requires
        has_win_at(g, c, x, y),
    ensures
        1 + arm_len(g, c, x, y, 1, 0, 7) + arm_len(g, c, x, y, -1, 0, 7) >= 4
            || 1 + arm_len(g, c, x, y, 0, 1, 7) + arm_len(g, c, x, y, 0, -1, 7) >= 4
            || 1 + arm_len(g, c, x, y, 1, 1, 7) + arm_len(g, c, x, y, -1, -1, 7) >= 4
            || 1 + arm_len(g, c, x, y, 1, -1, 7) + arm_len(g, c, x, y, -1, 1, 7) >= 4,
{
    let (sx, sy, dx, dy) = choose|sx: int, sy: int, dx: int, dy: int|
        is_dir(dx, dy) && on_line(x, y, sx, sy, dx, dy) && #[trigger] line_win(g, c, sx, sy, dx, dy);
    lemma_line_win_run(g, c, sx, sy, dx, dy, x, y);
}

impl Board {
    /// The grid as a sequence of cells, in the row-major linear layout.
    pub closed spec fn grid(self) -> Seq<Cell> {
        self.board@
    }

    /// True until a win has been detected.
    pub closed spec fn ongoing(self) -> bool {
        self.game_ongoing
    }

    /// The winning cell value, or `Cell::Empty` while no win was detected.
    pub closed spec fn winner(self) -> Cell {
        self.winner
    }

    /// Well-formedness: the grid has its fixed size, the game is ongoing
    /// exactly while there is no winner, a recorded winner really has four in
    /// a line on the grid, and the columns obey gravity.
    pub open spec fn wf(self) -> bool {
        &&& self.grid().len() == grid_size()
        &&& (self.ongoing() <==> self.winner() == Cell::Empty)
        &&& (self.winner() != Cell::Empty ==> has_win(self.grid(), self.winner()))
        &&& gravity_ok(self.grid())
    }
}

/// The board of the game: the grid, whether the game still runs, and the
/// winner once one is detected.
pub struct Board {
    board: Vec<Cell>,
    game_ongoing: bool,
    winner: Cell,
}

/// Dropping a piece onto the landing row of a column keeps the grid's
/// gravity: the piece rests on the previously occupied part of the column.
proof fn lemma_insert_keeps_gravity(g: Seq<Cell>, x: int, c: Cell)
    requires
        g.len() == grid_size(),
        0 <= x < WIDTH as int,
        gravity_ok(g),
        c != Cell::Empty,
        drop_row(g, x) >= 0,
    ensures
        gravity_ok(g.update(cell_index(x, drop_row(g, x)), c)),
{
    let r = drop_row(g, x);
    lemma_drop_row_props(g, x);
    let g2 = g.update(cell_index(x, r), c);
    assert forall|a: int, b1: int, b2: int|
        in_bounds(a, b1) && in_bounds(a, b2) && b1 <= b2 && cell_at(g2, a, b1) != Cell::Empty
            implies cell_at(g2, a, b2) != Cell::Empty by {
        if a == x && b2 == r {
            assert(cell_at(g2, a, b2) == c);
        } else {
            lemma_cell_index_distinct(a, b2, x, r);
            assert(cell_at(g2, a, b2) == cell_at(g, a, b2));
            if a == x && b1 == r {
                assert(cell_at(g, x, b2) != Cell::Empty);
            } else {
                lemma_cell_index_distinct(a, b1, x, r);
                assert(cell_at(g2, a, b1) == cell_at(g, a, b1));
                assert(cell_at(g, a, b2) != Cell::Empty);
            }
        }
    }
}

/// Gravity law, first half: a piece inserted into a column whose cells are
/// all empty lands on the bottom row.
pub proof fn lemma_empty_column_lands_bottom(g: Seq<Cell>, x: int)
    requires
        forall|y: int| 0 <= y < HEIGHT as int ==> #[trigger] cell_at(g, x, y) == Cell::Empty,
    ensures
        drop_row(g, x) == HEIGHT as int - 1,
{
    assert(cell_at(g, x, HEIGHT as int - 1) == Cell::Empty);
}

/// Gravity law, second half: after a piece lands on a column's landing row,
/// the column's next landing row is exactly one row higher, so repeated
/// inserts into one column land on strictly decreasing row indices until the
/// landing row reaches `-1`, the full column.
pub proof fn lemma_next_insert_lands_one_higher(g: Seq<Cell>, x: int, c: Cell)
    requires
        g.len() == grid_size(),
        0 <= x < WIDTH as int,
        gravity_ok(g),
        c != Cell::Empty,
        drop_row(g, x) >= 0,
    ensures
        drop_row(g.update(cell_index(x, drop_row(g, x)), c), x) == drop_row(g, x) - 1,
{
    let r = drop_row(g, x);
    lemma_drop_row_props(g, x);
    let g2 = g.update(cell_index(x, r), c);
    assert forall|z: int| r - 1 < z <= HEIGHT as int - 1 implies #[trigger] cell_at(g2, x, z) != Cell::Empty by {
        if z != r {
            lemma_cell_index_distinct(x, z, x, r);
            assert(cell_at(g2, x, z) == cell_at(g, x, z));
        }
    }
    lemma_drop_row_from_skip(g2, x, HEIGHT as int - 1, r - 1);
    if r - 1 >= 0 {
        // The cell just above the landing row was empty before the insert:
        // were it occupied, gravity would occupy the landing row too.
        assert(cell_at(g, x, r - 1) == Cell::Empty);
        lemma_cell_index_distinct(x, r - 1, x, r);
        assert(cell_at(g2, x, r - 1) == Cell::Empty);
    }
}

impl Board {
    /// A fresh board: every cell empty, game ongoing, no winner.
    pub fn new() -> (b: Board)
        ensures
            b.wf(),
            b.ongoing(),
            b.winner() == Cell::Empty,
            forall|x: int, y: int| in_bounds(x, y) ==> #[trigger] cell_at(b.grid(), x, y) == Cell::Empty,
    {
        let mut cells: Vec<Cell> = Vec::new();
        let mut i: usize = 0;
        while i < WIDTH * HEIGHT
            invariant
                i <= WIDTH * HEIGHT,
                cells@.len() == i,
                forall|j: int| 0 <= j < i ==> cells@[j] == Cell::Empty,
            decreases WIDTH * HEIGHT - i,
        {
            cells.push(Cell::Empty);
            i += 1;
        }
        Board { board: cells, game_ongoing: true, winner: Cell::Empty }
    }

    /// Whether the game still runs (no win detected yet).
    pub fn game_ongoing(&self) -> (r: bool)
        ensures
            r == self.ongoing(),
    {
        self.game_ongoing
    }

    /// The winner so far: `Cell::Empty` until a win is detected.
    pub fn get_winner(&self) -> (c: Cell)
        ensures
            c == self.winner(),
    {
        self.winner
    }

    /// The row a piece inserted into column `x` would land on, scanning the
    /// column from the bottom row upward; `HEIGHT` when the column is full.
    fn find_drop_row(&self, x: usize) -> (r: usize)
        requires
            self.wf(),
            x < WIDTH,
        ensures
            r <= HEIGHT,
            r < HEIGHT ==> r as int == drop_row(self.grid(), x as int),
            r == HEIGHT ==> drop_row(self.grid(), x as int) == -1,
    {
        let mut cur: usize = HEIGHT;
        while cur > 0
            invariant
                self.wf(),
                x < WIDTH,
                cur <= HEIGHT,
                drop_row(self.grid(), x as int) == drop_row_from(self.grid(), x as int, cur as int - 1),
            decreases cur,
        {
            cur -= 1;
            if self.board[x + cur * WIDTH] == Cell::Empty {
                return cur;
            }
        }
        HEIGHT
    }

    /// Counts the contiguous cells owned by `c` strictly outward of
    /// `(x, y)` in direction `(dx, dy)`, stopping at the first cell that is
    /// out of bounds or differs from `c`.
    fn count_arm(&self, c: Cell, x: usize, y: usize, dx: i32, dy: i32) -> (n: usize)
        requires
            self.wf(),
            x < WIDTH,
            y < HEIGHT,
            -1 <= dx as int <= 1,
            -1 <= dy as int <= 1,
            !(dx as int == 0 && dy as int == 0),
        ensures
            n == arm_len(self.grid(), c, x as int, y as int, dx as int, dy as int, 7),
            n <= 6,
    {
        let mut n: usize = 0;
        let mut cx: i32 = x as i32 + dx;
        let mut cy: i32 = y as i32 + dy;
        while 0 <= cx && cx < WIDTH as i32 && 0 <= cy && cy < HEIGHT as i32 && self.board[(cx
            as usize) + (cy as usize) * WIDTH] == c
            invariant
                self.wf(),
                x < WIDTH,
                y < HEIGHT,
                -1 <= dx as int <= 1,
                -1 <= dy as int <= 1,
                !(dx as int == 0 && dy as int == 0),
                n <= 6,
                -1 <= cx as int <= WIDTH as int,
                -1 <= cy as int <= HEIGHT as int,
                dx as int == 1 ==> cx as int == x as int + n as int + 1,
                dx as int == -1 ==> cx as int == x as int - n as int - 1,
                dx as int == 0 ==> cx as int == x as int,
                dy as int == 1 ==> cy as int == y as int + n as int + 1,
                dy as int == -1 ==> cy as int == y as int - n as int - 1,
                dy as int == 0 ==> cy as int == y as int,
                arm_len(self.grid(), c, x as int, y as int, dx as int, dy as int, 7) == n as int
                    + arm_len(
                    self.grid(),
                    c,
                    cx as int - dx as int,
                    cy as int - dy as int,
                    dx as int,
                    dy as int,
                    (7 - n) as nat,
                ),
            decreases 7 - n,
        {
            proof {
                assert(win_cell(self.grid(), c, cx as int, cy as int));
                assert(arm_len(
                    self.grid(),
                    c,
                    cx as int - dx as int,
                    cy as int - dy as int,
                    dx as int,
                    dy as int,
                    (7 - n) as nat,
                ) == 1 + arm_len(
                    self.grid(),
                    c,
                    cx as int,
                    cy as int,
                    dx as int,
                    dy as int,
                    (6 - n) as nat,
                ));
            }
            n += 1;
            cx += dx;
            cy += dy;
        }
        proof {
            assert(!win_cell(self.grid(), c, cx as int, cy as int));
            assert(arm_len(
                self.grid(),
                c,
                cx as int - dx as int,
                cy as int - dy as int,
                dx as int,
                dy as int,
                (7 - n) as nat,
            ) == 0);
        }
        n
    }

    /// The win scan run after a successful insert, anchored at the cell
    /// `(x, y)` the insert just filled: for each of the four axes it sums the
    /// anchor and the two outward runs, and on the first axis whose total
    /// reaches four it records the winner and stops the game. The grid itself
    /// is left untouched.
    fn check_if_winning_insert(&mut self, x: usize, y: usize, cell: Cell)
        requires
            old(self).wf(),
            old(self).ongoing(),
            x < WIDTH,
            y < HEIGHT,
            cell != Cell::Empty,
            cell_at(old(self).grid(), x as int, y as int) == cell,
        ensures
            final(self).wf(),
            final(self).grid() == old(self).grid(),
            final(self).ongoing() <==> !has_win_at(old(self).grid(), cell, x as int, y as int),
            final(self).winner() == (if has_win_at(old(self).grid(), cell, x as int, y as int) {
                cell
            } else {
                Cell::Empty
            }),
    {
        let ghost g = self.grid();
        let run_h = 1 + self.count_arm(cell, x, y, 1, 0) + self.count_arm(cell, x, y, -1, 0);
        if run_h >= 4 {
            proof {
                lemma_run_window(g, cell, x as int, y as int, 1, 0);
                assert(has_win_at(g, cell, x as int, y as int));
                assert(has_win(g, cell));
            }
            self.winner = cell;
            self.game_ongoing = false;
            return;
        }
        let run_v = 1 + self.count_arm(cell, x, y, 0, 1) + self.count_arm(cell, x, y, 0, -1);
        if run_v >= 4 {
            proof {
                lemma_run_window(g, cell, x as int, y as int, 0, 1);
                assert(has_win_at(g, cell, x as int, y as int));
                assert(has_win(g, cell));
            }
            self.winner = cell;
            self.game_ongoing = false;
            return;
        }
        let run_d1 = 1 + self.count_arm(cell, x, y, 1, 1) + self.count_arm(cell, x, y, -1, -1);
        if run_d1 >= 4 {
            proof {
                lemma_run_window(g, cell, x as int, y as int, 1, 1);
                assert(has_win_at(g, cell, x as int, y as int));
                assert(has_win(g, cell));
            }
            self.winner = cell;
            self.game_ongoing = false;
            return;
        }
        let run_d2 = 1 + self.count_arm(cell, x, y, 1, -1) + self.count_arm(cell, x, y, -1, 1);
        if run_d2 >= 4 {
            proof {
                lemma_run_window(g, cell, x as int, y as int, 1, -1);
                assert(has_win_at(g, cell, x as int, y as int));
                assert(has_win(g, cell));
            }
            self.winner = cell;
            self.game_ongoing = false;
            return;
        }
        proof {
            if has_win_at(g, cell, x as int, y as int) {
                lemma_win_at_axis(g, cell, x as int, y as int);
            }
        }
    }

    /// Inserts `cell` for one of the two players into column `x`: the piece
    /// falls to the bottom-most empty row of the column, and the win scan
    /// then runs anchored at the cell it filled. Returns true exactly when
    /// the placement happened; inserting `Cell::Empty`, a column index out
    /// of range, or into a full column fails and leaves the board untouched.
    /// The game must still be ongoing: once a win is detected the board is
    /// frozen, and callers stop inserting.
    pub fn insert(&mut self, cell: Cell, x: usize) -> (success: bool)
        requires
            old(self).wf(),
            old(self).ongoing(),
        ensures
            final(self).wf(),
            success == (cell != Cell::Empty && x < WIDTH && !col_full(old(self).grid(), x as int)),
            !success ==> final(self).grid() == old(self).grid() && final(self).ongoing()
                && final(self).winner() == Cell::Empty,
            success ==> final(self).grid() == old(self).grid().update(
                cell_index(x as int, drop_row(old(self).grid(), x as int)),
                cell,
            ),
            success ==> (final(self).ongoing() <==> !has_win_at(
                final(self).grid(),
                cell,
                x as int,
                drop_row(old(self).grid(), x as int),
            )),
            success ==> final(self).winner() == (if has_win_at(
                final(self).grid(),
                cell,
                x as int,
                drop_row(old(self).grid(), x as int),
            ) {
                cell
            } else {
                Cell::Empty
            }),
    {
        if cell == Cell::Empty {
            return false;
        }
        if x >= WIDTH {
            return false;
        }
        proof {
            lemma_drop_row_props(self.grid(), x as int);
        }
        let y = self.find_drop_row(x);
        if y == HEIGHT {
            return false;
        }
        let ghost g0 = self.grid();
        proof {
            lemma_insert_keeps_gravity(g0, x as int, cell);
        }
        self.board[x + y * WIDTH] = cell;
        self.check_if_winning_insert(x, y, cell);
        true
    }

    /// The human-readable dump of the grid: a header of column indices, then
    /// one line of cell symbols per row, top row first, and a closing blank
    /// line. Pure query; the text reflects the current grid exactly.
    pub fn render(&self) -> (s: String)
        requires
            self.wf(),
        ensures
            s@ == render_text(self.grid()),
    {
        let ghost g = self.grid();
        let mut s = String::new();
        s.append("0 1 2 3 4 5 \n");
        proof {
            reveal_strlit("0 1 2 3 4 5 \n");
            assert(s@ =~= header_text() + rows_text(g, 0));
        }
        let mut y: usize = 0;
        while y < HEIGHT
            invariant
                self.wf(),
                g == self.grid(),
                y <= HEIGHT,
                s@ == header_text() + rows_text(g, y as int),
            decreases HEIGHT - y,
        {
            let mut x: usize = 0;
            while x < WIDTH
                invariant
                    self.wf(),
                    g == self.grid(),
                    y < HEIGHT,
                    x <= WIDTH,
                    s@ == header_text() + rows_text(g, y as int) + row_cells_text(
                        g,
                        y as int,
                        x as int,
                    ),
                decreases WIDTH - x,
            {
                let ghost pre = s@;
                match self.board[x + y * WIDTH] {
                    Cell::Empty => s.append("- "),
                    Cell::Player1 => s.append("X "),
                    Cell::Player2 => s.append("O "),
                }
                proof {
                    reveal_strlit("- ");
                    reveal_strlit("X ");
                    reveal_strlit("O ");
                    assert(s@ =~= pre + symbol_text(cell_at(g, x as int, y as int)));
                    assert(s@ =~= header_text() + rows_text(g, y as int) + row_cells_text(
                        g,
                        y as int,
                        x as int + 1,
                    ));
                }
                x += 1;
            }
            s.append("\n");
            proof {
                reveal_strlit("\n");
                assert(s@ =~= header_text() + rows_text(g, y as int + 1));
            }
            y += 1;
        }
        s.append("\n");
        proof {
            reveal_strlit("\n");
            assert(s@ =~= render_text(g));
        }
        s
    }

    /// The cell at column `x`, row `y`.
    pub fn get_cell(&self, x: usize, y: usize) -> (c: Cell)
        requires
            self.wf(),
            x < WIDTH,
            y < HEIGHT,
        ensures
            c == cell_at(self.grid(), x as int, y as int),
    {
        self.board[x + y * WIDTH]
    }
}

} // verus!
