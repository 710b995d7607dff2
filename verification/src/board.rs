//! The game board: grid construction, mine placement with a guaranteed-safe
//! opening area, adjacency numbers, digging with flood-fill reveal, marking,
//! and win/loss detection.

use vstd::prelude::*;

use crate::cells::{Cell, CellValue, GameResult};
use crate::counting::{
    count_matching, lemma_count_agree, lemma_count_all, lemma_count_bounds, lemma_count_positive,
    lemma_count_update, lemma_count_zero_iff,
};
use crate::input::arguments::Parameters;
use crate::random::RandomSource;

verus! {

/// A pair (row, column) addressing one cell of the grid.
pub type Coordinate = (u8, u8);

/// The grid is stored row-major in one flat sequence; this is the position of
/// a coordinate in it.
pub open spec fn flat_index(columns: int, rc: Coordinate) -> int {
    rc.0 * columns + rc.1
}

/// Whether a coordinate addresses a cell of a grid with the given dimensions.
pub open spec fn coord_in_bounds(rc: Coordinate, rows: int, columns: int) -> bool {
    (rc.0 as int) < rows && (rc.1 as int) < columns
}

/// The cell a coordinate addresses.
pub open spec fn cell_at(g: Seq<Cell>, columns: int, rc: Coordinate) -> Cell {
    g[flat_index(columns, rc)]
}

/// Whether two coordinates are among each other's eight neighbors.
pub open spec fn adjacent(a: Coordinate, b: Coordinate) -> bool {
    &&& -1 <= a.0 - b.0 <= 1
    &&& -1 <= a.1 - b.1 <= 1
    &&& a != b
}

pub open spec fn b2i(b: bool) -> int {
    if b {
        1
    } else {
        0
    }
}

/// Whether row `r`, column `c` lies on the grid and holds a mine. The signed
/// arguments let the adjacency count probe past the edges, where it is false.
pub open spec fn mine_at(g: Seq<Cell>, rows: int, columns: int, r: int, c: int) -> bool {
    0 <= r < rows && 0 <= c < columns && g[r * columns + c].value is Mine
}

/// The number of mines among the up to eight in-bounds neighbors of `rc`.
pub open spec fn adj_mines(g: Seq<Cell>, rows: int, columns: int, rc: Coordinate) -> int {
    let r = rc.0 as int;
    let c = rc.1 as int;
    b2i(mine_at(g, rows, columns, r - 1, c - 1)) + b2i(mine_at(g, rows, columns, r - 1, c)) + b2i(
        mine_at(g, rows, columns, r - 1, c + 1),
    ) + b2i(mine_at(g, rows, columns, r, c - 1)) + b2i(mine_at(g, rows, columns, r, c + 1)) + b2i(
        mine_at(g, rows, columns, r + 1, c - 1),
    ) + b2i(mine_at(g, rows, columns, r + 1, c)) + b2i(mine_at(g, rows, columns, r + 1, c + 1))
}

/// A non-mine cell carries the number of adjacent mines: `Empty` when there
/// are none, `Number(n)` otherwise.
pub open spec fn value_matches_adjacency(g: Seq<Cell>, rows: int, columns: int, rc: Coordinate) -> bool {
    !(cell_at(g, columns, rc).value is Mine) ==> cell_at(g, columns, rc).value == (if adj_mines(
        g,
        rows,
        columns,
        rc,
    ) == 0 {
        CellValue::Empty
    } else {
        CellValue::Number(adj_mines(g, rows, columns, rc) as u8)
    })
}

pub open spec fn safe_undug_pred() -> spec_fn(Cell) -> bool {
    |c: Cell| c.is_safe_undug()
}

pub open spec fn mine_pred() -> spec_fn(Cell) -> bool {
    |c: Cell| c.value is Mine
}

/// The number of cells that are neither mines nor dug yet: the cells the
/// player still has to dig to win.
pub open spec fn count_safe_undug(g: Seq<Cell>) -> int {
    count_matching(g, safe_undug_pred())
}

/// The number of mines on the grid.
pub open spec fn count_mines(g: Seq<Cell>) -> int {
    count_matching(g, mine_pred())
}

/// A coordinate the flood fill may dig: on the grid, not a mine, and not dug
/// already.
pub open spec fn diggable(g: Seq<Cell>, rows: int, columns: int, rc: Coordinate) -> bool {
    &&& coord_in_bounds(rc, rows, columns)
    &&& !cell_at(g, columns, rc).dug
    &&& !(cell_at(g, columns, rc).value is Mine)
}

/// A chain of coordinates a flood fill follows: every link is diggable, and
/// every link but the last is `Empty`, since numbers stop the propagation.
pub open spec fn is_reveal_path(g: Seq<Cell>, rows: int, columns: int, p: Seq<Coordinate>) -> bool {
    &&& p.len() >= 1
    &&& forall|i: int| 0 <= i < p.len() ==> diggable(g, rows, columns, #[trigger] p[i])
    &&& forall|i: int|
        0 <= i < p.len() - 1 ==> (cell_at(g, columns, #[trigger] p[i]).value is Empty && adjacent(
            p[i],
            p[i + 1],
        ))
}

/// Whether a flood fill started at `start` reveals `target`: the reachability
/// closure of 8-adjacent `Empty` cells, plus the bordering `Number` cells.
pub open spec fn reveals(
    g: Seq<Cell>,
    rows: int,
    columns: int,
    start: Coordinate,
    target: Coordinate,
) -> bool {
    exists|p: Seq<Coordinate>|
        #[trigger] is_reveal_path(g, rows, columns, p) && p.first() == start && p.last() == target
}

/// The grid with every mine cell marked, as the board leaves it after a win.
pub open spec fn with_mines_marked(g: Seq<Cell>) -> Seq<Cell> {
    g.map_values(
        |c: Cell|
            if c.value is Mine {
                Cell { dug: c.dug, marked: true, value: c.value }
            } else {
                c
            },
    )
}

/// The grid after marking (or unmarking) the cell at `rc`: unchanged when the
/// cell is dug, otherwise that cell's mark flag is set to `marked`.
pub open spec fn with_mark(g: Seq<Cell>, columns: int, rc: Coordinate, marked: bool) -> Seq<Cell> {
    if cell_at(g, columns, rc).dug {
        g
    } else {
        g.update(
            flat_index(columns, rc),
            Cell {
                dug: cell_at(g, columns, rc).dug,
                marked: marked,
                value: cell_at(g, columns, rc).value,
            },
        )
    }
}

/// A coordinate on the grid addresses a position inside the flat sequence.
pub proof fn lemma_flat_index_bound(rows: int, columns: int, rc: Coordinate)
    requires
        coord_in_bounds(rc, rows, columns),
    ensures
        0 <= flat_index(columns, rc) < rows * columns,
{
    assert(rc.0 * columns + rc.1 < rows * columns) by (nonlinear_arith)
        requires
            0 <= rc.0 < rows,
            0 <= rc.1 < columns,
    ;
}

/// A grid whose dimensions fit in `u8` holds at most 255 * 255 cells.
pub proof fn lemma_grid_size_bound(rows: int, columns: int)
    requires
        0 <= rows <= 255,
        0 <= columns <= 255,
    ensures
        rows * columns <= 255 * 255,
{
    assert(rows * columns <= 255 * 255) by (nonlinear_arith)
        requires
            0 <= rows <= 255,
            0 <= columns <= 255,
    ;
}

/// Distinct in-bounds coordinates address distinct positions.
pub proof fn lemma_flat_index_injective(columns: int, a: Coordinate, b: Coordinate)
    requires
        a.1 < columns,
        b.1 < columns,
        flat_index(columns, a) == flat_index(columns, b),
    ensures
        a == b,
{
    assert(a.0 == b.0 && a.1 == b.1) by (nonlinear_arith)
        requires
            0 <= a.1 < columns,
            0 <= b.1 < columns,
            0 <= a.0,
            0 <= b.0,
            a.0 * columns + a.1 == b.0 * columns + b.1,
    ;
}

/// The grid with every cell undug and unmarked, keeping the values: the state
/// a freshly built layout is in before the opening flood fill digs into it.
pub open spec fn with_flags_cleared(g: Seq<Cell>) -> Seq<Cell> {
    g.map_values(|c: Cell| Cell { dug: false, marked: false, value: c.value })
}

/// A cell position written with signed row and column lies inside the flat
/// sequence whenever both are on the grid.
pub proof fn lemma_cell_pos_bound(rows: int, columns: int, r: int, c: int)
    requires
        0 <= r < rows,
        0 <= c < columns,
    ensures
        0 <= r * columns + c < rows * columns,
{
    assert(r * columns + c < rows * columns) by (nonlinear_arith)
        requires
            0 <= r < rows,
            0 <= c < columns,
    ;
}

/// Two grids with mines in the same places have the same adjacency counts.
proof fn lemma_adj_mines_agree(g1: Seq<Cell>, g2: Seq<Cell>, rows: int, columns: int, rc: Coordinate)
    requires
        g1.len() == rows * columns,
        g2.len() == rows * columns,
        forall|i: int| 0 <= i < g1.len() ==> ((#[trigger] g1[i].value is Mine) <==> g2[i].value is Mine),
    ensures
        adj_mines(g1, rows, columns, rc) == adj_mines(g2, rows, columns, rc),
{
    assert forall|r: int, c: int|
        #![trigger mine_at(g1, rows, columns, r, c)]
        true implies mine_at(g1, rows, columns, r, c) == mine_at(g2, rows, columns, r, c) by {
        if 0 <= r < rows && 0 <= c < columns {
            lemma_cell_pos_bound(rows, columns, r, c);
        }
    }
}

/// Every position of the flat sequence is addressed by exactly one in-bounds
/// coordinate, recovered by division and remainder.
proof fn lemma_index_to_coord(rows: int, columns: int, i: int)
    requires
        0 < columns,
        rows <= 255,
        columns <= 255,
        0 <= i < rows * columns,
    ensures
        0 <= i / columns < rows,
        0 <= i % columns < columns,
        coord_in_bounds((((i / columns) as u8), ((i % columns) as u8)), rows, columns),
        flat_index(columns, (((i / columns) as u8), ((i % columns) as u8))) == i,
{
    assert(0 <= i / columns && 0 <= i % columns < columns && i / columns < rows && (i / columns)
        * columns + i % columns == i) by (nonlinear_arith)
        requires
            0 < columns,
            0 <= i < rows * columns,
    ;
}

/// Whether the flag for a coordinate is set, in a row-major flag vector that
/// runs parallel to the grid.
pub open spec fn flag_at(flags: Seq<bool>, columns: int, rc: Coordinate) -> bool {
    flags[flat_index(columns, rc)]
}

pub open spec fn unset_pred() -> spec_fn(bool) -> bool {
    |b: bool| !b
}

/// A row-major vector of `n` cleared flags.
fn new_flags(n: usize) -> (flags: Vec<bool>)
    ensures
        flags@.len() == n,
        forall|i: int| 0 <= i < n ==> !flags@[i],
{
    let mut flags: Vec<bool> = Vec::new();
    let mut i: usize = 0;
    while i < n
        invariant
            i <= n,
            flags@.len() == i,
            forall|j: int| 0 <= j < i ==> !flags@[j],
        decreases n - i,
    {
        flags.push(false);
        i = i + 1;
    }
    flags
}

/// Append `(r, c)` to `ring` when it lies on a grid with the given
/// dimensions; the signed arguments admit the coordinates just past an edge.
fn push_if_in_bounds(ring: &mut Vec<Coordinate>, rows: u8, columns: u8, r: i16, c: i16)
    ensures
        forall|y: Coordinate|
            final(ring)@.contains(y) <==> (old(ring)@.contains(y) || (0 <= r < rows && 0 <= c
                < columns && y == ((r as u8), (c as u8)))),
{
    if 0 <= r && r < rows as i16 && 0 <= c && c < columns as i16 {
        let rc = ((r as u8), (c as u8));
        ring.push(rc);
        proof {
            broadcast use vstd::seq_lib::lemma_seq_contains_after_push;

            assert(forall|y: Coordinate| ring@.contains(y) <==> (old(ring)@.contains(y) || y
                == rc));
        }
    }
}

/// Facts the grid proofs need about one or two in-bounds coordinates: their
/// flat positions lie inside the grid, and distinct coordinates have distinct
/// positions.
proof fn lemma_coord_index_facts(rows: int, columns: int, a: Coordinate, b: Coordinate)
    requires
        coord_in_bounds(a, rows, columns),
        coord_in_bounds(b, rows, columns),
    ensures
        0 <= flat_index(columns, a) < rows * columns,
        0 <= flat_index(columns, b) < rows * columns,
        a != b ==> flat_index(columns, a) != flat_index(columns, b),
{
    lemma_flat_index_bound(rows, columns, a);
    lemma_flat_index_bound(rows, columns, b);
    if flat_index(columns, a) == flat_index(columns, b) {
        lemma_flat_index_injective(columns, a, b);
    }
}

/// Popping the last element of a duplicate-free sequence removes exactly that
/// element from what the sequence contains.
proof fn lemma_contains_after_pop<A>(s: Seq<A>)
    requires
        s.len() > 0,
        forall|k1: int, k2: int| 0 <= k1 < k2 < s.len() ==> s[k1] != s[k2],
    ensures
        forall|y: A|
            #[trigger] s.subrange(0, s.len() - 1).contains(y) <==> (s.contains(y) && y != s[s.len()
                - 1]),
{
    let t = s.subrange(0, s.len() - 1);
    assert forall|y: A| #[trigger] t.contains(y) implies (s.contains(y) && y != s[s.len()
        - 1]) by {
        let k = choose|k: int| 0 <= k < t.len() && t[k] == y;
        assert(s[k] == y);
    }
    assert forall|y: A| s.contains(y) && y != s[s.len() - 1] implies #[trigger] t.contains(y) by {
        let k = choose|k: int| 0 <= k < s.len() && s[k] == y;
        assert(k < s.len() - 1);
        assert(t[k] == y);
    }
}

/// A cell that may be dug is revealed by a flood fill starting at itself.
proof fn lemma_reveals_self(g: Seq<Cell>, rows: int, columns: int, rc: Coordinate)
    requires
        diggable(g, rows, columns, rc),
    ensures
        reveals(g, rows, columns, rc, rc),
{
    let p = seq![rc];
    assert(is_reveal_path(g, rows, columns, p));
    assert(p.first() == rc && p.last() == rc);
}

/// A flood fill that reveals an `Empty` cell also reveals every diggable
/// neighbor of that cell.
proof fn lemma_reveals_step(
    g: Seq<Cell>,
    rows: int,
    columns: int,
    start: Coordinate,
    x: Coordinate,
    y: Coordinate,
)
    requires
        reveals(g, rows, columns, start, x),
        cell_at(g, columns, x).value is Empty,
        diggable(g, rows, columns, y),
        adjacent(x, y),
    ensures
        reveals(g, rows, columns, start, y),
{
    let p = choose|p: Seq<Coordinate>|
        #[trigger] is_reveal_path(g, rows, columns, p) && p.first() == start && p.last() == x;
    let q = p.push(y);
    assert(forall|i: int| 0 <= i < p.len() ==> q[i] == p[i]);
    assert(q[q.len() - 1] == y);
    assert(is_reveal_path(g, rows, columns, q));
    assert(q.first() == start && q.last() == y);
}

/// Whatever holds at a path's start and propagates from each `Empty` cell to
/// its diggable neighbors holds at the path's end.
proof fn lemma_path_endpoint_covered(
    g: Seq<Cell>,
    rows: int,
    columns: int,
    s: spec_fn(Coordinate) -> bool,
    p: Seq<Coordinate>,
)
    requires
        is_reveal_path(g, rows, columns, p),
        s(p.first()),
        forall|x: Coordinate, y: Coordinate|
            #![trigger s(x), s(y)]
            s(x) && diggable(g, rows, columns, x) && cell_at(g, columns, x).value is Empty
                && adjacent(x, y) && diggable(g, rows, columns, y) ==> s(y),
    ensures
        s(p.last()),
    decreases p.len(),
{
    if p.len() > 1 {
        assert(cell_at(g, columns, p[0]).value is Empty && adjacent(p[0], p[1]));
        assert(s(p[1]));
        let q = p.subrange(1, p.len() as int);
        assert(forall|i: int| 0 <= i < q.len() ==> q[i] == p[i + 1]);
        assert(is_reveal_path(g, rows, columns, q));
        lemma_path_endpoint_covered(g, rows, columns, s, q);
        assert(q.last() == p.last());
    }
}

/// Whatever holds at `start` and propagates from each `Empty` cell to its
/// diggable neighbors holds at every cell the flood fill reveals.
proof fn lemma_reveals_covered(
    g: Seq<Cell>,
    rows: int,
    columns: int,
    start: Coordinate,
    target: Coordinate,
    s: spec_fn(Coordinate) -> bool,
)
    requires
        reveals(g, rows, columns, start, target),
        s(start),
        forall|x: Coordinate, y: Coordinate|
            #![trigger s(x), s(y)]
            s(x) && diggable(g, rows, columns, x) && cell_at(g, columns, x).value is Empty
                && adjacent(x, y) && diggable(g, rows, columns, y) ==> s(y),
    ensures
        s(target),
{
    let p = choose|p: Seq<Coordinate>|
        #[trigger] is_reveal_path(g, rows, columns, p) && p.first() == start && p.last() == target;
    lemma_path_endpoint_covered(g, rows, columns, s, p);
}

/// A revealed cell is one the flood fill may dig.
proof fn lemma_reveals_diggable(
    g: Seq<Cell>,
    rows: int,
    columns: int,
    start: Coordinate,
    target: Coordinate,
)
    requires
        reveals(g, rows, columns, start, target),
    ensures
        diggable(g, rows, columns, target),
        diggable(g, rows, columns, start),
{
    let p = choose|p: Seq<Coordinate>|
        #[trigger] is_reveal_path(g, rows, columns, p) && p.first() == start && p.last() == target;
    assert(diggable(g, rows, columns, p[0]));
    assert(diggable(g, rows, columns, p[p.len() - 1]));
}

/// Digging one undug non-mine cell lowers the number of remaining safe cells
/// by exactly one.
pub proof fn lemma_dig_decrements_count(g: Seq<Cell>, i: int)
    requires
        0 <= i < g.len(),
        !g[i].dug,
        !(g[i].value is Mine),
    ensures
        count_safe_undug(g.update(i, Cell { dug: true, marked: false, value: g[i].value }))
            == count_safe_undug(g) - 1,
{
    lemma_count_update(
        g,
        safe_undug_pred(),
        i,
        Cell { dug: true, marked: false, value: g[i].value },
    );
}

/// An undug cell that is not a mine — one the player has marked and the dig
/// play therefore refuses, for instance — keeps the number of remaining safe
/// cells positive: the win condition cannot hold while such a cell exists.
pub proof fn lemma_undug_safe_cell_blocks_win(g: Seq<Cell>, columns: int, rc: Coordinate)
    requires
        0 <= flat_index(columns, rc) < g.len(),
        !cell_at(g, columns, rc).dug,
        !(cell_at(g, columns, rc).value is Mine),
    ensures
        count_safe_undug(g) >= 1,
{
    lemma_count_positive(g, safe_undug_pred(), flat_index(columns, rc));
}

/// Marking and then unmarking a cell restores the whole grid, provided the
/// cell did not already carry a mark (marking a dug cell is a no-op, so dug
/// cells are restored regardless).
pub proof fn lemma_mark_then_unmark_restores(g: Seq<Cell>, columns: int, rc: Coordinate)
    requires
        0 <= flat_index(columns, rc) < g.len(),
        cell_at(g, columns, rc).dug || !cell_at(g, columns, rc).marked,
    ensures
        with_mark(with_mark(g, columns, rc, true), columns, rc, false) == g,
{
    if !cell_at(g, columns, rc).dug {
        assert(with_mark(with_mark(g, columns, rc, true), columns, rc, false) =~= g);
    }
}

/// How many cells the safe opening area tries to reach, when the board has
/// room for them beside the mines.
pub const SAFE_AREA_TARGET: u16 = 40;

/// The cap on the random growth steps of the safe opening area. The walk can
/// stall near edges and corners, so the number of attempts is bounded to
/// guarantee termination; the area simply stays smaller when the cap strikes.
pub const SAFE_AREA_GROWTH_TRIES: u32 = 16384;

/// Contains all the game data.
pub struct Board {
    /// Number of rows of the board.
    rows: u8,
    /// Number of columns of the board.
    columns: u8,
    /// Number of mines on the board.
    mines_count: u8,
    /// Cells that remain to dig; the game is won when this reaches zero.
    cells_to_dig: u16,
    /// The coordinate of the mine the player dug, once the game is lost.
    deadly_mine: Option<Coordinate>,
    /// The cells of the board, row-major.
    cells: Vec<Cell>,
}

impl Board {
    /// The cells of the board, row-major.
    pub closed spec fn grid(self) -> Seq<Cell> {
        self.cells@
    }

    pub closed spec fn spec_rows(self) -> int {
        self.rows as int
    }

    pub closed spec fn spec_columns(self) -> int {
        self.columns as int
    }

    pub closed spec fn spec_mines_count(self) -> int {
        self.mines_count as int
    }

    /// How many cells remain to dig.
    pub closed spec fn spec_remaining(self) -> int {
        self.cells_to_dig as int
    }

    pub closed spec fn spec_losing_mine(self) -> Option<Coordinate> {
        self.deadly_mine
    }

    pub open spec fn in_bounds(self, rc: Coordinate) -> bool {
        coord_in_bounds(rc, self.spec_rows(), self.spec_columns())
    }

    /// The cell at a coordinate.
    pub open spec fn cell_spec(self, rc: Coordinate) -> Cell {
        cell_at(self.grid(), self.spec_columns(), rc)
    }

    /// The invariant every operation preserves: the grid has its full size,
    /// the mines fit strictly within it, and the remaining-cell counter
    /// agrees with the cells.
    pub open spec fn wf(self) -> bool {
        &&& self.grid().len() == self.spec_rows() * self.spec_columns()
        &&& self.spec_mines_count() < self.spec_rows() * self.spec_columns()
        &&& self.spec_remaining() == count_safe_undug(self.grid())
    }

    /// A board as `new` returns it, before any mine is placed.
    pub open spec fn is_fresh(self) -> bool {
        forall|i: int| 0 <= i < self.grid().len() ==> self.grid()[i].is_fresh()
    }

    /// Constructor: fills the board with undug, unmarked, `Empty` cells.
    pub fn new(params: &Parameters) -> (board: Board)
        requires
            params.spec_mines() < params.spec_rows() * params.spec_columns(),
        ensures
            board.wf(),
            board.is_fresh(),
            board.spec_rows() == params.spec_rows(),
            board.spec_columns() == params.spec_columns(),
            board.spec_mines_count() == params.spec_mines(),
            board.spec_remaining() == params.spec_rows() * params.spec_columns(),
            board.spec_losing_mine() is None,
    {
        proof {
            lemma_grid_size_bound(params.spec_rows() as int, params.spec_columns() as int);
        }
        let total: u16 = params.rows() as u16 * params.columns() as u16;
        let mut cells: Vec<Cell> = Vec::new();
        let mut i: usize = 0;
        while i < total as usize
            invariant
                i <= total,
                cells@.len() == i,
                forall|j: int| 0 <= j < i ==> cells@[j].is_fresh(),
            decreases total - i,
        {
            cells.push(Cell { dug: false, marked: false, value: CellValue::Empty });
            i = i + 1;
        }
        proof {
            assert(forall|j: int| 0 <= j < cells@.len() ==> safe_undug_pred()(cells@[j]));
            lemma_count_all(cells@, safe_undug_pred());
        }
        Board {
            rows: params.rows(),
            columns: params.columns(),
            mines_count: params.mines(),
            cells_to_dig: total,
            deadly_mine: None,
            cells,
        }
    }

    /// The position of an in-bounds coordinate in the flat cell vector.
    fn cell_index(&self, rc: Coordinate) -> (i: usize)
        requires
            self.wf(),
            self.in_bounds(rc),
        ensures
            i == flat_index(self.spec_columns(), rc),
            i < self.grid().len(),
    {
        proof {
            lemma_flat_index_bound(self.spec_rows(), self.spec_columns(), rc);
            lemma_grid_size_bound(self.spec_rows(), self.spec_columns());
        }
        (rc.0 as usize) * (self.columns as usize) + (rc.1 as usize)
    }

    /// Store `cell` at an in-bounds coordinate. The remaining-cell counter is
    /// the caller's business: it adjusts it to whatever the new grid counts.
    fn set_cell(&mut self, rc: Coordinate, cell: Cell)
        requires
            old(self).wf(),
            old(self).in_bounds(rc),
        ensures
            final(self).grid() == old(self).grid().update(
                flat_index(old(self).spec_columns(), rc),
                cell,
            ),
            final(self).spec_rows() == old(self).spec_rows(),
            final(self).spec_columns() == old(self).spec_columns(),
            final(self).spec_mines_count() == old(self).spec_mines_count(),
            final(self).spec_remaining() == old(self).spec_remaining(),
            final(self).spec_losing_mine() == old(self).spec_losing_mine(),
    {
        let i = self.cell_index(rc);
        self.cells[i] = cell;
    }

    /// All in-bounds neighbors of a cell: the up-to-eight cells around it.
    fn generate_ring(&self, rc: Coordinate) -> (ring: Vec<Coordinate>)
        requires
            self.wf(),
            self.in_bounds(rc),
        ensures
            forall|y: Coordinate|
                #[trigger] ring@.contains(y) <==> (self.in_bounds(y) && adjacent(rc, y)),
    {
        let mut ring: Vec<Coordinate> = Vec::new();
        let r = rc.0 as i16;
        let c = rc.1 as i16;
        push_if_in_bounds(&mut ring, self.rows, self.columns, r - 1, c - 1);
        push_if_in_bounds(&mut ring, self.rows, self.columns, r - 1, c);
        push_if_in_bounds(&mut ring, self.rows, self.columns, r - 1, c + 1);
        push_if_in_bounds(&mut ring, self.rows, self.columns, r, c - 1);
        push_if_in_bounds(&mut ring, self.rows, self.columns, r, c + 1);
        push_if_in_bounds(&mut ring, self.rows, self.columns, r + 1, c - 1);
        push_if_in_bounds(&mut ring, self.rows, self.columns, r + 1, c);
        push_if_in_bounds(&mut ring, self.rows, self.columns, r + 1, c + 1);
        proof {
            assert forall|y: Coordinate| ring@.contains(y) <==> (self.in_bounds(y) && adjacent(
                rc,
                y,
            )) by {
                if self.in_bounds(y) && adjacent(rc, y) {
                    assert((y.0 as i16) == r - 1 || (y.0 as i16) == r || (y.0 as i16) == r + 1);
                    assert((y.1 as i16) == c - 1 || (y.1 as i16) == c || (y.1 as i16) == c + 1);
                }
            }
        }
        ring
    }

    /// Reveal the connected `Empty` region around `start` together with the
    /// `Number` cells bordering it: the Minesweeper flood fill, run with an
    /// explicit work stack and a seen-set so that no cell is pushed twice.
    /// The cells it digs are exactly those `reveals` describes, their marks
    /// are cleared, and every other cell is untouched.
    fn propagate_dig(&mut self, start: Coordinate)
        requires
            old(self).wf(),
            old(self).in_bounds(start),
            !old(self).cell_spec(start).dug,
            !(old(self).cell_spec(start).value is Mine),
        ensures
            final(self).wf(),
            final(self).spec_rows() == old(self).spec_rows(),
            final(self).spec_columns() == old(self).spec_columns(),
            final(self).spec_mines_count() == old(self).spec_mines_count(),
            final(self).spec_losing_mine() == old(self).spec_losing_mine(),
            forall|y: Coordinate|
                #![trigger old(self).cell_spec(y)]
                old(self).in_bounds(y) ==> {
                    let pre = old(self).cell_spec(y);
                    let post = final(self).cell_spec(y);
                    let revealed = reveals(
                        old(self).grid(),
                        old(self).spec_rows(),
                        old(self).spec_columns(),
                        start,
                        y,
                    );
                    post.value == pre.value && post.dug == (pre.dug || revealed) && post.marked
                        == (pre.marked && !revealed)
                },
    {
        let ghost g0 = old(self).grid();
        let ghost rows_s = old(self).spec_rows();
        let ghost cols_s = old(self).spec_columns();
        let total = self.cells.len();
        let mut seen: Vec<bool> = new_flags(total);
        let mut stack: Vec<Coordinate> = Vec::new();
        let si = self.cell_index(start);
        seen[si] = true;
        stack.push(start);
        proof {
            lemma_reveals_self(g0, rows_s, cols_s, start);
            lemma_count_bounds(seen@, unset_pred());
            assert forall|y: Coordinate|
                coord_in_bounds(y, rows_s, cols_s) && #[trigger] flag_at(seen@, cols_s, y)
                implies y == start by {
                lemma_coord_index_facts(rows_s, cols_s, y, start);
            }
            assert(stack@ =~= Seq::<Coordinate>::empty().push(start));
            broadcast use vstd::seq_lib::lemma_seq_contains_after_push;

            assert(forall|y: Coordinate| stack@.contains(y) <==> y == start);
        }
        while stack.len() != 0
            invariant
                self.wf(),
                self.spec_rows() == rows_s,
                self.spec_columns() == cols_s,
                self.spec_mines_count() == old(self).spec_mines_count(),
                self.spec_losing_mine() == old(self).spec_losing_mine(),
                g0.len() == rows_s * cols_s,
                self.grid().len() == g0.len(),
                seen@.len() == g0.len(),
                coord_in_bounds(start, rows_s, cols_s),
                flag_at(seen@, cols_s, start),
                forall|i: int| 0 <= i < g0.len() ==> #[trigger] self.grid()[i].value == g0[i].value,
                forall|k: int|
                    0 <= k < stack@.len() ==> coord_in_bounds(#[trigger] stack@[k], rows_s, cols_s),
                forall|k1: int, k2: int| 0 <= k1 < k2 < stack@.len() ==> stack@[k1] != stack@[k2],
                forall|k: int|
                    0 <= k < stack@.len() ==> flag_at(seen@, cols_s, #[trigger] stack@[k])
                        && !cell_at(self.grid(), cols_s, stack@[k]).dug,
                forall|y: Coordinate|
                    coord_in_bounds(y, rows_s, cols_s) && #[trigger] flag_at(seen@, cols_s, y)
                        ==> diggable(g0, rows_s, cols_s, y) && reveals(
                        g0,
                        rows_s,
                        cols_s,
                        start,
                        y,
                    ),
                forall|y: Coordinate|
                    coord_in_bounds(y, rows_s, cols_s) ==> #[trigger] cell_at(
                        self.grid(),
                        cols_s,
                        y,
                    ).dug == (cell_at(g0, cols_s, y).dug || (flag_at(seen@, cols_s, y)
                        && !stack@.contains(y))),
                forall|y: Coordinate|
                    coord_in_bounds(y, rows_s, cols_s) ==> #[trigger] cell_at(
                        self.grid(),
                        cols_s,
                        y,
                    ).marked == (cell_at(g0, cols_s, y).marked && !(flag_at(seen@, cols_s, y)
                        && !stack@.contains(y))),
                forall|x: Coordinate, y: Coordinate|
                    #![trigger flag_at(seen@, cols_s, x), flag_at(seen@, cols_s, y)]
                    (coord_in_bounds(x, rows_s, cols_s) && flag_at(seen@, cols_s, x)
                        && !stack@.contains(x) && cell_at(g0, cols_s, x).value is Empty && adjacent(
                        x,
                        y,
                    ) && diggable(g0, rows_s, cols_s, y)) ==> flag_at(seen@, cols_s, y),
                0 <= count_matching(seen@, unset_pred()) <= seen@.len(),
            decreases stack@.len() + 2 * count_matching(seen@, unset_pred()),
        {
            let ghost stack0 = stack@;
            let ghost seen0 = seen@;
            let ghost measure0 = stack0.len() + 2 * count_matching(seen0, unset_pred());
            let ghost g_before = self.grid();
            let rc = stack.pop().unwrap();
            proof {
                assert(rc == stack0[stack0.len() - 1]);
                assert(stack@ =~= stack0.subrange(0, stack0.len() - 1));
                lemma_contains_after_pop(stack0);
                assert(coord_in_bounds(rc, rows_s, cols_s));
                assert(flag_at(seen0, cols_s, rc));
                assert(!cell_at(g_before, cols_s, rc).dug);
                assert(!stack@.contains(rc));
                lemma_coord_index_facts(rows_s, cols_s, rc, rc);
            }
            let i = self.cell_index(rc);
            let cell = self.cells[i];
            if !cell.dug {
                let updated = Cell { dug: true, marked: false, value: cell.value };
                proof {
                    assert(diggable(g0, rows_s, cols_s, rc));
                    assert(cell_at(g_before, cols_s, rc).value == cell_at(g0, cols_s, rc).value);
                    assert(safe_undug_pred()(g_before[flat_index(cols_s, rc)]));
                    lemma_count_positive(g_before, safe_undug_pred(), flat_index(cols_s, rc));
                    lemma_count_update(g_before, safe_undug_pred(), flat_index(cols_s, rc), updated);
                }
                self.set_cell(rc, updated);
                self.cells_to_dig = self.cells_to_dig - 1;
                proof {
                    assert forall|y: Coordinate|
                        coord_in_bounds(y, rows_s, cols_s) && y != rc implies cell_at(
                        self.grid(),
                        cols_s,
                        y,
                    ) == cell_at(g_before, cols_s, y) by {
                        lemma_coord_index_facts(rows_s, cols_s, y, rc);
                    }
                    assert(cell_at(self.grid(), cols_s, rc) == updated);
                }
                let is_empty = match cell.value {
                    CellValue::Empty => true,
                    _ => false,
                };
                if is_empty {
                    let ring = self.generate_ring(rc);
                    let ghost g_dug = self.grid();
                    let mut k: usize = 0;
                    while k < ring.len()
                        invariant
                            self.wf(),
                            self.spec_rows() == rows_s,
                            self.spec_columns() == cols_s,
                            self.spec_mines_count() == old(self).spec_mines_count(),
                            self.spec_losing_mine() == old(self).spec_losing_mine(),
                            g0.len() == rows_s * cols_s,
                            self.grid().len() == g0.len(),
                            seen@.len() == g0.len(),
                            coord_in_bounds(start, rows_s, cols_s),
                            flag_at(seen@, cols_s, start),
                            self.grid() == g_dug,
                            k <= ring@.len(),
                            forall|y: Coordinate|
                                #[trigger] ring@.contains(y) <==> (coord_in_bounds(
                                    y,
                                    rows_s,
                                    cols_s,
                                ) && adjacent(rc, y)),
                            coord_in_bounds(rc, rows_s, cols_s),
                            cell_at(g0, cols_s, rc).value is Empty,
                            flag_at(seen@, cols_s, rc),
                            !stack@.contains(rc),
                            reveals(g0, rows_s, cols_s, start, rc),
                            forall|i2: int|
                                0 <= i2 < g0.len() ==> #[trigger] self.grid()[i2].value
                                    == g0[i2].value,
                            forall|k2: int|
                                0 <= k2 < stack@.len() ==> coord_in_bounds(
                                    #[trigger] stack@[k2],
                                    rows_s,
                                    cols_s,
                                ),
                            forall|k1: int, k2: int|
                                0 <= k1 < k2 < stack@.len() ==> stack@[k1] != stack@[k2],
                            forall|k2: int|
                                0 <= k2 < stack@.len() ==> flag_at(
                                    seen@,
                                    cols_s,
                                    #[trigger] stack@[k2],
                                ) && !cell_at(self.grid(), cols_s, stack@[k2]).dug,
                            forall|y: Coordinate|
                                coord_in_bounds(y, rows_s, cols_s) && #[trigger] flag_at(
                                    seen@,
                                    cols_s,
                                    y,
                                ) ==> diggable(g0, rows_s, cols_s, y) && reveals(
                                    g0,
                                    rows_s,
                                    cols_s,
                                    start,
                                    y,
                                ),
                            forall|y: Coordinate|
                                coord_in_bounds(y, rows_s, cols_s) ==> #[trigger] cell_at(
                                    self.grid(),
                                    cols_s,
                                    y,
                                ).dug == (cell_at(g0, cols_s, y).dug || (flag_at(seen@, cols_s, y)
                                    && !stack@.contains(y))),
                            forall|y: Coordinate|
                                coord_in_bounds(y, rows_s, cols_s) ==> #[trigger] cell_at(
                                    self.grid(),
                                    cols_s,
                                    y,
                                ).marked == (cell_at(g0, cols_s, y).marked && !(flag_at(
                                    seen@,
                                    cols_s,
                                    y,
                                ) && !stack@.contains(y))),
                            forall|m: int|
                                0 <= m < k ==> (diggable(g0, rows_s, cols_s, #[trigger] ring@[m])
                                    ==> flag_at(seen@, cols_s, ring@[m])),
                            forall|x: Coordinate, y: Coordinate|
                                #![trigger flag_at(seen@, cols_s, x), flag_at(seen@, cols_s, y)]
                                (x != rc && coord_in_bounds(x, rows_s, cols_s) && flag_at(
                                    seen@,
                                    cols_s,
                                    x,
                                ) && !stack@.contains(x) && cell_at(g0, cols_s, x).value is Empty
                                    && adjacent(x, y) && diggable(g0, rows_s, cols_s, y))
                                    ==> flag_at(seen@, cols_s, y),
                            0 <= count_matching(seen@, unset_pred()) <= seen@.len(),
                            stack@.len() + 2 * count_matching(seen@, unset_pred()) <= measure0 - 1,
                        decreases ring@.len() - k,
                    {
                        let nb = ring[k];
                        proof {
                            assert(ring@.contains(ring@[k as int]));
                            assert(coord_in_bounds(nb, rows_s, cols_s) && adjacent(rc, nb));
                        }
                        let j = self.cell_index(nb);
                        let nb_cell = self.cells[j];
                        let nb_is_mine = match nb_cell.value {
                            CellValue::Mine => true,
                            _ => false,
                        };
                        let nb_seen = seen[j];
                        if !nb_is_mine && !nb_cell.dug && !nb_seen {
                            let ghost seen_b = seen@;
                            let ghost stack_b = stack@;
                            proof {
                                lemma_coord_index_facts(rows_s, cols_s, nb, rc);
                                assert(cell_at(self.grid(), cols_s, nb).value == cell_at(
                                    g0,
                                    cols_s,
                                    nb,
                                ).value);
                                assert(!cell_at(g0, cols_s, nb).dug);
                                assert(diggable(g0, rows_s, cols_s, nb));
                                lemma_reveals_step(g0, rows_s, cols_s, start, rc, nb);
                                assert(unset_pred()(seen_b[flat_index(cols_s, nb)]));
                                lemma_count_update(
                                    seen_b,
                                    unset_pred(),
                                    flat_index(cols_s, nb),
                                    true,
                                );
                            }
                            seen[j] = true;
                            stack.push(nb);
                            proof {
                                lemma_count_bounds(seen@, unset_pred());
                                broadcast use vstd::seq_lib::lemma_seq_contains_after_push;

                                assert forall|y: Coordinate|
                                    coord_in_bounds(y, rows_s, cols_s) && y != nb implies flag_at(
                                    seen@,
                                    cols_s,
                                    y,
                                ) == flag_at(seen_b, cols_s, y) by {
                                    lemma_coord_index_facts(rows_s, cols_s, y, nb);
                                }
                                assert(flag_at(seen@, cols_s, nb));
                                assert(forall|y: Coordinate|
                                    stack@.contains(y) <==> (stack_b.contains(y) || y == nb));
                            }
                        }
                        k = k + 1;
                    }
                    proof {
                        assert forall|x: Coordinate, y: Coordinate|
                            #![trigger flag_at(seen@, cols_s, x), flag_at(seen@, cols_s, y)]
                            (coord_in_bounds(x, rows_s, cols_s) && flag_at(seen@, cols_s, x)
                                && !stack@.contains(x) && cell_at(g0, cols_s, x).value is Empty
                                && adjacent(x, y) && diggable(g0, rows_s, cols_s, y)) implies
                            flag_at(seen@, cols_s, y) by {
                            if x == rc {
                                assert(ring@.contains(y));
                                let m = choose|m: int| 0 <= m < ring@.len() && ring@[m] == y;
                                assert(diggable(g0, rows_s, cols_s, ring@[m]));
                            }
                        }
                    }
                }
            }
        }
        proof {
            let ghost seen_final = seen@;
            let s = |z: Coordinate|
                coord_in_bounds(z, rows_s, cols_s) && flag_at(seen_final, cols_s, z);
            assert forall|y: Coordinate|
                coord_in_bounds(y, rows_s, cols_s) && reveals(g0, rows_s, cols_s, start, y)
                implies #[trigger] flag_at(seen_final, cols_s, y) by {
                assert(s(start));
                assert forall|x2: Coordinate, y2: Coordinate|
                    #![trigger s(x2), s(y2)]
                    s(x2) && diggable(g0, rows_s, cols_s, x2) && cell_at(
                        g0,
                        cols_s,
                        x2,
                    ).value is Empty && adjacent(x2, y2) && diggable(g0, rows_s, cols_s, y2)
                    implies s(y2) by {
                    assert(!stack@.contains(x2));
                    assert(flag_at(seen@, cols_s, x2));
                }
                lemma_reveals_covered(g0, rows_s, cols_s, start, y, s);
            }
            assert forall|y: Coordinate| #![trigger old(self).cell_spec(y)]
                old(self).in_bounds(y) implies {
                let pre = old(self).cell_spec(y);
                let post = self.cell_spec(y);
                let revealed = reveals(g0, rows_s, cols_s, start, y);
                post.value == pre.value && post.dug == (pre.dug || revealed) && post.marked == (
                pre.marked && !revealed)
            } by {
                lemma_coord_index_facts(rows_s, cols_s, y, start);
                if flag_at(seen_final, cols_s, y) {
                    assert(reveals(g0, rows_s, cols_s, start, y));
                }
                if reveals(g0, rows_s, cols_s, start, y) {
                    assert(flag_at(seen_final, cols_s, y));
                }
                assert(!stack@.contains(y));
            }
        }
    }

    /// Place the mines: exactly `mines_count` of them, drawn uniformly at
    /// random from the cells whose safe-area flag is not set, so that the
    /// opening area stays mine-free. No cell's dig or mark state changes.
    fn place_mines(&mut self, safe_flags: &Vec<bool>, random: &mut RandomSource)
        requires
            old(self).wf(),
            safe_flags@.len() == old(self).grid().len(),
            count_matching(safe_flags@, unset_pred()) >= old(self).spec_mines_count(),
            forall|i: int|
                0 <= i < old(self).grid().len() ==> !(#[trigger] old(self).grid()[i].value is Mine),
            forall|i: int| 0 <= i < old(self).grid().len() ==> !(#[trigger] old(self).grid()[i].dug),
        ensures
            final(self).wf(),
            final(self).spec_rows() == old(self).spec_rows(),
            final(self).spec_columns() == old(self).spec_columns(),
            final(self).spec_mines_count() == old(self).spec_mines_count(),
            final(self).spec_losing_mine() == old(self).spec_losing_mine(),
            final(self).grid().len() == old(self).grid().len(),
            count_mines(final(self).grid()) == final(self).spec_mines_count(),
            forall|i: int|
                0 <= i < old(self).grid().len() ==> ((#[trigger] final(self).grid()[i]).dug == old(self).grid()[i].dug && final(self).grid()[i].marked == old(self).grid()[i].marked),
            forall|i: int|
                0 <= i < old(self).grid().len() ==> ((#[trigger] final(self).grid()[i]).value == old(self).grid()[i].value || final(self).grid()[i].value is Mine),
            forall|i: int|
                0 <= i < old(self).grid().len() && safe_flags@[i] ==> #[trigger] final(self).grid()[i] == old(self).grid()[i],
    {
        let ghost g1 = old(self).grid();
        let n = self.cells.len();
        let mut candidates: Vec<usize> = Vec::new();
        let mut i: usize = 0;
        while i < n
            invariant
                i <= n,
                n == safe_flags@.len(),
                candidates@.len() == count_matching(safe_flags@.take(i as int), unset_pred()),
                forall|k: int| 0 <= k < candidates@.len() ==> #[trigger] candidates@[k] < i,
                forall|k: int|
                    0 <= k < candidates@.len() ==> !safe_flags@[#[trigger] candidates@[k] as int],
                forall|k1: int, k2: int|
                    0 <= k1 < k2 < candidates@.len() ==> candidates@[k1] < candidates@[k2],
            decreases n - i,
        {
            proof {
                assert(safe_flags@.take(i + 1) =~= safe_flags@.take(i as int).push(
                    safe_flags@[i as int],
                ));
                crate::counting::lemma_count_push(
                    safe_flags@.take(i as int),
                    unset_pred(),
                    safe_flags@[i as int],
                );
            }
            if !safe_flags[i] {
                candidates.push(i);
            }
            i = i + 1;
        }
        proof {
            assert(safe_flags@.take(n as int) =~= safe_flags@);
            assert(forall|i2: int| 0 <= i2 < g1.len() ==> !mine_pred()(#[trigger] g1[i2]));
            lemma_count_zero_iff(g1, mine_pred());
        }
        let mut placed: u8 = 0;
        while placed < self.mines_count
            invariant
                self.wf(),
                self.spec_rows() == old(self).spec_rows(),
                self.spec_columns() == old(self).spec_columns(),
                self.spec_mines_count() == old(self).spec_mines_count(),
                self.spec_losing_mine() == old(self).spec_losing_mine(),
                self.grid().len() == g1.len(),
                n == g1.len(),
                safe_flags@.len() == g1.len(),
                placed <= self.spec_mines_count(),
                candidates@.len() >= self.spec_mines_count() - placed,
                forall|i2: int| 0 <= i2 < g1.len() ==> !(#[trigger] g1[i2].dug),
                forall|k: int| 0 <= k < candidates@.len() ==> #[trigger] candidates@[k] < n,
                forall|k: int|
                    0 <= k < candidates@.len() ==> !safe_flags@[#[trigger] candidates@[k] as int],
                forall|k1: int, k2: int|
                    0 <= k1 < k2 < candidates@.len() ==> candidates@[k1] != candidates@[k2],
                forall|k: int|
                    0 <= k < candidates@.len() ==> !(self.grid()[#[trigger] candidates@[k] as int].value is Mine),
                count_mines(self.grid()) == placed,
                forall|i2: int|
                    0 <= i2 < g1.len() ==> ((#[trigger] self.grid()[i2]).dug == g1[i2].dug
                        && self.grid()[i2].marked == g1[i2].marked && (self.grid()[i2].value
                        == g1[i2].value || self.grid()[i2].value is Mine) && (safe_flags@[i2]
                        ==> self.grid()[i2] == g1[i2])),
            decreases self.spec_mines_count() - placed,
        {
            let ghost cands0 = candidates@;
            let ci = random.next_below(candidates.len() as u64) as usize;
            let idx = candidates.swap_remove(ci);
            let cell = self.cells[idx];
            let updated = Cell { dug: cell.dug, marked: cell.marked, value: CellValue::Mine };
            proof {
                assert(idx == cands0[ci as int]);
                assert(!(self.grid()[idx as int].value is Mine));
                assert(self.grid()[idx as int].dug == g1[idx as int].dug);
                assert(!g1[idx as int].dug);
                assert(safe_undug_pred()(self.grid()[idx as int]));
                lemma_count_positive(self.grid(), safe_undug_pred(), idx as int);
                lemma_count_update(self.grid(), safe_undug_pred(), idx as int, updated);
                lemma_count_update(self.grid(), mine_pred(), idx as int, updated);
                assert forall|k: int| 0 <= k < candidates@.len() implies #[trigger] candidates@[k]
                    != idx && candidates@[k] < n && !safe_flags@[candidates@[k] as int] by {
                    if k == ci {
                        assert(candidates@[k] == cands0[cands0.len() - 1]);
                    } else {
                        assert(candidates@[k] == cands0[k]);
                    }
                }
                assert forall|k1: int, k2: int| 0 <= k1 < k2 < candidates@.len() implies
                    candidates@[k1] != candidates@[k2] by {
                    if k1 == ci {
                        assert(candidates@[k1] == cands0[cands0.len() - 1]);
                        assert(candidates@[k2] == cands0[k2]);
                    } else if k2 == ci {
                        assert(candidates@[k2] == cands0[cands0.len() - 1]);
                        assert(candidates@[k1] == cands0[k1]);
                    }
                }
            }
            let ghost g_prev = self.grid();
            self.cells[idx] = updated;
            self.cells_to_dig = self.cells_to_dig - 1;
            placed = placed + 1;
            proof {
                assert(self.grid()[idx as int] == updated);
                assert forall|i2: int|
                    0 <= i2 < g1.len() implies #[trigger] self.grid()[i2].dug == g1[i2].dug
                        && self.grid()[i2].marked == g1[i2].marked && (self.grid()[i2].value
                        == g1[i2].value || self.grid()[i2].value is Mine) && (safe_flags@[i2]
                        ==> self.grid()[i2] == g1[i2]) by {
                    if i2 == idx {
                        assert(updated.dug == g_prev[i2].dug && updated.marked
                            == g_prev[i2].marked);
                    } else {
                        assert(self.grid()[i2] == g_prev[i2]);
                    }
                    assert(g_prev[i2].dug == g1[i2].dug && g_prev[i2].marked == g1[i2].marked);
                    assert(g_prev[i2].value == g1[i2].value || g_prev[i2].value is Mine);
                    assert(safe_flags@[i2] ==> g_prev[i2] == g1[i2]);
                }
            }
        }
    }

    /// Place mines and numbers on the board and open the starting area.
    ///
    /// Called once, with the cell of the player's first play. A mine-free
    /// opening area is grown around the starting cell by a random walk along
    /// the four axis directions; the walk is capped both by the cells the
    /// mines leave free and by a bound on the attempts, so it terminates even
    /// when growth stalls at an edge. The mines are then drawn outside that
    /// area, every non-mine cell gets its adjacency count, and the starting
    /// cell is dug with the usual flood fill.
    pub fn build(&mut self, start_cell: Coordinate, random: &mut RandomSource)
        requires
            old(self).wf(),
            old(self).is_fresh(),
            old(self).in_bounds(start_cell),
        ensures
            final(self).wf(),
            final(self).spec_rows() == old(self).spec_rows(),
            final(self).spec_columns() == old(self).spec_columns(),
            final(self).spec_mines_count() == old(self).spec_mines_count(),
            final(self).spec_losing_mine() == old(self).spec_losing_mine(),
            count_mines(final(self).grid()) == final(self).spec_mines_count(),
            !(final(self).cell_spec(start_cell).value is Mine),
            final(self).cell_spec(start_cell).dug,
            forall|y: Coordinate|
                final(self).in_bounds(y) ==> value_matches_adjacency(
                    final(self).grid(),
                    final(self).spec_rows(),
                    final(self).spec_columns(),
                    y,
                ),
            forall|y: Coordinate|
                final(self).in_bounds(y) ==> !(#[trigger] final(self).cell_spec(y)).marked,
            forall|y: Coordinate|
                final(self).in_bounds(y) ==> ((#[trigger] final(self).cell_spec(y)).dug <==> reveals(
                    with_flags_cleared(final(self).grid()),
                    final(self).spec_rows(),
                    final(self).spec_columns(),
                    start_cell,
                    y,
                )),
    {
        let ghost g1 = old(self).grid();
        let ghost rows_s = old(self).spec_rows();
        let ghost cols_s = old(self).spec_columns();
        proof {
            lemma_grid_size_bound(rows_s, cols_s);
        }
        let total: u16 = (self.rows as u16) * (self.columns as u16);
        let avail: u16 = total - (self.mines_count as u16);
        let target: u16 = if avail < SAFE_AREA_TARGET {
            avail
        } else {
            SAFE_AREA_TARGET
        };
        let n = self.cells.len();
        let mut safe: Vec<Coordinate> = Vec::new();
        let mut safe_flags: Vec<bool> = new_flags(n);
        let si = self.cell_index(start_cell);
        proof {
            assert(forall|i: int| 0 <= i < n ==> unset_pred()(#[trigger] safe_flags@[i]));
            lemma_count_all(safe_flags@, unset_pred());
            lemma_count_update(safe_flags@, unset_pred(), si as int, true);
        }
        safe_flags[si] = true;
        safe.push(start_cell);
        let mut attempts: u32 = SAFE_AREA_GROWTH_TRIES;
        while safe.len() < target as usize && attempts > 0
            invariant
                self.wf(),
                self.is_fresh(),
                self.grid() == g1,
                self.spec_rows() == rows_s,
                self.spec_columns() == cols_s,
                self.spec_mines_count() == old(self).spec_mines_count(),
                self.spec_remaining() == old(self).spec_remaining(),
                self.spec_losing_mine() == old(self).spec_losing_mine(),
                n == g1.len(),
                g1.len() == rows_s * cols_s,
                safe_flags@.len() == n,
                coord_in_bounds(start_cell, rows_s, cols_s),
                1 <= safe@.len() <= target,
                target <= total - self.spec_mines_count(),
                total == rows_s * cols_s,
                flag_at(safe_flags@, cols_s, start_cell),
                forall|k: int|
                    0 <= k < safe@.len() ==> coord_in_bounds(#[trigger] safe@[k], rows_s, cols_s),
                count_matching(safe_flags@, unset_pred()) == n - safe@.len(),
            decreases attempts,
        {
            attempts = attempts - 1;
            let pick = random.next_below(safe.len() as u64) as usize;
            let cell = safe[pick];
            let dir = random.next_below(4);
            let dr: i16 = if dir == 0 {
                1
            } else if dir == 2 {
                -1
            } else {
                0
            };
            let dc: i16 = if dir == 1 {
                1
            } else if dir == 3 {
                -1
            } else {
                0
            };
            let nr = cell.0 as i16 + dr;
            let nc = cell.1 as i16 + dc;
            if 0 <= nr && nr < self.rows as i16 && 0 <= nc && nc < self.columns as i16 {
                let nb = ((nr as u8), (nc as u8));
                let j = self.cell_index(nb);
                if !safe_flags[j] {
                    proof {
                        lemma_flat_index_bound(rows_s, cols_s, start_cell);
                        assert(unset_pred()(safe_flags@[j as int]));
                        lemma_count_update(safe_flags@, unset_pred(), j as int, true);
                    }
                    safe_flags[j] = true;
                    safe.push(nb);
                }
            }
        }
        proof {
            assert(count_matching(safe_flags@, unset_pred()) >= self.spec_mines_count());
            assert(forall|i: int|
                0 <= i < g1.len() ==> (#[trigger] g1[i].is_fresh()));
            assert(forall|i: int|
                0 <= i < g1.len() ==> !(#[trigger] self.grid()[i].value is Mine));
            assert(forall|i: int| 0 <= i < g1.len() ==> !(#[trigger] self.grid()[i].dug));
        }
        let ghost flags_seq = safe_flags@;
        self.place_mines(&safe_flags, random);
        let ghost g_mines = self.grid();
        proof {
            assert(forall|i2: int|
                0 <= i2 < g_mines.len() ==> !mine_pred()(#[trigger] g_mines[i2])
                    == !(g_mines[i2].value is Mine));
        }
        self.place_numbers();
        let ghost g_mid = self.grid();
        proof {
            // the mines are unchanged by the numbering, so their count is too
            assert(forall|i2: int|
                0 <= i2 < g_mid.len() ==> mine_pred()(#[trigger] g_mid[i2]) == mine_pred()(
                    g_mines[i2],
                ));
            lemma_count_agree(g_mines, g_mid, mine_pred());
            // the starting cell sits in the safe area, so it carries no mine
            // and is still undug: the flood fill may start there
            lemma_flat_index_bound(rows_s, cols_s, start_cell);
            assert(g_mines[flat_index(cols_s, start_cell)] == g1[flat_index(cols_s, start_cell)]);
            assert(!(cell_at(g_mid, cols_s, start_cell).value is Mine));
            assert(!cell_at(g_mid, cols_s, start_cell).dug);
        }
        let ghost self_mid = *self;
        self.propagate_dig(start_cell);
        proof {
            lemma_reveals_self(g_mid, rows_s, cols_s, start_cell);
            assert forall|i2: int| 0 <= i2 < g_mid.len() implies (#[trigger] self.grid()[i2].value)
                == g_mid[i2].value by {
                lemma_index_to_coord(rows_s, cols_s, i2);
                let y = ((i2 / cols_s) as u8, (i2 % cols_s) as u8);
                assert(self_mid.cell_spec(y).value == cell_at(g_mid, cols_s, y).value);
                assert(self.cell_spec(y) == self.grid()[i2]);
            }
            assert(forall|i2: int|
                0 <= i2 < g_mid.len() ==> mine_pred()(#[trigger] self.grid()[i2]) == mine_pred()(
                    g_mid[i2],
                ));
            lemma_count_agree(g_mid, self.grid(), mine_pred());
            // the layout below the flags is what the flood fill ran on
            assert forall|i2: int| 0 <= i2 < g_mid.len() implies #[trigger] with_flags_cleared(
                self.grid(),
            )[i2] == g_mid[i2] by {
                lemma_index_to_coord(rows_s, cols_s, i2);
                let y = ((i2 / cols_s) as u8, (i2 % cols_s) as u8);
                assert(self_mid.cell_spec(y).dug == cell_at(g_mid, cols_s, y).dug);
                assert(g_mid[i2] == g_mines[i2] || g_mid[i2].dug == g_mines[i2].dug
                    && g_mid[i2].marked == g_mines[i2].marked);
                assert(!g_mid[i2].dug && !g_mid[i2].marked);
            }
            assert(with_flags_cleared(self.grid()) =~= g_mid);
            // adjacency numbers: the flood fill changed no value
            assert forall|y: Coordinate| coord_in_bounds(y, rows_s, cols_s) implies
                value_matches_adjacency(self.grid(), rows_s, cols_s, y) by {
                lemma_flat_index_bound(rows_s, cols_s, y);
                lemma_adj_mines_agree(g_mid, self.grid(), rows_s, cols_s, y);
                assert(value_matches_adjacency(g_mid, rows_s, cols_s, y));
                assert(cell_at(self.grid(), cols_s, y).value == cell_at(g_mid, cols_s, y).value);
            }
            // no cell is marked: the board was fresh and the phases keep or
            // clear marks, never set one
            assert forall|y: Coordinate| coord_in_bounds(y, rows_s, cols_s) implies !(
            #[trigger] self.cell_spec(y)).marked && (self.cell_spec(y).dug <==> reveals(
                g_mid,
                rows_s,
                cols_s,
                start_cell,
                y,
            )) by {
                lemma_flat_index_bound(rows_s, cols_s, y);
                assert(self_mid.cell_spec(y).marked == cell_at(g_mid, cols_s, y).marked);
                assert(!cell_at(g_mid, cols_s, y).marked && !cell_at(g_mid, cols_s, y).dug);
                assert(self.cell_spec(y).marked == (cell_at(g_mid, cols_s, y).marked && !reveals(
                    g_mid,
                    rows_s,
                    cols_s,
                    start_cell,
                    y,
                )));
            }
        }
    }

    /// Whether the cell at signed row `r`, column `c` lies on the grid and
    /// holds a mine; coordinates past an edge simply answer no.
    fn mine_probe(&self, r: i16, c: i16) -> (b: bool)
        requires
            self.wf(),
        ensures
            b == mine_at(self.grid(), self.spec_rows(), self.spec_columns(), r as int, c as int),
    {
        if 0 <= r && r < self.rows as i16 && 0 <= c && c < self.columns as i16 {
            let rc = ((r as u8), (c as u8));
            let i = self.cell_index(rc);
            match self.cells[i].value {
                CellValue::Mine => true,
                _ => false,
            }
        } else {
            false
        }
    }

    /// Count the mines among the up to eight in-bounds neighbors of a cell.
    fn count_adjacent_mines(&self, rc: Coordinate) -> (n: u8)
        requires
            self.wf(),
            self.in_bounds(rc),
        ensures
            n == adj_mines(self.grid(), self.spec_rows(), self.spec_columns(), rc),
            n <= 8,
    {
        let r = rc.0 as i16;
        let c = rc.1 as i16;
        let mut n: u8 = 0;
        if self.mine_probe(r - 1, c - 1) {
            n = n + 1;
        }
        if self.mine_probe(r - 1, c) {
            n = n + 1;
        }
        if self.mine_probe(r - 1, c + 1) {
            n = n + 1;
        }
        if self.mine_probe(r, c - 1) {
            n = n + 1;
        }
        if self.mine_probe(r, c + 1) {
            n = n + 1;
        }
        if self.mine_probe(r + 1, c - 1) {
            n = n + 1;
        }
        if self.mine_probe(r + 1, c) {
            n = n + 1;
        }
        if self.mine_probe(r + 1, c + 1) {
            n = n + 1;
        }
        n
    }

    /// Give every non-mine cell its adjacency count: `Number(n)` for a cell
    /// with `n` adjacent mines, `Empty` for one with none. The mines are all
    /// in place by now, so each count is read straight off the grid.
    fn place_numbers(&mut self)
        requires
            old(self).wf(),
        ensures
            final(self).wf(),
            final(self).spec_rows() == old(self).spec_rows(),
            final(self).spec_columns() == old(self).spec_columns(),
            final(self).spec_mines_count() == old(self).spec_mines_count(),
            final(self).spec_remaining() == old(self).spec_remaining(),
            final(self).spec_losing_mine() == old(self).spec_losing_mine(),
            final(self).grid().len() == old(self).grid().len(),
            forall|i: int|
                0 <= i < old(self).grid().len() ==> ((#[trigger] final(self).grid()[i]).dug == old(
                    self,
                ).grid()[i].dug && final(self).grid()[i].marked == old(self).grid()[i].marked && ((
                final(self).grid()[i].value is Mine) <==> (old(self).grid()[i].value is Mine))),
            forall|y: Coordinate|
                coord_in_bounds(y, old(self).spec_rows(), old(self).spec_columns())
                    ==> value_matches_adjacency(
                    final(self).grid(),
                    old(self).spec_rows(),
                    old(self).spec_columns(),
                    y,
                ),
    {
        let ghost g1 = old(self).grid();
        let ghost rows_s = old(self).spec_rows();
        let ghost cols_s = old(self).spec_columns();
        let n = self.cells.len();
        let columns = self.columns as usize;
        proof {
            let ghost mines_s = old(self).spec_mines_count();
            assert(cols_s > 0) by (nonlinear_arith)
                requires
                    mines_s >= 0,
                    mines_s < rows_s * cols_s,
                    cols_s >= 0,
            ;
        }
        let mut i: usize = 0;
        while i < n
            invariant
                self.wf(),
                self.spec_rows() == rows_s,
                self.spec_columns() == cols_s,
                self.spec_mines_count() == old(self).spec_mines_count(),
                self.spec_remaining() == old(self).spec_remaining(),
                self.spec_losing_mine() == old(self).spec_losing_mine(),
                self.grid().len() == g1.len(),
                g1.len() == rows_s * cols_s,
                columns == cols_s,
                0 < cols_s,
                rows_s <= 255,
                cols_s <= 255,
                n == g1.len(),
                i <= n,
                forall|i2: int|
                    0 <= i2 < g1.len() ==> ((#[trigger] self.grid()[i2]).dug == g1[i2].dug
                        && self.grid()[i2].marked == g1[i2].marked && ((
                    self.grid()[i2].value is Mine) <==> (g1[i2].value is Mine))),
                forall|i2: int| i <= i2 < g1.len() ==> #[trigger] self.grid()[i2] == g1[i2],
                forall|y: Coordinate|
                    coord_in_bounds(y, rows_s, cols_s) && flat_index(cols_s, y) < i
                        ==> value_matches_adjacency(self.grid(), rows_s, cols_s, y),
            decreases n - i,
        {
            proof {
                lemma_index_to_coord(rows_s, cols_s, i as int);
            }
            let r = (i / columns) as u8;
            let c = (i % columns) as u8;
            let rc = (r, c);
            proof {
                assert(coord_in_bounds(rc, rows_s, cols_s));
                assert(flat_index(cols_s, rc) == i);
            }
            let cell = self.cells[i];
            let is_mine = match cell.value {
                CellValue::Mine => true,
                _ => false,
            };
            if !is_mine {
                let m = self.count_adjacent_mines(rc);
                let value = if m == 0 {
                    CellValue::Empty
                } else {
                    CellValue::Number(m)
                };
                let updated = Cell { dug: cell.dug, marked: cell.marked, value };
                let ghost g_prev = self.grid();
                proof {
                    lemma_count_update(self.grid(), safe_undug_pred(), i as int, updated);
                }
                self.cells[i] = updated;
                proof {
                    assert(self.grid()[i as int] == updated);
                    assert(forall|i2: int|
                        0 <= i2 < g1.len() && i2 != i ==> #[trigger] self.grid()[i2]
                            == g_prev[i2]);
                    assert forall|y: Coordinate|
                        coord_in_bounds(y, rows_s, cols_s) && flat_index(cols_s, y) < i + 1
                        implies value_matches_adjacency(self.grid(), rows_s, cols_s, y) by {
                        lemma_flat_index_bound(rows_s, cols_s, y);
                        lemma_adj_mines_agree(g_prev, self.grid(), rows_s, cols_s, y);
                        if flat_index(cols_s, y) == i as int {
                            lemma_flat_index_injective(cols_s, y, rc);
                            assert(y == rc);
                            assert(cell_at(self.grid(), cols_s, y) == updated);
                            assert(m == adj_mines(g_prev, rows_s, cols_s, y));
                            assert(adj_mines(g_prev, rows_s, cols_s, y) == adj_mines(
                                self.grid(),
                                rows_s,
                                cols_s,
                                y,
                            ));
                        } else {
                            assert(cell_at(self.grid(), cols_s, y) == cell_at(g_prev, cols_s, y));
                        }
                    }
                }
            }
            i = i + 1;
        }
        proof {
            assert forall|y: Coordinate| coord_in_bounds(y, rows_s, cols_s) implies
                value_matches_adjacency(self.grid(), rows_s, cols_s, y) by {
                lemma_flat_index_bound(rows_s, cols_s, y);
            }
        }
    }

    /// After a win, mark every mine, for the end-of-game display.
    fn mark_all_mines(&mut self)
        requires
            old(self).wf(),
        ensures
            final(self).wf(),
            final(self).grid() == with_mines_marked(old(self).grid()),
            final(self).spec_rows() == old(self).spec_rows(),
            final(self).spec_columns() == old(self).spec_columns(),
            final(self).spec_mines_count() == old(self).spec_mines_count(),
            final(self).spec_remaining() == old(self).spec_remaining(),
            final(self).spec_losing_mine() == old(self).spec_losing_mine(),
    {
        let ghost g0 = old(self).grid();
        let mut i: usize = 0;
        while i < self.cells.len()
            invariant
                self.wf(),
                self.spec_rows() == old(self).spec_rows(),
                self.spec_columns() == old(self).spec_columns(),
                self.spec_mines_count() == old(self).spec_mines_count(),
                self.spec_remaining() == old(self).spec_remaining(),
                self.spec_losing_mine() == old(self).spec_losing_mine(),
                self.grid().len() == g0.len(),
                i <= g0.len(),
                forall|j: int| 0 <= j < i ==> #[trigger] self.grid()[j] == with_mines_marked(g0)[j],
                forall|j: int| i <= j < g0.len() ==> #[trigger] self.grid()[j] == g0[j],
            decreases g0.len() - i,
        {
            let cell = self.cells[i];
            let is_mine = match cell.value {
                CellValue::Mine => true,
                _ => false,
            };
            if is_mine {
                let updated = Cell { dug: cell.dug, marked: true, value: cell.value };
                proof {
                    lemma_count_update(self.grid(), safe_undug_pred(), i as int, updated);
                }
                self.cells[i] = updated;
            }
            i = i + 1;
        }
        proof {
            assert(self.grid() =~= with_mines_marked(g0));
        }
    }

    /// Method called for a dig play.
    ///
    /// If the target cell is already dug or marked nothing happens; the win
    /// condition is still evaluated. If the target is a mine the game ends
    /// and the player loses. If the target is a number only that cell is
    /// revealed. If the target is empty the reveal flood-fills the whole
    /// connected empty region and its numbered border. The play wins exactly
    /// when it leaves no safe cell undug; the win marks every mine.
    pub fn dig(&mut self, play: Coordinate) -> (result: GameResult)
        requires
            old(self).wf(),
            old(self).in_bounds(play),
        ensures
            final(self).wf(),
            final(self).spec_rows() == old(self).spec_rows(),
            final(self).spec_columns() == old(self).spec_columns(),
            final(self).spec_mines_count() == old(self).spec_mines_count(),
            result is Lost <==> (!old(self).cell_spec(play).dug && !old(self).cell_spec(play).marked
                && old(self).cell_spec(play).value is Mine),
            result is Lost ==> final(self).grid() == old(self).grid() && final(self).spec_losing_mine() == Some(play) && final(self).spec_remaining() == old(self).spec_remaining(),
            !(result is Lost) ==> final(self).spec_losing_mine() == old(self).spec_losing_mine(),
            result is Won <==> (!(result is Lost) && final(self).spec_remaining() == 0),
            (!(result is Lost) && (old(self).cell_spec(play).dug || old(self).cell_spec(
                play,
            ).marked)) ==> final(self).grid() == (if result is Won {
                with_mines_marked(old(self).grid())
            } else {
                old(self).grid()
            }) && final(self).spec_remaining() == old(self).spec_remaining(),
            (!old(self).cell_spec(play).dug && !old(self).cell_spec(play).marked && old(self).cell_spec(play).value is Number) ==> ({
                let dug_grid = old(self).grid().update(
                    flat_index(old(self).spec_columns(), play),
                    Cell { dug: true, marked: false, value: old(self).cell_spec(play).value },
                );
                &&& final(self).grid() == (if result is Won {
                    with_mines_marked(dug_grid)
                } else {
                    dug_grid
                })
                &&& final(self).spec_remaining() == old(self).spec_remaining() - 1
            }),
            (!old(self).cell_spec(play).dug && !old(self).cell_spec(play).marked && old(self).cell_spec(play).value is Empty) ==> forall|y: Coordinate|
                #![trigger old(self).cell_spec(y)]
                old(self).in_bounds(y) ==> ({
                    let pre = old(self).cell_spec(y);
                    let post = final(self).cell_spec(y);
                    let revealed = reveals(
                        old(self).grid(),
                        old(self).spec_rows(),
                        old(self).spec_columns(),
                        play,
                        y,
                    );
                    &&& post.value == pre.value
                    &&& post.dug == (pre.dug || revealed)
                    &&& post.marked == ((pre.marked && !revealed) || (result is Won
                        && pre.value is Mine))
                }),
    {
        let ghost g0 = old(self).grid();
        let ghost rows_s = old(self).spec_rows();
        let ghost cols_s = old(self).spec_columns();
        let i = self.cell_index(play);
        let cell = self.cells[i];
        if !cell.dug && !cell.marked {
            match cell.value {
                CellValue::Mine => {
                    self.deadly_mine = Some(play);
                    return GameResult::Lost;
                },
                CellValue::Number(_) => {
                    let updated = Cell { dug: true, marked: false, value: cell.value };
                    proof {
                        lemma_count_positive(self.grid(), safe_undug_pred(), i as int);
                        lemma_count_update(self.grid(), safe_undug_pred(), i as int, updated);
                    }
                    self.set_cell(play, updated);
                    self.cells_to_dig = self.cells_to_dig - 1;
                },
                CellValue::Empty => {
                    self.propagate_dig(play);
                },
            }
        }
        let ghost g_mid = self.grid();
        if self.cells_to_dig == 0 {
            self.mark_all_mines();
            proof {
                assert forall|y: Coordinate| old(self).in_bounds(y) implies #[trigger] self
                    .cell_spec(y) == (if cell_at(g_mid, cols_s, y).value is Mine {
                    Cell {
                        dug: cell_at(g_mid, cols_s, y).dug,
                        marked: true,
                        value: cell_at(g_mid, cols_s, y).value,
                    }
                } else {
                    cell_at(g_mid, cols_s, y)
                }) by {
                    lemma_coord_index_facts(rows_s, cols_s, y, play);
                }
                if !cell_at(g0, cols_s, play).dug && !cell_at(g0, cols_s, play).marked && cell_at(
                    g0,
                    cols_s,
                    play,
                ).value is Empty {
                    assert forall|y: Coordinate|
                        old(self).in_bounds(y) && cell_at(g0, cols_s, y).value is Mine implies
                        !reveals(g0, rows_s, cols_s, play, y) by {
                        if reveals(g0, rows_s, cols_s, play, y) {
                            lemma_reveals_diggable(g0, rows_s, cols_s, play, y);
                        }
                    }
                }
            }
            return GameResult::Won;
        }
        GameResult::Continue
    }

    /// Method called for a mark play: marks the cell as a suspected mine,
    /// unless the cell is already dug, in which case nothing happens.
    pub fn mark(&mut self, rc: Coordinate)
        requires
            old(self).wf(),
            old(self).in_bounds(rc),
        ensures
            final(self).wf(),
            final(self).grid() == with_mark(old(self).grid(), old(self).spec_columns(), rc, true),
            final(self).spec_rows() == old(self).spec_rows(),
            final(self).spec_columns() == old(self).spec_columns(),
            final(self).spec_mines_count() == old(self).spec_mines_count(),
            final(self).spec_remaining() == old(self).spec_remaining(),
            final(self).spec_losing_mine() == old(self).spec_losing_mine(),
    {
        let i = self.cell_index(rc);
        let cell = self.cells[i];
        if !cell.dug {
            let updated = Cell { dug: cell.dug, marked: true, value: cell.value };
            proof {
                lemma_count_update(self.grid(), safe_undug_pred(), i as int, updated);
            }
            self.set_cell(rc, updated);
        }
    }

    /// Rows getter.
    pub fn rows(&self) -> (r: u8)
        ensures
            r == self.spec_rows(),
    {
        self.rows
    }

    /// Columns getter.
    pub fn columns(&self) -> (r: u8)
        ensures
            r == self.spec_columns(),
    {
        self.columns
    }

    /// How many non-mine cells are not dug yet; the game is won when this
    /// query answers zero.
    pub fn remaining_safe_cells(&self) -> (r: u16)
        ensures
            r == self.spec_remaining(),
    {
        self.cells_to_dig
    }

    /// The mine the player dug, once the game is lost; `None` before that.
    pub fn deadly_mine(&self) -> (r: Option<Coordinate>)
        ensures
            r == self.spec_losing_mine(),
    {
        self.deadly_mine
    }

    /// Read-only render-state query: everything a renderer needs to draw one
    /// cell — whether it is dug, whether it is marked, and what it holds.
    pub fn cell(&self, rc: Coordinate) -> (c: Cell)
        requires
            self.wf(),
            self.in_bounds(rc),
        ensures
            c == self.cell_spec(rc),
    {
        let i = self.cell_index(rc);
        self.cells[i]
    }

    /// Method called for an unmark play: clears the mark, unless the cell is
    /// already dug, in which case nothing happens.
    pub fn unmark(&mut self, rc: Coordinate)
        requires
            old(self).wf(),
            old(self).in_bounds(rc),
        ensures
            final(self).wf(),
            final(self).grid() == with_mark(old(self).grid(), old(self).spec_columns(), rc, false),
            final(self).spec_rows() == old(self).spec_rows(),
            final(self).spec_columns() == old(self).spec_columns(),
            final(self).spec_mines_count() == old(self).spec_mines_count(),
            final(self).spec_remaining() == old(self).spec_remaining(),
            final(self).spec_losing_mine() == old(self).spec_losing_mine(),
    {
        let i = self.cell_index(rc);
        let cell = self.cells[i];
        if !cell.dug {
            let updated = Cell { dug: cell.dug, marked: false, value: cell.value };
            proof {
                lemma_count_update(self.grid(), safe_undug_pred(), i as int, updated);
            }
            self.set_cell(rc, updated);
        }
    }
}

} // verus!

