//! Paper rolls on a grid. The input is read as lines of equal width,
//! one byte to a cell; a roll can be reached where fewer than a given
//! number of its eight neighbours hold a roll, and the rolls that can be
//! reached are taken away round after round.

use itertools::Itertools;
use vstd::arithmetic::div_mod::{
    lemma_div_is_ordered, lemma_fundamental_div_mod, lemma_fundamental_div_mod_converse,
    lemma_mod_bound,
};
use vstd::prelude::*;
use vstd::string::*;

verus! {

/// The byte of a cell that holds a roll, `@`.
pub const ROLL: u8 = 64;

/// The byte of a cell from which the roll was taken, `.`.
pub const CLEARED: u8 = 46;

/// The byte that ends a line.
pub const LINE_FEED: u8 = 10;

/// One step back along a row or a column.
pub const BACK: isize = -1;

/// No step along a row or a column.
pub const STAY: isize = 0;

/// One step on along a row or a column.
pub const AHEAD: isize = 1;

/// A grid as written in the input: `rows` lines of `columns` cells, each
/// line but perhaps the last followed by one byte more.
#[derive(Debug)]
pub struct Grid {
    pub rows: usize,
    pub columns: usize,
    pub cells: Vec<u8>,
}

/// What a grid is, apart from how it is stored.
pub struct Layout {
    pub rows: usize,
    pub columns: usize,
    pub cells: Seq<u8>,
}

impl View for Grid {
    type V = Layout;

    open spec fn view(&self) -> Layout {
        Layout { rows: self.rows, columns: self.columns, cells: self.cells@ }
    }
}

/// Where the first line of `bytes` ends: the place of the first line feed
/// at or after `from`, or the length where there is none.
pub open spec fn line_end(bytes: Seq<u8>, from: int) -> int
    decreases bytes.len() - from,
{
    if from >= bytes.len() {
        bytes.len() as int
    } else if bytes[from] == LINE_FEED {
        from
    } else {
        line_end(bytes, from + 1)
    }
}

/// How many lines of `columns` cells, each with its line feed, fit into
/// `len` bytes and one byte more.
pub open spec fn rows_in(len: int, columns: int) -> int {
    (len + 1) / (columns + 1)
}

/// The grid that `bytes` spells: as wide as the first line, and with as
/// many rows as lines of that width fit, though no more than a machine
/// word counts.
pub open spec fn layout_of(bytes: Seq<u8>) -> Layout {
    let columns = line_end(bytes, 0);
    let rows = rows_in(bytes.len() as int, columns);
    Layout {
        rows: if rows > usize::MAX {
            usize::MAX
        } else {
            rows as usize
        },
        columns: columns as usize,
        cells: bytes,
    }
}

/// The place in row-major order that comes `k`-th in a grid of `columns`
/// columns.
pub open spec fn position(columns: usize, k: int) -> (usize, usize) {
    ((k / columns as int) as usize, (k % columns as int) as usize)
}

/// The places of a grid, row by row.
pub open spec fn positions(rows: usize, columns: usize) -> Seq<(usize, usize)> {
    Seq::new((rows * columns) as nat, |k: int| position(columns, k))
}

/// How many of `cells` hold a roll.
pub open spec fn count_rolls(cells: Seq<u8>) -> nat
    decreases cells.len(),
{
    if cells.len() == 0 {
        0
    } else {
        count_rolls(cells.drop_last()) + if cells.last() == ROLL {
            1nat
        } else {
            0nat
        }
    }
}

/// `cells` with each of `places` cleared, in a grid of `columns` columns.
pub open spec fn without(cells: Seq<u8>, columns: usize, places: Seq<(usize, usize)>) -> Seq<u8>
    decreases places.len(),
{
    if places.len() == 0 {
        cells
    } else {
        without(cells, columns, places.drop_last()).update(
            (columns + 1) * places.last().0 + places.last().1,
            CLEARED,
        )
    }
}

impl Layout {
    /// The rows with their line ends fit into the cells and one byte more.
    pub open spec fn wf(self) -> bool {
        (self.columns + 1) * self.rows <= self.cells.len() + 1
    }

    /// Where the cell of row `r` and column `c` is stored.
    pub open spec fn index(self, r: int, c: int) -> int {
        (self.columns + 1) * r + c
    }

    /// Row `r` and column `c` lie on the grid.
    pub open spec fn inside(self, r: usize, c: usize) -> bool {
        r < self.rows && c < self.columns
    }

    /// Row `r` and column `c` lie on the grid and hold a roll.
    pub open spec fn holds_roll(self, r: usize, c: usize) -> bool {
        self.inside(r, c) && self.cells[self.index(r as int, c as int)] == ROLL
    }

    /// One where the cell that lies `dr` rows and `dc` columns from the
    /// given one holds a roll, else none. The steps wrap round the ends
    /// of the machine word.
    pub open spec fn roll_beside(self, row: usize, column: usize, dr: isize, dc: isize) -> nat {
        if self.holds_roll(row.wrapping_add_signed(dr), column.wrapping_add_signed(dc)) {
            1
        } else {
            0
        }
    }

    /// How many of the eight cells round the given one hold a roll.
    pub open spec fn adjacent_rolls(self, row: usize, column: usize) -> nat {
        self.roll_beside(row, column, BACK, BACK) + self.roll_beside(row, column, BACK, STAY)
            + self.roll_beside(row, column, BACK, AHEAD) + self.roll_beside(
            row,
            column,
            STAY,
            BACK,
        ) + self.roll_beside(row, column, STAY, AHEAD) + self.roll_beside(
            row,
            column,
            AHEAD,
            BACK,
        ) + self.roll_beside(row, column, AHEAD, STAY) + self.roll_beside(
            row,
            column,
            AHEAD,
            AHEAD,
        )
    }

    /// The place holds a roll with fewer than `n` rolls round it.
    pub open spec fn accessible(self, place: (usize, usize), n: usize) -> bool {
        self.cells[self.index(place.0 as int, place.1 as int)] == ROLL && self.adjacent_rolls(
            place.0,
            place.1,
        ) < n
    }

    /// The accessible places among the first `k` in row-major order.
    pub open spec fn accessible_upto(self, n: usize, k: int) -> Seq<(usize, usize)>
        decreases k,
    {
        if k <= 0 {
            seq![]
        } else {
            let before = self.accessible_upto(n, k - 1);
            let place = position(self.columns, k - 1);
            if self.accessible(place, n) {
                before.push(place)
            } else {
                before
            }
        }
    }

    /// The accessible places of the grid, in row-major order.
    pub open spec fn accessible_rolls(self, n: usize) -> Seq<(usize, usize)> {
        self.accessible_upto(n, self.rows * self.columns)
    }

    /// The grid once all its accessible rolls are taken away at once.
    pub open spec fn pruned(self, n: usize) -> Layout {
        Layout {
            rows: self.rows,
            columns: self.columns,
            cells: without(self.cells, self.columns, self.accessible_rolls(n)),
        }
    }

    /// How many rolls are taken away in all when accessible rolls are
    /// taken away round after round until none is left to take.
    pub open spec fn erosion(self, n: usize) -> nat
        decreases count_rolls(self.cells),
        when self.wf()
    {
        let taken = self.accessible_rolls(n).len();
        if taken == 0 {
            0
        } else {
            proof {
                lemma_pruned(self, n);
            }
            taken + self.pruned(n).erosion(n)
        }
    }
}

/// Clearing a cell takes one from the count of rolls where the cell held
/// one, and leaves the count where it held none.
pub proof fn lemma_clearing_counts(cells: Seq<u8>, i: int)
    requires
        0 <= i < cells.len(),
    ensures
        count_rolls(cells.update(i, CLEARED)) + (if cells[i] == ROLL {
            1nat
        } else {
            0nat
        }) == count_rolls(cells),
    decreases cells.len(),
{
    if i == cells.len() - 1 {
        assert(cells.update(i, CLEARED).drop_last() =~= cells.drop_last());
    } else {
        lemma_clearing_counts(cells.drop_last(), i);
        assert(cells.update(i, CLEARED).drop_last() =~= cells.drop_last().update(i, CLEARED));
    }
}

/// There are no more rolls than cells.
pub proof fn lemma_count_rolls_bound(cells: Seq<u8>)
    ensures
        count_rolls(cells) <= cells.len(),
    decreases cells.len(),
{
    if cells.len() > 0 {
        lemma_count_rolls_bound(cells.drop_last());
    }
}

/// The `k`-th place of a well-formed grid lies on it, and is stored
/// within the cells at a place that grows with `k`.
pub proof fn lemma_position(grid: Layout, k: int)
    requires
        grid.wf(),
        0 <= k < grid.rows * grid.columns,
    ensures
        ({
            let (r, c) = position(grid.columns, k);
            &&& grid.inside(r, c)
            &&& r == k / (grid.columns as int)
            &&& c == k % (grid.columns as int)
            &&& 0 <= grid.index(r as int, c as int) < grid.cells.len()
            &&& forall|j: int|
                0 <= j < k ==> grid.index(
                    (#[trigger] position(grid.columns, j)).0 as int,
                    position(grid.columns, j).1 as int,
                ) < grid.index(r as int, c as int)
        }),
{
    let cols = grid.columns as int;
    let rows = grid.rows as int;
    assert(cols > 0 && rows > 0) by (nonlinear_arith)
        requires
            0 <= k < rows * cols,
            0 <= cols,
            0 <= rows,
    ;
    lemma_fundamental_div_mod(k, cols);
    lemma_mod_bound(k, cols);
    let r = k / cols;
    let c = k % cols;
    assert(0 <= r < rows) by (nonlinear_arith)
        requires
            k == cols * r + c,
            0 <= c < cols,
            0 <= k < rows * cols,
    ;
    assert((cols + 1) * r + c < grid.cells.len()) by (nonlinear_arith)
        requires
            0 <= r < rows,
            0 <= c < cols,
            (cols + 1) * rows <= grid.cells.len() + 1,
    ;
    assert(0 <= (cols + 1) * r + c) by (nonlinear_arith)
        requires
            0 <= r,
            0 <= c,
            0 <= cols,
    ;
    assert forall|j: int| 0 <= j < k implies grid.index(
        (#[trigger] position(grid.columns, j)).0 as int,
        position(grid.columns, j).1 as int,
    ) < grid.index(r as int, c as int) by {
        lemma_fundamental_div_mod(j, cols);
        lemma_mod_bound(j, cols);
        lemma_div_is_ordered(j, k, cols);
        let rj = j / cols;
        let cj = j % cols;
        assert(0 <= rj) by (nonlinear_arith)
            requires
                j == cols * rj + cj,
                0 <= cj < cols,
                0 <= j,
        ;
        assert((cols + 1) * rj + cj < (cols + 1) * r + c) by (nonlinear_arith)
            requires
                j == cols * rj + cj,
                k == cols * r + c,
                0 <= cj < cols,
                0 <= c < cols,
                j < k,
                rj <= r,
        ;
    }
}

/// Clearing the accessible places among the first `k` leaves the cells
/// as many as they were, and the places cleared are no more than `k`.
pub proof fn lemma_cleared_len(grid: Layout, n: usize, k: int)
    requires
        grid.wf(),
        0 <= k <= grid.rows * grid.columns,
    ensures
        without(grid.cells, grid.columns, grid.accessible_upto(n, k)).len() == grid.cells.len(),
        grid.accessible_upto(n, k).len() <= k,
    decreases k,
{
    if k > 0 {
        lemma_cleared_len(grid, n, k - 1);
        lemma_position(grid, k - 1);
        let place = position(grid.columns, k - 1);
        if grid.accessible(place, n) {
            assert(grid.accessible_upto(n, k - 1).push(place).drop_last()
                =~= grid.accessible_upto(n, k - 1));
        }
    }
}

/// The place of row `r` and column `c` in row-major order.
pub open spec fn place_number(columns: usize, r: usize, c: usize) -> int {
    r * columns + c
}

/// Every place on the grid has its number in row-major order.
pub proof fn lemma_place_number(grid: Layout, r: usize, c: usize)
    requires
        grid.inside(r, c),
    ensures
        0 <= place_number(grid.columns, r, c) < grid.rows * grid.columns,
        position(grid.columns, place_number(grid.columns, r, c)) == (r, c),
{
    let cols = grid.columns as int;
    let rows = grid.rows as int;
    let k = place_number(grid.columns, r, c);
    assert(0 <= k < rows * cols) by (nonlinear_arith)
        requires
            k == r * cols + c,
            0 <= r < rows,
            0 <= c < cols,
    ;
    lemma_fundamental_div_mod_converse(k, cols, r as int, c as int);
}

/// Once the accessible places among the first `k` are cleared, a cell on
/// the grid is cleared where its place is among them, and is as it was
/// elsewhere.
pub proof fn lemma_cleared_cell(grid: Layout, n: usize, k: int, r: usize, c: usize)
    requires
        grid.wf(),
        0 <= k <= grid.rows * grid.columns,
        grid.inside(r, c),
    ensures
        without(grid.cells, grid.columns, grid.accessible_upto(n, k))[grid.index(
            r as int,
            c as int,
        )] == if place_number(grid.columns, r, c) < k && grid.accessible((r, c), n) {
            CLEARED
        } else {
            grid.cells[grid.index(r as int, c as int)]
        },
    decreases k,
{
    lemma_inside(grid, r, c);
    if k > 0 {
        lemma_cleared_cell(grid, n, k - 1, r, c);
        lemma_cleared_len(grid, n, k - 1);
        lemma_position(grid, k - 1);
        lemma_place_number(grid, r, c);
        let m = place_number(grid.columns, r, c);
        let place = position(grid.columns, k - 1);
        let before = grid.accessible_upto(n, k - 1);
        if grid.accessible(place, n) {
            assert(before.push(place).drop_last() =~= before);
        }
        if m < k - 1 {
            assert(position(grid.columns, m) == (r, c));
        } else if m > k - 1 {
            lemma_position(grid, m);
            assert(position(grid.columns, k - 1) == place);
        }
    }
}

/// Once the accessible places among the first `k` are cleared, as many
/// rolls are gone as places were cleared.
pub proof fn lemma_cleared_count(grid: Layout, n: usize, k: int)
    requires
        grid.wf(),
        0 <= k <= grid.rows * grid.columns,
    ensures
        count_rolls(without(grid.cells, grid.columns, grid.accessible_upto(n, k)))
            + grid.accessible_upto(n, k).len() == count_rolls(grid.cells),
    decreases k,
{
    if k > 0 {
        lemma_cleared_count(grid, n, k - 1);
        lemma_cleared_len(grid, n, k - 1);
        lemma_position(grid, k - 1);
        let place = position(grid.columns, k - 1);
        let before = grid.accessible_upto(n, k - 1);
        if grid.accessible(place, n) {
            assert(before.push(place).drop_last() =~= before);
            lemma_cleared_cell(grid, n, k - 1, place.0, place.1);
            lemma_place_number(grid, place.0, place.1);
            vstd::arithmetic::div_mod::lemma_fundamental_div_mod(k - 1, grid.columns as int);
            lemma_clearing_counts(
                without(grid.cells, grid.columns, before),
                grid.index(place.0 as int, place.1 as int),
            );
        }
    }
}

/// Taking the accessible rolls of a well-formed grid away leaves a
/// well-formed grid with as many rolls fewer as were taken.
pub proof fn lemma_pruned(grid: Layout, n: usize)
    requires
        grid.wf(),
    ensures
        grid.pruned(n).wf(),
        grid.pruned(n).cells.len() == grid.cells.len(),
        count_rolls(grid.pruned(n).cells) + grid.accessible_rolls(n).len() == count_rolls(
            grid.cells,
        ),
{
    assert(0 <= grid.rows * grid.columns) by (nonlinear_arith);
    lemma_cleared_len(grid, n, grid.rows * grid.columns);
    lemma_cleared_count(grid, n, grid.rows * grid.columns);
}

/// Taking the accessible rolls away clears the cells that held them and
/// changes no other cell of the grid.
pub proof fn lemma_pruned_cell(grid: Layout, n: usize, r: usize, c: usize)
    requires
        grid.wf(),
        grid.inside(r, c),
    ensures
        grid.pruned(n).cells[grid.index(r as int, c as int)] == if grid.accessible((r, c), n) {
            CLEARED
        } else {
            grid.cells[grid.index(r as int, c as int)]
        },
{
    assert(0 <= grid.rows * grid.columns) by (nonlinear_arith);
    lemma_place_number(grid, r, c);
    lemma_cleared_cell(grid, n, grid.rows * grid.columns, r, c);
}

/// `Itertools::cartesian_product` of the row numbers with the column
/// numbers, collected: every pair of a row and a column, each once, the
/// pairs of one row together and in the order of their columns, the rows
/// in their order. That there is memory for the pairs is taken for
/// granted, as it is wherever a vector grows.
#[verifier::external_body]
fn grid_positions(rows: usize, columns: usize) -> (places: Vec<(usize, usize)>)
    requires
        rows * columns <= usize::MAX,
    ensures
        places@ == positions(rows, columns),
{
    (0..rows).cartesian_product(0..columns).collect()
}

/// Where the first line of `bytes` ends.
fn first_line_end(bytes: &[u8]) -> (end: usize)
    ensures
        end == line_end(bytes@, 0),
        end <= bytes.len(),
{
    let mut at: usize = 0;
    while at < bytes.len() && bytes[at] != LINE_FEED
        invariant
            at <= bytes.len(),
            line_end(bytes@, 0) == line_end(bytes@, at as int),
        decreases bytes.len() - at,
    {
        at += 1;
    }
    at
}

impl vstd::std_specs::convert::FromSpecImpl<&str> for Grid {
    open spec fn obeys_from_spec() -> bool {
        false
    }

    open spec fn from_spec(s: &str) -> Grid {
        arbitrary()
    }
}

impl From<&str> for Grid {
    /// Reads a grid from its text, byte for byte.
    fn from(s: &str) -> (grid: Grid)
        ensures
            grid@ == layout_of(s.spec_bytes()),
            grid@.wf(),
    {
        let cells: Vec<u8> = s.as_bytes_vec();
        let len: usize = cells.len();
        let columns: usize = first_line_end(cells.as_slice());
        // One more than `len` may not fit, so the division is made on `len`.
        let rows: usize = if columns == len {
            1
        } else if len % (columns + 1) == columns {
            (len / (columns + 1)).saturating_add(1)
        } else {
            len / (columns + 1)
        };
        proof {
            let width = columns as int + 1;
            if columns == len {
                lemma_fundamental_div_mod_converse(len as int + 1, width, 1, 0);
            } else {
                lemma_fundamental_div_mod(len as int, width);
                let q = len as int / width;
                let r = len as int % width;
                if r == columns {
                    assert(len as int + 1 == (q + 1) * width + 0) by (nonlinear_arith)
                        requires
                            len as int == width * q + r,
                            r == width - 1,
                    ;
                    lemma_fundamental_div_mod_converse(len as int + 1, width, q + 1, 0);
                } else {
                    lemma_mod_bound(len as int, width);
                    assert(len as int + 1 == q * width + (r + 1)) by (nonlinear_arith)
                        requires
                            len as int == width * q + r,
                    ;
                    lemma_fundamental_div_mod_converse(len as int + 1, width, q, r + 1);
                }
            }
            lemma_fundamental_div_mod(len as int + 1, width);
            lemma_mod_bound(len as int + 1, width);
            assert((columns + 1) * rows <= len + 1) by (nonlinear_arith)
                requires
                    0 <= rows <= rows_in(len as int, columns as int),
                    len + 1 == width * rows_in(len as int, columns as int) + (len as int + 1)
                        % width,
                    0 <= (len as int + 1) % width,
                    width == columns + 1,
            ;
        }
        Grid { rows, columns, cells }
    }
}

impl Grid {
    /// The byte of the cell in row `r` and column `c`.
    pub fn at(&self, r: usize, c: usize) -> (cell: u8)
        requires
            self@.index(r as int, c as int) < self.cells@.len(),
        ensures
            cell == self.cells@[self@.index(r as int, c as int)],
    {
        let len: usize = self.cells.len();
        proof {
            assert(self.columns * r + r == (self.columns + 1) * r) by (nonlinear_arith);
            assert(0 <= self.columns * r) by (nonlinear_arith);
        }
        // Written so that nothing on the way exceeds the place itself.
        self.cells[self.columns * r + r + c]
    }

    /// Takes the roll, if any, from the cell in row `r` and column `c`.
    pub fn remove(&mut self, r: usize, c: usize)
        requires
            old(self)@.index(r as int, c as int) < old(self).cells@.len(),
        ensures
            final(self).rows == old(self).rows,
            final(self).columns == old(self).columns,
            final(self).cells@ == old(self).cells@.update(
                old(self)@.index(r as int, c as int),
                CLEARED,
            ),
    {
        let len: usize = self.cells.len();
        proof {
            assert(self.columns * r + r == (self.columns + 1) * r) by (nonlinear_arith);
            assert(0 <= self.columns * r) by (nonlinear_arith);
        }
        let place: usize = self.columns * r + r + c;
        self.cells.set(place, CLEARED);
    }

    /// One where the cell that lies `dr` rows and `dc` columns from the
    /// given one holds a roll, else none.
    fn roll_beside(&self, row: usize, column: usize, dr: isize, dc: isize) -> (rolls: usize)
        requires
            self@.wf(),
        ensures
            rolls == self@.roll_beside(row, column, dr, dc),
    {
        let r: usize = row.wrapping_add_signed(dr);
        let c: usize = column.wrapping_add_signed(dc);
        if r < self.rows && c < self.columns {
            proof {
                lemma_inside(self@, r, c);
            }
            if self.at(r, c) == ROLL {
                1
            } else {
                0
            }
        } else {
            0
        }
    }

    /// How many of the eight cells round the given one hold a roll.
    pub fn adj(&self, row: usize, column: usize) -> (rolls: usize)
        requires
            self@.wf(),
        ensures
            rolls == self@.adjacent_rolls(row, column),
            rolls <= 8,
    {
        self.roll_beside(row, column, BACK, BACK) + self.roll_beside(row, column, BACK, STAY)
            + self.roll_beside(row, column, BACK, AHEAD) + self.roll_beside(
            row,
            column,
            STAY,
            BACK,
        ) + self.roll_beside(row, column, STAY, AHEAD) + self.roll_beside(
            row,
            column,
            AHEAD,
            BACK,
        ) + self.roll_beside(row, column, AHEAD, STAY) + self.roll_beside(
            row,
            column,
            AHEAD,
            AHEAD,
        )
    }

    /// The places that hold a roll with fewer than `n` rolls round it, in
    /// row-major order.
    pub fn less_than(&self, n: usize) -> (found: Vec<(usize, usize)>)
        requires
            self@.wf(),
        ensures
            found@ == self@.accessible_rolls(n),
    {
        let len: usize = self.cells.len();
        proof {
            lemma_places_fit(self@);
        }
        let places: Vec<(usize, usize)> = grid_positions(self.rows, self.columns);
        let mut found: Vec<(usize, usize)> = Vec::new();
        let mut k: usize = 0;
        while k < places.len()
            invariant
                self@.wf(),
                k <= places.len(),
                places@ == positions(self.rows, self.columns),
                places@.len() == self.rows * self.columns,
                found@ == self@.accessible_upto(n, k as int),
            decreases places.len() - k,
        {
            let (r, c) = places[k];
            proof {
                lemma_position(self@, k as int);
            }
            if self.at(r, c) == ROLL && self.adj(r, c) < n {
                found.push((r, c));
            }
            k += 1;
        }
        found
    }

    /// How many places hold a roll with fewer than `n` rolls round it.
    pub fn count_less_than(self, n: usize) -> (count: usize)
        requires
            self@.wf(),
        ensures
            count == self@.accessible_rolls(n).len(),
    {
        self.less_than(n).len()
    }

    /// Takes away every roll with fewer than `n` rolls round it, all as
    /// they stood before any was taken, and says how many were taken.
    pub fn prune_less_than(&mut self, n: usize) -> (removed: usize)
        requires
            old(self)@.wf(),
        ensures
            removed == old(self)@.accessible_rolls(n).len(),
            final(self)@ == old(self)@.pruned(n),
            final(self)@.wf(),
    {
        let remove: Vec<(usize, usize)> = self.less_than(n);
        let removed: usize = remove.len();
        let ghost before = self@;
        let mut k: usize = 0;
        while k < remove.len()
            invariant
                k <= remove.len(),
                before.wf(),
                remove@ == before.accessible_rolls(n),
                self.rows == before.rows,
                self.columns == before.columns,
                self.cells@ == without(before.cells, before.columns, remove@.take(k as int)),
                self.cells@.len() == before.cells.len(),
            decreases remove.len() - k,
        {
            let (r, c) = remove[k];
            proof {
                lemma_accessible_inside(before, n, before.rows * before.columns, k as int);
                lemma_inside(before, r, c);
                assert(remove@.take(k + 1).drop_last() =~= remove@.take(k as int));
            }
            self.remove(r, c);
            k += 1;
        }
        proof {
            assert(remove@.take(k as int) =~= remove@);
            lemma_pruned(before, n);
        }
        removed
    }
}

/// A place on a well-formed grid is stored within its cells.
pub proof fn lemma_inside(grid: Layout, r: usize, c: usize)
    requires
        grid.wf(),
        grid.inside(r, c),
    ensures
        0 <= grid.index(r as int, c as int) < grid.cells.len(),
{
    let cols = grid.columns as int;
    let rows = grid.rows as int;
    assert(0 <= (cols + 1) * r + c < grid.cells.len()) by (nonlinear_arith)
        requires
            0 <= r < rows,
            0 <= c < cols,
            (cols + 1) * rows <= grid.cells.len() + 1,
    ;
}

/// A well-formed grid has no more places than a machine word counts.
pub proof fn lemma_places_fit(grid: Layout)
    requires
        grid.wf(),
    ensures
        0 <= grid.rows * grid.columns <= grid.cells.len(),
{
    let cols = grid.columns as int;
    let rows = grid.rows as int;
    assert(0 <= rows * cols <= grid.cells.len()) by (nonlinear_arith)
        requires
            0 <= rows,
            0 <= cols,
            (cols + 1) * rows <= grid.cells.len() + 1,
    ;
}

/// Every accessible place that is listed lies on the grid.
pub proof fn lemma_accessible_inside(grid: Layout, n: usize, k: int, j: int)
    requires
        grid.wf(),
        0 <= k <= grid.rows * grid.columns,
        0 <= j < grid.accessible_upto(n, k).len(),
    ensures
        grid.inside(grid.accessible_upto(n, k)[j].0, grid.accessible_upto(n, k)[j].1),
    decreases k,
{
    if k > 0 {
        let before = grid.accessible_upto(n, k - 1);
        if j < before.len() {
            lemma_accessible_inside(grid, n, k - 1, j);
        } else {
            lemma_position(grid, k - 1);
        }
    }
}

/// How many places of the grid hold a roll with fewer than four rolls
/// round them.
pub open spec fn answer_1(input: Seq<u8>) -> nat {
    layout_of(input).accessible_rolls(4).len()
}

/// How many rolls are taken from the grid in all when those with fewer
/// than four rolls round them are taken away round after round.
pub open spec fn answer_2(input: Seq<u8>) -> nat {
    layout_of(input).erosion(4)
}

/// How many rolls of the grid can be reached.
pub fn part_1(input: &str) -> (count: usize)
    ensures
        count == answer_1(input.spec_bytes()),
{
    let grid: Grid = Grid::from(input);
    grid.less_than(4).len()
}

/// How many rolls can be taken from the grid in all.
pub fn part_2(input: &str) -> (total: usize)
    ensures
        total == answer_2(input.spec_bytes()),
{
    let mut grid: Grid = Grid::from(input);
    let ghost first = grid@;
    let len: usize = grid.cells.len();
    let mut total: usize = 0;
    proof {
        lemma_count_rolls_bound(first.cells);
    }
    loop
        invariant
            grid@.wf(),
            total + grid@.erosion(4) == first.erosion(4),
            total + count_rolls(grid@.cells) <= usize::MAX,
        ensures
            total == first.erosion(4),
        decreases count_rolls(grid@.cells),
    {
        proof {
            lemma_pruned(grid@, 4);
        }
        let removed: usize = grid.prune_less_than(4);
        if removed == 0 {
            break ;
        }
        total += removed;
    }
    total
}

} // verus!
