//! A worksheet of sums and products. The problems stand side by side: the
//! numbers of a problem one above the other, the sign of its operation on
//! the last line below them.

use crate::decimal::{digit_of, digit_value, is_digit, is_digit_char, parse_unsigned, parse_usize};
use crate::sums::in_usize;
use crate::text::{chars_of, lines, split_lines, split_words, texts, words};
use vstd::prelude::*;

verus! {

/// What a problem does with its numbers.
#[derive(Clone, Copy, Debug, PartialEq, Eq, Structural)]
pub enum Op {
    Add,
    Mul,
}

/// The numbers of one problem as far as they are taken together.
#[derive(Clone, Copy, Debug, PartialEq, Eq, Structural)]
pub struct Accumulator {
    pub op: Op,
    pub val: usize,
}

/// The operation that `token` names: `+` or `*`.
pub open spec fn parse_op(token: Seq<char>) -> Option<Op> {
    if token == seq!['+'] {
        Some(Op::Add)
    } else if token == seq!['*'] {
        Some(Op::Mul)
    } else {
        None
    }
}

impl Accumulator {
    /// An accumulator that has taken no number yet: it holds what leaves
    /// the first number as it is.
    pub open spec fn start(op: Op) -> Accumulator {
        Accumulator {
            op,
            val: match op {
                Op::Add => 0,
                Op::Mul => 1,
            },
        }
    }

    /// What the accumulator holds once it has taken `val`.
    pub open spec fn next(self, val: usize) -> int {
        match self.op {
            Op::Add => self.val + val,
            Op::Mul => self.val * val,
        }
    }

    /// The accumulator once it has taken `val`, if a machine word holds
    /// the result.
    pub open spec fn taken(self, val: usize) -> Option<Accumulator> {
        if self.next(val) <= usize::MAX {
            Some(Accumulator { op: self.op, val: self.next(val) as usize })
        } else {
            None
        }
    }
}

/// One fresh accumulator for each sign, if every token is a sign.
pub open spec fn start_row(tokens: Seq<Seq<char>>) -> Option<Seq<Accumulator>>
    decreases tokens.len(),
{
    if tokens.len() == 0 {
        Some(seq![])
    } else {
        match (start_row(tokens.drop_last()), parse_op(tokens.last())) {
            (Some(before), Some(op)) => Some(before.push(Accumulator::start(op))),
            _ => None,
        }
    }
}

/// The accumulators once the first `k` of them have each taken the number
/// that the token of the same place writes.
pub open spec fn applied(accs: Seq<Accumulator>, tokens: Seq<Seq<char>>, k: int) -> Option<
    Seq<Accumulator>,
>
    decreases k,
{
    if k <= 0 {
        Some(accs)
    } else {
        match (applied(accs, tokens, k - 1), parse_unsigned(tokens[k - 1], usize::MAX as nat)) {
            (Some(before), Some(number)) => match before[k - 1].taken(number as usize) {
                Some(next) => Some(before.update(k - 1, next)),
                None => None,
            },
            _ => None,
        }
    }
}

/// The accumulators once each has taken its number from a row of tokens.
/// The row may be shorter or longer than the accumulators are many: what
/// has no partner is left alone, and is not read.
pub open spec fn row_applied(accs: Seq<Accumulator>, tokens: Seq<Seq<char>>) -> Option<
    Seq<Accumulator>,
> {
    applied(
        accs,
        tokens,
        if accs.len() <= tokens.len() {
            accs.len() as int
        } else {
            tokens.len() as int
        },
    )
}

/// The accumulators once they have taken the rows from the last one up to
/// the one at `from`, in that order.
pub open spec fn rows_applied(accs: Seq<Accumulator>, rows: Seq<Seq<char>>, from: int) -> Option<
    Seq<Accumulator>,
>
    decreases rows.len() - from,
{
    if from >= rows.len() {
        Some(accs)
    } else {
        match rows_applied(accs, rows, from + 1) {
            Some(before) => row_applied(before, words(rows[from])),
            None => None,
        }
    }
}

/// The sum of what the accumulators hold.
pub open spec fn total_of(accs: Seq<Accumulator>) -> nat
    decreases accs.len(),
{
    if accs.len() == 0 {
        0
    } else {
        total_of(accs.drop_last()) + accs.last().val as nat
    }
}

/// The sum of the results of all problems, where each number is a word of
/// its line and belongs to the problem whose sign has the same place among
/// the words of the last line.
pub open spec fn answer_1(input: Seq<char>) -> Option<nat> {
    let rows = lines(input);
    if rows.len() == 0 {
        None
    } else {
        match start_row(words(rows.last())) {
            Some(accs) => match rows_applied(accs, rows.drop_last(), 0) {
                Some(done) => Some(total_of(done)),
                None => None,
            },
            None => None,
        }
    }
}

/// Where the rows cannot all be taken from some row on, they cannot all
/// be taken from any row before it.
pub proof fn lemma_rows_applied_none(
    accs: Seq<Accumulator>,
    rows: Seq<Seq<char>>,
    from: int,
    to: int,
)
    requires
        0 <= to <= from <= rows.len(),
        rows_applied(accs, rows, from).is_none(),
    ensures
        rows_applied(accs, rows, to).is_none(),
    decreases from - to,
{
    if to < from {
        lemma_rows_applied_none(accs, rows, from, to + 1);
    }
}

/// Where the first `k` accumulators cannot take their numbers, neither
/// can the first `n`, for `n` beyond `k`.
pub proof fn lemma_applied_none(accs: Seq<Accumulator>, tokens: Seq<Seq<char>>, k: int, n: int)
    requires
        0 <= k <= n,
        applied(accs, tokens, k).is_none(),
    ensures
        applied(accs, tokens, n).is_none(),
    decreases n - k,
{
    if k < n {
        lemma_applied_none(accs, tokens, k, n - 1);
    }
}

impl Default for Op {
    fn default() -> (op: Op)
        ensures
            op == Op::Add,
    {
        Op::Add
    }
}

impl Op {
    /// The operation that `token` names, if it names one.
    pub fn parse(token: &[char]) -> (op: Option<Op>)
        ensures
            op == parse_op(token@),
    {
        if token.len() == 1 && token[0] == '+' {
            assert(token@ =~= seq!['+']);
            Some(Op::Add)
        } else if token.len() == 1 && token[0] == '*' {
            assert(token@ =~= seq!['*']);
            Some(Op::Mul)
        } else {
            assert(token@ != seq!['+'] && token@ != seq!['*']) by {
                assert(seq!['+'].len() == 1 && seq!['+'][0] == '+');
                assert(seq!['*'].len() == 1 && seq!['*'][0] == '*');
            }
            None
        }
    }

    /// The operation that `value` names.
    pub fn from(value: &str) -> (op: Op)
        requires
            parse_op(value@).is_some(),
        ensures
            Some(op) == parse_op(value@),
    {
        let token: Vec<char> = chars_of(value);
        match Op::parse(token.as_slice()) {
            Some(op) => op,
            None => vstd::pervasive::unreached(),
        }
    }
}

impl vstd::std_specs::convert::FromSpecImpl<Op> for Accumulator {
    open spec fn obeys_from_spec() -> bool {
        true
    }

    open spec fn from_spec(op: Op) -> Accumulator {
        Accumulator::start(op)
    }
}

impl From<Op> for Accumulator {
    /// An accumulator that has taken no number yet.
    fn from(op: Op) -> (acc: Accumulator)
        ensures
            acc == Accumulator::start(op),
    {
        let val: usize = match op {
            Op::Add => 0,
            Op::Mul => 1,
        };
        Accumulator { op, val }
    }
}

impl Accumulator {
    /// The accumulator once it has taken `val`, if a machine word holds
    /// the result.
    pub fn checked_acc(&self, val: usize) -> (next: Option<Accumulator>)
        ensures
            next == self.taken(val),
    {
        let held: Option<usize> = match self.op {
            Op::Add => self.val.checked_add(val),
            Op::Mul => self.val.checked_mul(val),
        };
        match held {
            Some(val) => Some(Accumulator { op: self.op, val }),
            None => None,
        }
    }

    /// Takes `val`: adds it to what is held, or multiplies what is held
    /// by it.
    pub fn acc(&mut self, val: usize)
        requires
            old(self).taken(val).is_some(),
        ensures
            Some(*final(self)) == old(self).taken(val),
    {
        self.val = match self.op {
            Op::Add => self.val + val,
            Op::Mul => self.val * val,
        }
    }
}

/// One fresh accumulator for each sign, if every token is a sign.
pub fn start_accumulators(tokens: &Vec<Vec<char>>) -> (accs: Option<Vec<Accumulator>>)
    ensures
        match accs {
            Some(accs) => start_row(texts(tokens@)) == Some(accs@),
            None => start_row(texts(tokens@)).is_none(),
        },
{
    let ghost all = texts(tokens@);
    let mut accs: Vec<Accumulator> = Vec::new();
    let mut k: usize = 0;
    while k < tokens.len()
        invariant
            k <= tokens.len(),
            all == texts(tokens@),
            start_row(all.take(k as int)) == Some(accs@),
        decreases tokens.len() - k,
    {
        proof {
            assert(all.take(k + 1).drop_last() =~= all.take(k as int));
            if start_row(all).is_some() {
                lemma_start_row_prefix(all, k + 1);
            }
        }
        match Op::parse(tokens[k].as_slice()) {
            Some(op) => {
                accs.push(Accumulator::from(op));
            },
            None => {
                return None;
            },
        }
        k += 1;
    }
    assert(all.take(k as int) =~= all);
    Some(accs)
}

/// Where every token is a sign, so is every token of a prefix.
pub proof fn lemma_start_row_prefix(tokens: Seq<Seq<char>>, k: int)
    requires
        0 <= k <= tokens.len(),
        start_row(tokens).is_some(),
    ensures
        start_row(tokens.take(k)).is_some(),
    decreases tokens.len() - k,
{
    if k == tokens.len() {
        assert(tokens.take(k) =~= tokens);
    } else {
        lemma_start_row_prefix(tokens, k + 1);
        assert(tokens.take(k + 1).drop_last() =~= tokens.take(k));
    }
}

/// Lets each accumulator take its number from a row of tokens, and says
/// whether all that had a number could take it.
pub fn apply_row(accs: &mut Vec<Accumulator>, tokens: &Vec<Vec<char>>) -> (done: bool)
    ensures
        done ==> row_applied(old(accs)@, texts(tokens@)) == Some(final(accs)@),
        !done ==> row_applied(old(accs)@, texts(tokens@)).is_none(),
{
    let ghost all = texts(tokens@);
    let pairs: usize = if accs.len() <= tokens.len() {
        accs.len()
    } else {
        tokens.len()
    };
    let mut k: usize = 0;
    while k < pairs
        invariant
            k <= pairs,
            pairs <= tokens.len(),
            pairs <= accs.len(),
            accs.len() == old(accs).len(),
            all == texts(tokens@),
            row_applied(old(accs)@, all) == applied(old(accs)@, all, pairs as int),
            applied(old(accs)@, all, k as int) == Some(accs@),
        decreases pairs - k,
    {
        assert(all[k as int] == tokens@[k as int]@);
        let step: Option<Accumulator> = match parse_usize(tokens[k].as_slice()) {
            Some(number) => accs[k].checked_acc(number),
            None => None,
        };
        match step {
            Some(next) => {
                accs.set(k, next);
            },
            None => {
                proof {
                    lemma_applied_none(old(accs)@, all, k + 1, pairs as int);
                }
                return false;
            },
        }
        k += 1;
    }
    true
}

/// The sum of what the accumulators hold, if a machine word holds it.
pub fn sum_accumulators(accs: &Vec<Accumulator>) -> (total: Option<usize>)
    ensures
        total == in_usize(Some(total_of(accs@))),
{
    let mut total: usize = 0;
    let mut k: usize = 0;
    while k < accs.len()
        invariant
            k <= accs.len(),
            total == total_of(accs@.take(k as int)),
        decreases accs.len() - k,
    {
        proof {
            assert(accs@.take(k + 1).drop_last() =~= accs@.take(k as int));
            lemma_total_of_prefix(accs@, k + 1);
        }
        match total.checked_add(accs[k].val) {
            Some(sum) => {
                total = sum;
            },
            None => {
                return None;
            },
        }
        k += 1;
    }
    assert(accs@.take(k as int) =~= accs@);
    Some(total)
}

/// What a prefix of the accumulators holds is no more than what all hold.
pub proof fn lemma_total_of_prefix(accs: Seq<Accumulator>, k: int)
    requires
        0 <= k <= accs.len(),
    ensures
        total_of(accs.take(k)) <= total_of(accs),
    decreases accs.len() - k,
{
    if k == accs.len() {
        assert(accs.take(k) =~= accs);
    } else {
        lemma_total_of_prefix(accs, k + 1);
        assert(accs.take(k + 1).drop_last() =~= accs.take(k));
    }
}

/// The sum of the results of all problems read by words; none where the
/// input has no line, a word is not what it should be, or a machine word
/// cannot hold a result.
pub fn checked_part_1(input: &str) -> (total: Option<usize>)
    ensures
        total == in_usize(answer_1(input@)),
{
    let text: Vec<char> = chars_of(input);
    let rows: Vec<Vec<char>> = split_lines(text.as_slice());
    if rows.len() == 0 {
        return None;
    }
    let last: usize = rows.len() - 1;
    let signs: Vec<Vec<char>> = split_words(rows[last].as_slice());
    let mut accs: Vec<Accumulator> = match start_accumulators(&signs) {
        Some(accs) => accs,
        None => {
            return None;
        },
    };
    let ghost all = texts(rows@);
    let ghost above = all.drop_last();
    let ghost fresh = accs@;
    let mut from: usize = last;
    while from > 0
        invariant
            from <= last,
            last + 1 == rows.len(),
            all == texts(rows@),
            above == all.drop_last(),
            answer_1(input@) == match rows_applied(fresh, above, 0) {
                Some(done) => Some(total_of(done)),
                None => None,
            },
            rows_applied(fresh, above, from as int) == Some(accs@),
        decreases from,
    {
        from -= 1;
        let tokens: Vec<Vec<char>> = split_words(rows[from].as_slice());
        assert(above[from as int] == rows@[from as int]@);
        if !apply_row(&mut accs, &tokens) {
            proof {
                lemma_rows_applied_none(fresh, above, from as int, 0);
            }
            return None;
        }
    }
    sum_accumulators(&accs)
}

/// The sum of the results of all problems read by words.
pub fn part_1(input: &str) -> (total: usize)
    requires
        in_usize(answer_1(input@)).is_some(),
    ensures
        Some(total) == in_usize(answer_1(input@)),
{
    match checked_part_1(input) {
        Some(total) => total,
        None => vstd::pervasive::unreached(),
    }
}

/// The worksheet as a grid of characters, one row to a line.
#[derive(Debug, Clone, Default)]
pub struct Grid {
    pub grid: Vec<Vec<char>>,
}

impl View for Grid {
    type V = Seq<Seq<char>>;

    open spec fn view(&self) -> Seq<Seq<char>> {
        texts(self.grid@)
    }
}

impl Grid {
    /// The grid whose rows are `rows`.
    pub fn from_iter(rows: Vec<Vec<char>>) -> (grid: Grid)
        ensures
            grid@ == texts(rows@),
    {
        Grid { grid: rows }
    }

    /// The width of the grid: the length of its first row.
    pub fn w(&self) -> (width: usize)
        requires
            self@.len() > 0,
        ensures
            width == self@[0].len(),
    {
        self.grid[0].len()
    }

    /// The height of the grid: the number of its rows.
    pub fn h(&self) -> (height: usize)
        ensures
            height == self@.len(),
    {
        self.grid.len()
    }

    /// The character in row `r` and column `c`.
    pub fn at(&self, r: usize, c: usize) -> (cell: char)
        requires
            r < self@.len(),
            c < self@[r as int].len(),
        ensures
            cell == self@[r as int][c as int],
    {
        self.grid[r][c]
    }
}

/// The sum of `numbers`, taken from the first on, if a machine word holds
/// it.
pub open spec fn bounded_sum(numbers: Seq<usize>) -> Option<usize>
    decreases numbers.len(),
{
    if numbers.len() == 0 {
        Some(0)
    } else {
        match bounded_sum(numbers.drop_last()) {
            Some(before) => if before + numbers.last() <= usize::MAX {
                Some((before + numbers.last()) as usize)
            } else {
                None
            },
            None => None,
        }
    }
}

/// The product of `numbers`, taken from the first on, if a machine word
/// holds it at every step.
pub open spec fn bounded_product(numbers: Seq<usize>) -> Option<usize>
    decreases numbers.len(),
{
    if numbers.len() == 0 {
        Some(1)
    } else {
        match bounded_product(numbers.drop_last()) {
            Some(before) => if before * numbers.last() <= usize::MAX {
                Some((before * numbers.last()) as usize)
            } else {
                None
            },
            None => None,
        }
    }
}

/// How far the reading of the worksheet by columns has come.
pub struct Tally {
    /// The sum of the results of the problems read so far.
    pub total: usize,
    /// The numbers of the problem that is being read, one to a column.
    pub numbers: Seq<usize>,
    /// Which of the numbers the column that is being read writes.
    pub op_idx: usize,
    /// The problem has been read up to its sign: the next column is the
    /// gap before the next problem.
    pub op_complete: bool,
}

/// A reading that has not begun.
pub open spec fn fresh_tally() -> Tally {
    Tally { total: 0, numbers: seq![], op_idx: 0, op_complete: false }
}

/// As many of the numbers as enter a product: one fewer than the grid
/// has rows, or all where there are not so many.
pub open spec fn factors(numbers: Seq<usize>, height: int) -> Seq<usize> {
    if height - 1 <= numbers.len() {
        numbers.take(height - 1)
    } else {
        numbers
    }
}

/// The reading once the character `c` of a column is read, `bottom`
/// telling whether it stands in the last row. A digit is appended to the
/// number of the column; a blank in the last row ends the number; a sign
/// closes the problem and adds its result to the total; anything else is
/// passed over. There is no reading where a machine word cannot hold a
/// number, or there is no number for a digit to go to.
pub open spec fn cell_step(t: Tally, c: char, bottom: bool, height: int) -> Option<Tally> {
    if is_digit(c) {
        if t.op_idx < t.numbers.len() && t.numbers[t.op_idx as int] * 10 + digit_value(c)
            <= usize::MAX {
            Some(
                Tally {
                    numbers: t.numbers.update(
                        t.op_idx as int,
                        (t.numbers[t.op_idx as int] * 10 + digit_value(c)) as usize,
                    ),
                    ..t
                },
            )
        } else {
            None
        }
    } else if c == ' ' && bottom {
        if t.op_idx < usize::MAX {
            Some(Tally { op_idx: (t.op_idx + 1) as usize, ..t })
        } else {
            None
        }
    } else if c == '+' {
        match bounded_sum(t.numbers) {
            Some(value) => if t.total + value <= usize::MAX {
                Some(Tally { total: (t.total + value) as usize, op_complete: true, ..t })
            } else {
                None
            },
            None => None,
        }
    } else if c == '*' {
        match bounded_product(factors(t.numbers, height)) {
            Some(value) => if t.total + value <= usize::MAX {
                Some(Tally { total: (t.total + value) as usize, op_complete: true, ..t })
            } else {
                None
            },
            None => None,
        }
    } else {
        Some(t)
    }
}

/// The reading once the first `row` rows of a column are read, from the
/// top down. There is none where a row is too short to have the column.
pub open spec fn cells_read(t: Tally, grid: Seq<Seq<char>>, column: int, row: int) -> Option<Tally>
    decreases row,
{
    if row <= 0 {
        Some(t)
    } else {
        match cells_read(t, grid, column, row - 1) {
            Some(before) => if column < grid[row - 1].len() {
                cell_step(before, grid[row - 1][column], row == grid.len(), grid.len() as int)
            } else {
                None
            },
            None => None,
        }
    }
}

/// The reading once a column is dealt with. The column behind a sign is
/// not read: the reading starts afresh there. Any other column begins a
/// new number and is read from the top down.
pub open spec fn column_read(t: Tally, grid: Seq<Seq<char>>, column: int) -> Option<Tally> {
    if t.op_complete {
        Some(Tally { total: t.total, numbers: seq![], op_idx: 0, op_complete: false })
    } else {
        cells_read(Tally { numbers: t.numbers.push(0), ..t }, grid, column, grid.len() as int)
    }
}

/// The reading once the columns from the last one back to the one at
/// `column` are dealt with, in that order.
pub open spec fn columns_read(grid: Seq<Seq<char>>, column: int) -> Option<Tally>
    recommends
        grid.len() > 0,
    decreases grid[0].len() - column,
{
    if column >= grid[0].len() {
        Some(fresh_tally())
    } else {
        match columns_read(grid, column + 1) {
            Some(before) => column_read(before, grid, column),
            None => None,
        }
    }
}

/// The sum of the results of all problems, where each number is written
/// down a column and the columns of a problem are read from the right.
pub open spec fn answer_2(input: Seq<char>) -> Option<nat> {
    let grid = lines(input);
    if grid.len() == 0 {
        None
    } else {
        match columns_read(grid, 0) {
            Some(done) => Some(done.total as nat),
            None => None,
        }
    }
}

/// A reading that has broken off stays broken off down the column.
pub proof fn lemma_cells_read_none(t: Tally, grid: Seq<Seq<char>>, column: int, row: int, to: int)
    requires
        0 <= row <= to,
        cells_read(t, grid, column, row).is_none(),
    ensures
        cells_read(t, grid, column, to).is_none(),
    decreases to - row,
{
    if row < to {
        lemma_cells_read_none(t, grid, column, row, to - 1);
    }
}

/// A reading that has broken off stays broken off across the columns.
pub proof fn lemma_columns_read_none(grid: Seq<Seq<char>>, column: int, to: int)
    requires
        0 <= to <= column,
        columns_read(grid, column).is_none(),
    ensures
        columns_read(grid, to).is_none(),
    decreases column - to,
{
    if to < column {
        lemma_columns_read_none(grid, column, to + 1);
    }
}

/// While a column is read, the number that its digits go to is there,
/// and it stays the same number until the last row is read.
pub proof fn lemma_digits_find_their_number(
    t: Tally,
    grid: Seq<Seq<char>>,
    column: int,
    row: int,
)
    requires
        t.op_idx < t.numbers.len(),
        0 <= row <= grid.len(),
    ensures
        cells_read(t, grid, column, row) matches Some(after) ==> {
            &&& after.numbers.len() == t.numbers.len()
            &&& row < grid.len() ==> after.op_idx == t.op_idx
            &&& t.op_idx <= after.op_idx <= t.op_idx + 1
        },
    decreases row,
{
    if row > 0 {
        lemma_digits_find_their_number(t, grid, column, row - 1);
    }
}

/// Between two columns, the numbers of the problem that is being read
/// are at least as many as the columns that wrote one.
pub proof fn lemma_columns_keep_step(grid: Seq<Seq<char>>, column: int)
    requires
        0 <= column,
    ensures
        columns_read(grid, column) matches Some(t) ==> t.op_idx <= t.numbers.len(),
    decreases grid[0].len() - column,
{
    if column < grid[0].len() {
        lemma_columns_keep_step(grid, column + 1);
        match columns_read(grid, column + 1) {
            Some(before) => {
                if !before.op_complete {
                    lemma_digits_find_their_number(
                        Tally { numbers: before.numbers.push(0), ..before },
                        grid,
                        column,
                        grid.len() as int,
                    );
                }
            },
            None => {},
        }
    }
}

/// How far the reading of the worksheet by columns has come.
pub struct Worksheet {
    pub total: usize,
    pub numbers: Vec<usize>,
    pub op_idx: usize,
    pub op_complete: bool,
}

impl View for Worksheet {
    type V = Tally;

    open spec fn view(&self) -> Tally {
        Tally {
            total: self.total,
            numbers: self.numbers@,
            op_idx: self.op_idx,
            op_complete: self.op_complete,
        }
    }
}

/// The sum of `numbers`, if a machine word holds it.
pub fn sum_numbers(numbers: &[usize]) -> (sum: Option<usize>)
    ensures
        sum == bounded_sum(numbers@),
{
    let mut sum: usize = 0;
    let mut k: usize = 0;
    while k < numbers.len()
        invariant
            k <= numbers.len(),
            bounded_sum(numbers@.take(k as int)) == Some(sum),
        decreases numbers.len() - k,
    {
        proof {
            assert(numbers@.take(k + 1).drop_last() =~= numbers@.take(k as int));
        }
        match sum.checked_add(numbers[k]) {
            Some(next) => {
                sum = next;
            },
            None => {
                proof {
                    lemma_bounded_sum_none(numbers@, k + 1);
                }
                return None;
            },
        }
        k += 1;
    }
    assert(numbers@.take(k as int) =~= numbers@);
    Some(sum)
}

/// The product of `numbers`, if a machine word holds it at every step.
pub fn multiply_numbers(numbers: &[usize]) -> (product: Option<usize>)
    ensures
        product == bounded_product(numbers@),
{
    let mut product: usize = 1;
    let mut k: usize = 0;
    while k < numbers.len()
        invariant
            k <= numbers.len(),
            bounded_product(numbers@.take(k as int)) == Some(product),
        decreases numbers.len() - k,
    {
        proof {
            assert(numbers@.take(k + 1).drop_last() =~= numbers@.take(k as int));
        }
        match product.checked_mul(numbers[k]) {
            Some(next) => {
                product = next;
            },
            None => {
                proof {
                    lemma_bounded_product_none(numbers@, k + 1);
                }
                return None;
            },
        }
        k += 1;
    }
    assert(numbers@.take(k as int) =~= numbers@);
    Some(product)
}

/// Where a prefix of the numbers has no sum, the numbers have none.
pub proof fn lemma_bounded_sum_none(numbers: Seq<usize>, k: int)
    requires
        0 <= k <= numbers.len(),
        bounded_sum(numbers.take(k)).is_none(),
    ensures
        bounded_sum(numbers).is_none(),
    decreases numbers.len() - k,
{
    if k == numbers.len() {
        assert(numbers.take(k) =~= numbers);
    } else {
        assert(numbers.take(k + 1).drop_last() =~= numbers.take(k));
        lemma_bounded_sum_none(numbers, k + 1);
    }
}

/// Where a prefix of the numbers has no product, the numbers have none.
pub proof fn lemma_bounded_product_none(numbers: Seq<usize>, k: int)
    requires
        0 <= k <= numbers.len(),
        bounded_product(numbers.take(k)).is_none(),
    ensures
        bounded_product(numbers).is_none(),
    decreases numbers.len() - k,
{
    if k == numbers.len() {
        assert(numbers.take(k) =~= numbers);
    } else {
        assert(numbers.take(k + 1).drop_last() =~= numbers.take(k));
        lemma_bounded_product_none(numbers, k + 1);
    }
}

impl Worksheet {
    /// A reading that has not begun.
    pub fn new() -> (sheet: Worksheet)
        ensures
            sheet@ == fresh_tally(),
    {
        Worksheet { total: 0, numbers: Vec::new(), op_idx: 0, op_complete: false }
    }

    /// Reads the character `c` of a column, `bottom` telling whether it
    /// stands in the last of `height` rows, and says whether the reading
    /// goes on.
    pub fn read_cell(&mut self, c: char, bottom: bool, height: usize) -> (done: bool)
        requires
            height >= 1,
        ensures
            done ==> cell_step(old(self)@, c, bottom, height as int) == Some(final(self)@),
            !done ==> cell_step(old(self)@, c, bottom, height as int).is_none(),
    {
        if is_digit_char(c) {
            if self.op_idx >= self.numbers.len() {
                return false;
            }
            let grown: Option<usize> = match self.numbers[self.op_idx].checked_mul(10) {
                Some(shifted) => shifted.checked_add(digit_of(c) as usize),
                None => None,
            };
            match grown {
                Some(number) => {
                    self.numbers.set(self.op_idx, number);
                    true
                },
                None => false,
            }
        } else if c == ' ' && bottom {
            match self.op_idx.checked_add(1) {
                Some(next) => {
                    self.op_idx = next;
                    true
                },
                None => false,
            }
        } else if c == '+' {
            let value: Option<usize> = match sum_numbers(self.numbers.as_slice()) {
                Some(value) => self.total.checked_add(value),
                None => None,
            };
            match value {
                Some(total) => {
                    self.total = total;
                    self.op_complete = true;
                    true
                },
                None => false,
            }
        } else if c == '*' {
            let used: usize = if height - 1 <= self.numbers.len() {
                height - 1
            } else {
                self.numbers.len()
            };
            proof {
                assert(self.numbers@.subrange(0, used as int) =~= factors(
                    self.numbers@,
                    height as int,
                ));
            }
            let value: Option<usize> = match multiply_numbers(&self.numbers.as_slice()[0..used]) {
                Some(value) => self.total.checked_add(value),
                None => None,
            };
            match value {
                Some(total) => {
                    self.total = total;
                    self.op_complete = true;
                    true
                },
                None => false,
            }
        } else {
            true
        }
    }

    /// Deals with one column of the grid, and says whether the reading
    /// goes on.
    pub fn read_column(&mut self, grid: &Grid, column: usize) -> (done: bool)
        requires
            grid@.len() > 0,
        ensures
            done ==> column_read(old(self)@, grid@, column as int) == Some(final(self)@),
            !done ==> column_read(old(self)@, grid@, column as int).is_none(),
    {
        if self.op_complete {
            self.op_complete = false;
            self.op_idx = 0;
            self.numbers.clear();
            return true;
        }
        self.numbers.push(0);
        let ghost begun = self@;
        let h: usize = grid.h();
        let mut row: usize = 0;
        while row < h
            invariant
                row <= h,
                h == grid@.len(),
                h >= 1,
                column_read(old(self)@, grid@, column as int) == cells_read(
                    begun,
                    grid@,
                    column as int,
                    h as int,
                ),
                cells_read(begun, grid@, column as int, row as int) == Some(self@),
            decreases h - row,
        {
            if column >= grid.grid[row].len() {
                proof {
                    lemma_cells_read_none(begun, grid@, column as int, row + 1, h as int);
                }
                return false;
            }
            let c: char = grid.at(row, column);
            if !self.read_cell(c, row == h - 1, h) {
                proof {
                    lemma_cells_read_none(begun, grid@, column as int, row + 1, h as int);
                }
                return false;
            }
            row += 1;
        }
        true
    }
}

/// The sum of the results of all problems read by columns; none where the
/// input has no line, a line is too short, or a machine word cannot hold a
/// number.
pub fn checked_part_2(input: &str) -> (total: Option<usize>)
    ensures
        total == in_usize(answer_2(input@)),
{
    let text: Vec<char> = chars_of(input);
    let grid: Grid = Grid::from_iter(split_lines(text.as_slice()));
    if grid.h() == 0 {
        return None;
    }
    let w: usize = grid.w();
    let mut sheet: Worksheet = Worksheet::new();
    let mut column: usize = w;
    while column > 0
        invariant
            column <= w,
            grid@ == lines(input@),
            grid@.len() > 0,
            w == grid@[0].len(),
            columns_read(grid@, column as int) == Some(sheet@),
        decreases column,
    {
        column -= 1;
        if !sheet.read_column(&grid, column) {
            proof {
                lemma_columns_read_none(grid@, column as int, 0);
            }
            return None;
        }
    }
    Some(sheet.total)
}

/// The sum of the results of all problems read by columns.
pub fn part_2(input: &str) -> (total: usize)
    requires
        in_usize(answer_2(input@)).is_some(),
    ensures
        Some(total) == in_usize(answer_2(input@)),
{
    match checked_part_2(input) {
        Some(total) => total,
        None => vstd::pervasive::unreached(),
    }
}

} // verus!
