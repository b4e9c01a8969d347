//! Fresh ingredients. The input lists ranges of identifiers, a blank
//! line, and identifiers; an identifier is fresh where some range holds it.

use crate::decimal::{parse_unsigned, parse_usize};
use crate::sums::{in_usize, lemma_sum_of_prefix, lemma_sum_of_step, sum_of};
use crate::text::{chars_of, find_char, find_from, lines, split_lines, texts};
use vstd::prelude::*;
use vstd::relations::{sorted_by, total_ordering};
use vstd::seq_lib::lemma_sorted_unique;
use vstd::set_lib::{lemma_int_range, lemma_set_disjoint_lens, set_int_range};

verus! {

/// The identifiers from `l` to `r`, both included.
#[derive(Clone, Copy, Debug, PartialEq, Eq, PartialOrd, Ord, Structural)]
pub struct Range {
    pub l: usize,
    pub r: usize,
}

/// Ranges of which no two touch or overlap, in ascending order.
#[derive(Clone, Debug)]
pub struct RangeSet(pub Vec<Range>);

impl View for RangeSet {
    type V = Seq<Range>;

    open spec fn view(&self) -> Seq<Range> {
        self.0@
    }
}

/// The order of ranges: by their lower end, then by their upper end.
pub open spec fn range_order() -> spec_fn(Range, Range) -> bool {
    |a: Range, b: Range| a.l < b.l || (a.l == b.l && a.r <= b.r)
}

impl Range {
    /// The range holds `v`.
    pub open spec fn holds(self, v: int) -> bool {
        self.l <= v <= self.r
    }

    /// At least one identifier lies between the two ranges.
    pub open spec fn apart(self, other: Range) -> bool {
        other.r + 1 < self.l || self.r + 1 < other.l
    }

    /// The range from the lower of the two lower ends to the higher of
    /// the two upper ends.
    pub open spec fn hull(self, other: Range) -> Range {
        Range {
            l: if self.l <= other.l {
                self.l
            } else {
                other.l
            },
            r: if self.r >= other.r {
                self.r
            } else {
                other.r
            },
        }
    }

    /// How many identifiers the range holds, if its ends are in order.
    pub open spec fn count(self) -> Option<nat> {
        if self.l <= self.r {
            Some((self.r - self.l + 1) as nat)
        } else {
            None
        }
    }
}

/// The ranges with each that touches or overlaps the one before it, as
/// that one has grown, joined to it.
pub open spec fn merged(ranges: Seq<Range>) -> Seq<Range>
    decreases ranges.len(),
{
    if ranges.len() == 0 {
        seq![]
    } else {
        let before = merged(ranges.drop_last());
        let range = ranges.last();
        if before.len() > 0 && !before.last().apart(range) {
            before.update(before.len() - 1, before.last().hull(range))
        } else {
            before.push(range)
        }
    }
}

/// The set once `range` is added: all the ranges in order, then joined.
pub open spec fn added(set: Seq<Range>, range: Range) -> Seq<Range> {
    merged(set.push(range).sort_by(range_order()))
}

/// The set that adding `ranges` one after the other to the empty set gives.
pub open spec fn gathered(ranges: Seq<Range>) -> Seq<Range>
    decreases ranges.len(),
{
    if ranges.len() == 0 {
        seq![]
    } else {
        added(gathered(ranges.drop_last()), ranges.last())
    }
}

/// How many identifiers the ranges hold, each counted for every range that
/// holds it; none where the ends of a range are out of order.
pub open spec fn covered(ranges: Seq<Range>) -> Option<nat>
    decreases ranges.len(),
{
    if ranges.len() == 0 {
        Some(0)
    } else {
        match (covered(ranges.drop_last()), ranges.last().count()) {
            (Some(before), Some(last)) => Some(before + last),
            _ => None,
        }
    }
}

/// Some range among `ranges` holds `v`.
pub open spec fn is_fresh(ranges: Seq<Range>, v: int) -> bool {
    exists|i: int| 0 <= i < ranges.len() && (#[trigger] ranges[i]).holds(v)
}

/// The range that `s` writes: two unsigned numerals with a hyphen
/// between them, the first hyphen of `s`.
pub open spec fn parse_range(s: Seq<char>) -> Option<Range> {
    let dash = find_from(s, '-', 0);
    if dash >= s.len() {
        None
    } else {
        match (
            parse_unsigned(s.take(dash), usize::MAX as nat),
            parse_unsigned(s.skip(dash + 1), usize::MAX as nat),
        ) {
            (Some(l), Some(r)) => Some(Range { l: l as usize, r: r as usize }),
            _ => None,
        }
    }
}

/// The ranges that the lines write, if each line writes one.
pub open spec fn parse_ranges(rows: Seq<Seq<char>>) -> Option<Seq<Range>>
    decreases rows.len(),
{
    if rows.len() == 0 {
        Some(seq![])
    } else {
        match (parse_ranges(rows.drop_last()), parse_range(rows.last())) {
            (Some(before), Some(last)) => Some(before.push(last)),
            _ => None,
        }
    }
}

/// Where the first blank line of `s` at or after `from` begins: the first
/// of two line feeds in a row. The length of `s` where there is none.
pub open spec fn blank_line(s: Seq<char>, from: int) -> int
    decreases s.len() - from,
{
    if from >= s.len() {
        s.len() as int
    } else if s[from] == '\n' && from + 1 < s.len() && s[from + 1] == '\n' {
        from
    } else {
        blank_line(s, from + 1)
    }
}

/// One for a line that writes a fresh identifier, nothing for one that
/// writes a stale one; no value for a line that writes no identifier.
pub open spec fn freshness(ranges: Seq<Range>) -> spec_fn(Seq<char>) -> Option<nat> {
    |row: Seq<char>|
        match parse_unsigned(row, usize::MAX as nat) {
            Some(v) => Some(
                if is_fresh(ranges, v as int) {
                    1nat
                } else {
                    0nat
                },
            ),
            None => None,
        }
}

/// How many of the identifiers below the blank line are fresh.
pub open spec fn answer_1(input: Seq<char>) -> Option<nat> {
    let cut = blank_line(input, 0);
    if cut >= input.len() {
        None
    } else {
        match parse_ranges(lines(input.take(cut))) {
            Some(ranges) => sum_of(lines(input.skip(cut + 2)), freshness(ranges)),
            None => None,
        }
    }
}

/// How many identifiers the ranges above the blank line hold between them.
pub open spec fn answer_2(input: Seq<char>) -> Option<nat> {
    let cut = blank_line(input, 0);
    if cut >= input.len() {
        None
    } else {
        match parse_ranges(lines(input.take(cut))) {
            Some(ranges) => covered(gathered(ranges)),
            None => None,
        }
    }
}

/// The order of ranges is total.
pub proof fn lemma_range_order_total()
    ensures
        total_ordering(range_order()),
{
    let leq = range_order();
    assert(vstd::relations::reflexive(leq));
    assert(vstd::relations::antisymmetric(leq)) by {
        assert forall|x: Range, y: Range| #[trigger] leq(x, y) && #[trigger] leq(y, x) implies x
            == y by {}
    }
    assert(vstd::relations::transitive(leq));
    assert(vstd::relations::strongly_connected(leq));
}

/// Whether `a` comes before `b` in the order of ranges, or is `b`.
pub fn in_order(a: Range, b: Range) -> (ordered: bool)
    ensures
        ordered == range_order()(a, b),
{
    a.l < b.l || (a.l == b.l && a.r <= b.r)
}

/// Puts the ranges in order: none is lost, added or changed.
pub fn sort_ranges(ranges: &mut Vec<Range>)
    ensures
        final(ranges)@.to_multiset() == old(ranges)@.to_multiset(),
        sorted_by(final(ranges)@, range_order()),
{
    let ghost given = ranges@;
    let mut sorted: Vec<Range> = Vec::with_capacity(ranges.len());
    let mut k: usize = 0;
    assert(given.take(0) =~= sorted@);
    while k < ranges.len()
        invariant
            k <= ranges.len(),
            ranges@ == given,
            sorted@.to_multiset() == given.take(k as int).to_multiset(),
            sorted_by(sorted@, range_order()),
            sorted@.len() == k,
        decreases ranges.len() - k,
    {
        let item: Range = ranges[k];
        let mut j: usize = sorted.len();
        while j > 0 && !in_order(sorted[j - 1], item)
            invariant
                j <= sorted.len(),
                forall|m: int|
                    j <= m < sorted.len() ==> !range_order()(#[trigger] sorted@[m], item),
            decreases j,
        {
            j -= 1;
        }
        let ghost before = sorted@;
        sorted.insert(j, item);
        proof {
            vstd::seq_lib::to_multiset_insert(before, j as int, item);
            vstd::seq_lib::to_multiset_build(given.take(k as int), item);
            assert(given.take(k + 1) =~= given.take(k as int).push(item));
            let after = sorted@;
            assert forall|a: int, b: int| 0 <= a < b < after.len() implies #[trigger] range_order()(
                after[a],
                after[b],
            ) by {
                if b < j {
                    assert(range_order()(before[a], before[b]));
                } else if b == j {
                    if a < j - 1 {
                        assert(range_order()(before[a], before[j - 1]));
                    }
                    assert(range_order()(before[j - 1], item));
                } else if a < j {
                    assert(range_order()(before[a], before[b - 1]));
                } else if a == j {
                    assert(!range_order()(before[b - 1], item));
                } else {
                    assert(range_order()(before[a - 1], before[b - 1]));
                }
            }
        }
        k += 1;
    }
    assert(given.take(k as int) =~= given);
    *ranges = sorted;
}

impl Range {
    /// Whether at least one identifier lies between the two ranges.
    pub fn is_disjoint(&self, other: Range) -> (apart: bool)
        ensures
            apart == self.apart(other),
    {
        other.r < self.l.saturating_sub(1) || self.r.saturating_add(1) < other.l
    }

    /// Whether the two ranges touch or overlap.
    pub fn is_overlap(&self, other: Range) -> (joined: bool)
        ensures
            joined == !self.apart(other),
    {
        !self.is_disjoint(other)
    }

    /// Widens the range so that it reaches over `other` too.
    pub fn expand(&mut self, other: Range)
        ensures
            *final(self) == old(self).hull(other),
    {
        if other.l < self.l {
            self.l = other.l;
        }
        if other.r > self.r {
            self.r = other.r;
        }
    }

    /// How many identifiers the range holds; none where its ends are out
    /// of order or a machine word cannot hold the number.
    pub fn checked_size(&self) -> (count: Option<usize>)
        ensures
            count == in_usize(self.count()),
    {
        if self.l <= self.r {
            (self.r - self.l).checked_add(1)
        } else {
            None
        }
    }

    /// How many identifiers the range holds.
    pub fn size(&self) -> (count: usize)
        requires
            in_usize(self.count()).is_some(),
        ensures
            Some(count) == in_usize(self.count()),
    {
        self.r - self.l + 1
    }

    /// The range that `s` writes, if it writes one.
    pub fn parse(s: &[char]) -> (range: Option<Range>)
        ensures
            range == parse_range(s@),
    {
        let dash: usize = find_char(s, '-', 0);
        if dash >= s.len() {
            return None;
        }
        proof {
            assert(s@.subrange(0, dash as int) =~= s@.take(dash as int));
            assert(s@.subrange(dash + 1, s@.len() as int) =~= s@.skip(dash + 1));
        }
        let l: Option<usize> = parse_usize(&s[0..dash]);
        let r: Option<usize> = parse_usize(&s[dash + 1..s.len()]);
        match (l, r) {
            (Some(l), Some(r)) => Some(Range { l, r }),
            _ => None,
        }
    }

    /// The range that `value` writes.
    pub fn from(value: &str) -> (range: Range)
        requires
            parse_range(value@).is_some(),
        ensures
            Some(range) == parse_range(value@),
    {
        let text: Vec<char> = chars_of(value);
        match Range::parse(text.as_slice()) {
            Some(range) => range,
            None => vstd::pervasive::unreached(),
        }
    }

    /// The range from the identifier that `l` writes to the one that `r`
    /// writes.
    pub fn from_pair(l: &str, r: &str) -> (range: Range)
        requires
            parse_unsigned(l@, usize::MAX as nat).is_some(),
            parse_unsigned(r@, usize::MAX as nat).is_some(),
        ensures
            Some(range.l as nat) == parse_unsigned(l@, usize::MAX as nat),
            Some(range.r as nat) == parse_unsigned(r@, usize::MAX as nat),
    {
        let lower: Vec<char> = chars_of(l);
        let upper: Vec<char> = chars_of(r);
        match (parse_usize(lower.as_slice()), parse_usize(upper.as_slice())) {
            (Some(l), Some(r)) => Range { l, r },
            _ => vstd::pervasive::unreached(),
        }
    }
}

impl Default for Range {
    fn default() -> (range: Range)
        ensures
            range == (Range { l: 0, r: 0 }),
    {
        Range { l: 0, r: 0 }
    }
}

impl Default for RangeSet {
    fn default() -> (set: RangeSet)
        ensures
            set@ == Seq::<Range>::empty(),
    {
        RangeSet(Vec::new())
    }
}

impl RangeSet {
    /// The set with `new_range` added: the ranges are put in order, and
    /// each that touches or overlaps the one before it is joined to it.
    pub fn add(self, new_range: Range) -> (set: RangeSet)
        ensures
            set@ == added(self@, new_range),
    {
        let mut ranges: Vec<Range> = self.0;
        ranges.push(new_range);
        let ghost pushed = ranges@;
        sort_ranges(&mut ranges);
        proof {
            lemma_range_order_total();
            pushed.lemma_sort_by_ensures(range_order());
            lemma_sorted_unique(ranges@, pushed.sort_by(range_order()), range_order());
        }
        let mut consolidated: Vec<Range> = Vec::with_capacity(ranges.len());
        let mut k: usize = 0;
        while k < ranges.len()
            invariant
                k <= ranges.len(),
                consolidated@ == merged(ranges@.take(k as int)),
            decreases ranges.len() - k,
        {
            let range: Range = ranges[k];
            let held: usize = consolidated.len();
            proof {
                assert(ranges@.take(k + 1).drop_last() =~= ranges@.take(k as int));
            }
            if held > 0 && consolidated[held - 1].is_overlap(range) {
                let mut last: Range = consolidated[held - 1];
                last.expand(range);
                consolidated.set(held - 1, last);
            } else {
                consolidated.push(range);
            }
            k += 1;
        }
        assert(ranges@.take(k as int) =~= ranges@);
        RangeSet(consolidated)
    }

    /// How many identifiers the ranges hold; none where the ends of a
    /// range are out of order or a machine word cannot hold the number.
    pub fn checked_size(&self) -> (count: Option<usize>)
        ensures
            count == in_usize(covered(self@)),
    {
        let mut total: usize = 0;
        let mut k: usize = 0;
        while k < self.0.len()
            invariant
                k <= self.0.len(),
                covered(self@.take(k as int)) == Some(total as nat),
            decreases self.0.len() - k,
        {
            proof {
                lemma_covered_step(self@, k as int);
                if covered(self@).is_some() {
                    lemma_covered_prefix(self@, k + 1);
                }
            }
            let sum: Option<usize> = match self.0[k].checked_size() {
                Some(count) => total.checked_add(count),
                None => None,
            };
            match sum {
                Some(sum) => {
                    total = sum;
                },
                None => {
                    return None;
                },
            }
            k += 1;
        }
        assert(self@.take(k as int) =~= self@);
        Some(total)
    }

    /// How many identifiers the ranges hold.
    pub fn size(&self) -> (count: usize)
        requires
            in_usize(covered(self@)).is_some(),
        ensures
            Some(count) == in_usize(covered(self@)),
    {
        match self.checked_size() {
            Some(count) => count,
            None => vstd::pervasive::unreached(),
        }
    }
}

/// One more range adds its count to what the ranges hold.
pub proof fn lemma_covered_step(ranges: Seq<Range>, k: int)
    requires
        0 <= k < ranges.len(),
    ensures
        covered(ranges.take(k + 1)) == match (covered(ranges.take(k)), ranges[k].count()) {
            (Some(before), Some(last)) => Some(before + last),
            _ => None,
        },
{
    assert(ranges.take(k + 1).drop_last() =~= ranges.take(k));
}

/// Where the ranges have a count, so has every prefix of them, and it is
/// no larger.
pub proof fn lemma_covered_prefix(ranges: Seq<Range>, k: int)
    requires
        0 <= k <= ranges.len(),
        covered(ranges).is_some(),
    ensures
        covered(ranges.take(k)).is_some(),
        covered(ranges.take(k)).unwrap() <= covered(ranges).unwrap(),
    decreases ranges.len() - k,
{
    if k == ranges.len() {
        assert(ranges.take(k) =~= ranges);
    } else {
        lemma_covered_prefix(ranges, k + 1);
        lemma_covered_step(ranges, k);
    }
}

/// Where the first blank line of `s` begins.
pub fn find_blank_line(s: &[char]) -> (cut: usize)
    ensures
        cut == blank_line(s@, 0),
        cut <= s.len(),
        cut < s.len() ==> cut + 2 <= s.len(),
{
    let mut at: usize = 0;
    while at < s.len() && !(s[at] == '\n' && at + 1 < s.len() && s[at + 1] == '\n')
        invariant
            at <= s.len(),
            blank_line(s@, 0) == blank_line(s@, at as int),
        decreases s.len() - at,
    {
        at += 1;
    }
    at
}

/// The ranges that the lines write, if each line writes one.
pub fn read_ranges(rows: &Vec<Vec<char>>) -> (ranges: Option<Vec<Range>>)
    ensures
        match ranges {
            Some(ranges) => parse_ranges(texts(rows@)) == Some(ranges@),
            None => parse_ranges(texts(rows@)).is_none(),
        },
{
    let ghost all = texts(rows@);
    let mut ranges: Vec<Range> = Vec::new();
    let mut k: usize = 0;
    while k < rows.len()
        invariant
            k <= rows.len(),
            all == texts(rows@),
            parse_ranges(all.take(k as int)) == Some(ranges@),
        decreases rows.len() - k,
    {
        proof {
            assert(all.take(k + 1).drop_last() =~= all.take(k as int));
            if parse_ranges(all).is_some() {
                lemma_parse_ranges_prefix(all, k + 1);
            }
        }
        match Range::parse(rows[k].as_slice()) {
            Some(range) => {
                ranges.push(range);
            },
            None => {
                return None;
            },
        }
        k += 1;
    }
    assert(all.take(k as int) =~= all);
    Some(ranges)
}

/// Where every line writes a range, so does every line of a prefix.
pub proof fn lemma_parse_ranges_prefix(rows: Seq<Seq<char>>, k: int)
    requires
        0 <= k <= rows.len(),
        parse_ranges(rows).is_some(),
    ensures
        parse_ranges(rows.take(k)).is_some(),
    decreases rows.len() - k,
{
    if k == rows.len() {
        assert(rows.take(k) =~= rows);
    } else {
        lemma_parse_ranges_prefix(rows, k + 1);
        assert(rows.take(k + 1).drop_last() =~= rows.take(k));
    }
}

/// Whether some range among `ranges` holds `value`.
pub fn holds_fresh(ranges: &Vec<Range>, value: usize) -> (fresh: bool)
    ensures
        fresh == is_fresh(ranges@, value as int),
{
    let mut k: usize = 0;
    while k < ranges.len()
        invariant
            k <= ranges.len(),
            forall|i: int| 0 <= i < k ==> !(#[trigger] ranges@[i]).holds(value as int),
        decreases ranges.len() - k,
    {
        if ranges[k].l <= value && value <= ranges[k].r {
            return true;
        }
        k += 1;
    }
    false
}

/// How many of the identifiers below the blank line are fresh; none where
/// the input has no blank line, or a line does not write what it should.
pub fn checked_part_1(input: &str) -> (count: Option<usize>)
    ensures
        count == in_usize(answer_1(input@)),
{
    let text: Vec<char> = chars_of(input);
    let len: usize = text.len();
    let cut: usize = find_blank_line(text.as_slice());
    if cut >= len {
        return None;
    }
    proof {
        assert(text@.subrange(0, cut as int) =~= text@.take(cut as int));
        assert(text@.subrange(cut + 2, len as int) =~= text@.skip(cut + 2));
    }
    let top: Vec<Vec<char>> = split_lines(&text[0..cut]);
    let bottom: Vec<Vec<char>> = split_lines(&text[cut + 2..len]);
    let ranges: Vec<Range> = match read_ranges(&top) {
        Some(ranges) => ranges,
        None => {
            return None;
        },
    };
    let ghost all = texts(bottom@);
    let ghost value = freshness(ranges@);
    let mut count: usize = 0;
    let mut k: usize = 0;
    while k < bottom.len()
        invariant
            k <= bottom.len(),
            all == texts(bottom@),
            value == freshness(ranges@),
            answer_1(input@) == sum_of(all, value),
            sum_of(all.take(k as int), value) == Some(count as nat),
            count <= k,
        decreases bottom.len() - k,
    {
        proof {
            lemma_sum_of_step(all, value, k as int);
            if sum_of(all, value).is_some() {
                lemma_sum_of_prefix(all, value, k + 1);
            }
        }
        match parse_usize(bottom[k].as_slice()) {
            Some(v) => {
                if holds_fresh(&ranges, v) {
                    count += 1;
                }
            },
            None => {
                return None;
            },
        }
        k += 1;
    }
    assert(all.take(k as int) =~= all);
    Some(count)
}

/// How many identifiers the ranges above the blank line hold between
/// them; none where the input has no blank line, a line above it writes no
/// range or one whose ends are out of order, or a machine word cannot hold
/// the number.
pub fn checked_part_2(input: &str) -> (count: Option<usize>)
    ensures
        count == in_usize(answer_2(input@)),
{
    let text: Vec<char> = chars_of(input);
    let len: usize = text.len();
    let cut: usize = find_blank_line(text.as_slice());
    if cut >= len {
        return None;
    }
    proof {
        assert(text@.subrange(0, cut as int) =~= text@.take(cut as int));
    }
    let top: Vec<Vec<char>> = split_lines(&text[0..cut]);
    let ranges: Vec<Range> = match read_ranges(&top) {
        Some(ranges) => ranges,
        None => {
            return None;
        },
    };
    let mut set: RangeSet = RangeSet::default();
    let mut k: usize = 0;
    while k < ranges.len()
        invariant
            k <= ranges.len(),
            set@ == gathered(ranges@.take(k as int)),
        decreases ranges.len() - k,
    {
        proof {
            assert(ranges@.take(k + 1).drop_last() =~= ranges@.take(k as int));
        }
        set = set.add(ranges[k]);
        k += 1;
    }
    assert(ranges@.take(k as int) =~= ranges@);
    set.checked_size()
}

/// How many of the identifiers below the blank line are fresh.
pub fn part_1(input: &str) -> (count: usize)
    requires
        in_usize(answer_1(input@)).is_some(),
    ensures
        Some(count) == in_usize(answer_1(input@)),
{
    match checked_part_1(input) {
        Some(count) => count,
        None => vstd::pervasive::unreached(),
    }
}

/// How many identifiers the ranges above the blank line hold between them.
pub fn part_2(input: &str) -> (count: usize)
    requires
        in_usize(answer_2(input@)).is_some(),
    ensures
        Some(count) == in_usize(answer_2(input@)),
{
    match checked_part_2(input) {
        Some(count) => count,
        None => vstd::pervasive::unreached(),
    }
}

/// The ends of every range are in order.
pub open spec fn all_valid(ranges: Seq<Range>) -> bool {
    forall|i: int| 0 <= i < ranges.len() ==> (#[trigger] ranges[i]).l <= ranges[i].r
}

/// The ranges stand in ascending order with at least one identifier
/// between each and the next, so that no two of them touch or overlap.
pub open spec fn tidy(ranges: Seq<Range>) -> bool {
    forall|i: int, j: int|
        0 <= i < j < ranges.len() ==> (#[trigger] ranges[i]).r + 1 < (#[trigger] ranges[j]).l
}

/// The identifiers that the ranges hold between them.
pub open spec fn held(ranges: Seq<Range>) -> Set<int> {
    Set::new(|v: int| is_fresh(ranges, v))
}

/// The ranges with one more hold what they held, and what the one more
/// holds.
pub proof fn lemma_is_fresh_push(ranges: Seq<Range>, range: Range, v: int)
    ensures
        is_fresh(ranges.push(range), v) == (is_fresh(ranges, v) || range.holds(v)),
{
    let more = ranges.push(range);
    if is_fresh(more, v) {
        let i = choose|i: int| 0 <= i < more.len() && (#[trigger] more[i]).holds(v);
        if i < ranges.len() {
            assert(ranges[i].holds(v));
        }
    }
    if is_fresh(ranges, v) {
        let i = choose|i: int| 0 <= i < ranges.len() && (#[trigger] ranges[i]).holds(v);
        assert(more[i].holds(v));
    }
    if range.holds(v) {
        assert(more[ranges.len() as int].holds(v));
    }
}

/// Putting ranges in order changes neither what they are nor what they
/// hold.
pub proof fn lemma_sorting_keeps_ranges(ranges: Seq<Range>)
    ensures
        sorted_by(ranges.sort_by(range_order()), range_order()),
        all_valid(ranges) ==> all_valid(ranges.sort_by(range_order())),
        forall|v: int| is_fresh(ranges.sort_by(range_order()), v) == is_fresh(ranges, v),
{
    broadcast use vstd::seq_lib::group_to_multiset_ensures;

    let sorted = ranges.sort_by(range_order());
    lemma_range_order_total();
    ranges.lemma_sort_by_ensures(range_order());
    assert forall|x: Range| sorted.contains(x) == ranges.contains(x) by {
        assert(sorted.to_multiset().count(x) == ranges.to_multiset().count(x));
    }
    if all_valid(ranges) {
        assert forall|i: int| 0 <= i < sorted.len() implies (#[trigger] sorted[i]).l
            <= sorted[i].r by {
            assert(sorted.contains(sorted[i]));
            let k = choose|k: int| 0 <= k < ranges.len() && ranges[k] == sorted[i];
            assert(ranges[k].l <= ranges[k].r);
        }
    }
    assert forall|v: int| is_fresh(sorted, v) == is_fresh(ranges, v) by {
        if is_fresh(sorted, v) {
            let i = choose|i: int| 0 <= i < sorted.len() && (#[trigger] sorted[i]).holds(v);
            assert(sorted.contains(sorted[i]));
            let k = choose|k: int| 0 <= k < ranges.len() && ranges[k] == sorted[i];
            assert(ranges[k].holds(v));
        }
        if is_fresh(ranges, v) {
            let i = choose|i: int| 0 <= i < ranges.len() && (#[trigger] ranges[i]).holds(v);
            assert(ranges.contains(ranges[i]));
            let k = choose|k: int| 0 <= k < sorted.len() && sorted[k] == ranges[i];
            assert(sorted[k].holds(v));
        }
    }
}

/// Joining ranges that stand in order makes them tidy, and changes
/// nothing in what they hold.
pub proof fn lemma_merged_is_tidy(ranges: Seq<Range>)
    requires
        sorted_by(ranges, range_order()),
        all_valid(ranges),
    ensures
        all_valid(merged(ranges)),
        tidy(merged(ranges)),
        forall|v: int| is_fresh(merged(ranges), v) == is_fresh(ranges, v),
        ranges.len() > 0 ==> merged(ranges).len() > 0 && merged(ranges).last().l
            <= ranges.last().l,
    decreases ranges.len(),
{
    if ranges.len() > 0 {
        let front = ranges.drop_last();
        let range = ranges.last();
        let before = merged(front);
        assert(sorted_by(front, range_order())) by {
            assert forall|i: int, j: int| 0 <= i < j < front.len() implies #[trigger] range_order()(
                front[i],
                front[j],
            ) by {
                assert(range_order()(ranges[i], ranges[j]));
            }
        }
        assert(all_valid(front)) by {
            assert forall|i: int| 0 <= i < front.len() implies (#[trigger] front[i]).l
                <= front[i].r by {
                assert(ranges[i].l <= ranges[i].r);
            }
        }
        lemma_merged_is_tidy(front);
        assert(ranges =~= front.push(range));
        assert(range.l <= range.r);
        if front.len() > 0 {
            assert(range_order()(ranges[front.len() - 1], ranges[front.len() as int]));
            assert(before.last().l <= range.l);
        }
        let after = merged(ranges);
        if before.len() > 0 && !before.last().apart(range) {
            let last = before.last();
            let hull = last.hull(range);
            let n = before.len() as int;
            assert(after == before.update(n - 1, hull));
            assert(last.l <= last.r);
            assert forall|i: int| 0 <= i < after.len() implies (#[trigger] after[i]).l
                <= after[i].r by {
                if i < n - 1 {
                    assert(before[i].l <= before[i].r);
                }
            }
            assert forall|i: int, j: int| 0 <= i < j < after.len() implies (#[trigger] after[i]).r
                + 1 < (#[trigger] after[j]).l by {
                assert(before[i].r + 1 < before[j].l);
            }
            assert forall|v: int| is_fresh(after, v) == is_fresh(ranges, v) by {
                lemma_is_fresh_push(front, range, v);
                assert(is_fresh(before, v) == is_fresh(front, v));
                if is_fresh(after, v) {
                    let i = choose|i: int| 0 <= i < after.len() && (#[trigger] after[i]).holds(v);
                    if i < n - 1 {
                        assert(before[i].holds(v));
                    } else {
                        if last.holds(v) {
                            assert(before[n - 1].holds(v));
                        }
                    }
                }
                if is_fresh(before, v) {
                    let i = choose|i: int| 0 <= i < before.len() && (#[trigger] before[i]).holds(v);
                    if i < n - 1 {
                        assert(after[i].holds(v));
                    } else {
                        assert(after[n - 1].holds(v));
                    }
                }
                if range.holds(v) {
                    assert(after[n - 1].holds(v));
                }
            }
        } else {
            assert(after == before.push(range));
            assert forall|i: int| 0 <= i < after.len() implies (#[trigger] after[i]).l
                <= after[i].r by {
                if i < before.len() {
                    assert(before[i].l <= before[i].r);
                }
            }
            assert forall|i: int, j: int| 0 <= i < j < after.len() implies (#[trigger] after[i]).r
                + 1 < (#[trigger] after[j]).l by {
                if j < before.len() {
                    assert(before[i].r + 1 < before[j].l);
                } else if i < before.len() - 1 {
                    assert(before[i].r + 1 < before[before.len() - 1].l);
                    assert(before[before.len() - 1] == before.last());
                }
            }
            assert forall|v: int| is_fresh(after, v) == is_fresh(ranges, v) by {
                lemma_is_fresh_push(front, range, v);
                lemma_is_fresh_push(before, range, v);
            }
        }
    }
}

/// A set of ranges in order to which a range in order is added is tidy,
/// and holds what the set held and what the range holds.
pub proof fn lemma_added_is_union(set: Seq<Range>, range: Range)
    requires
        all_valid(set),
        range.l <= range.r,
    ensures
        all_valid(added(set, range)),
        tidy(added(set, range)),
        forall|v: int| is_fresh(added(set, range), v) == (is_fresh(set, v) || range.holds(v)),
{
    let more = set.push(range);
    assert(all_valid(more)) by {
        assert forall|i: int| 0 <= i < more.len() implies (#[trigger] more[i]).l <= more[i].r by {
            if i < set.len() {
                assert(set[i].l <= set[i].r);
            }
        }
    }
    lemma_sorting_keeps_ranges(more);
    lemma_merged_is_tidy(more.sort_by(range_order()));
    assert forall|v: int| is_fresh(added(set, range), v) == (is_fresh(set, v) || range.holds(
        v,
    )) by {
        lemma_is_fresh_push(set, range, v);
    }
}

/// The set gathered from ranges in order is tidy, and holds what the
/// ranges hold between them.
pub proof fn lemma_gathered_is_union(ranges: Seq<Range>)
    requires
        all_valid(ranges),
    ensures
        all_valid(gathered(ranges)),
        tidy(gathered(ranges)),
        held(gathered(ranges)) == held(ranges),
    decreases ranges.len(),
{
    if ranges.len() == 0 {
        assert(held(gathered(ranges)) =~= held(ranges));
    } else {
        let front = ranges.drop_last();
        assert(all_valid(front)) by {
            assert forall|i: int| 0 <= i < front.len() implies (#[trigger] front[i]).l
                <= front[i].r by {
                assert(ranges[i].l <= ranges[i].r);
            }
        }
        lemma_gathered_is_union(front);
        assert(ranges.last().l <= ranges.last().r);
        lemma_added_is_union(gathered(front), ranges.last());
        assert(ranges =~= front.push(ranges.last()));
        assert forall|v: int| is_fresh(gathered(ranges), v) == is_fresh(ranges, v) by {
            lemma_is_fresh_push(front, ranges.last(), v);
            assert(held(gathered(front)).contains(v) == held(front).contains(v));
        }
        assert(held(gathered(ranges)) =~= held(ranges));
    }
}

/// Tidy ranges hold as many identifiers as their sizes add up to.
pub proof fn lemma_tidy_ranges_count(ranges: Seq<Range>)
    requires
        all_valid(ranges),
        tidy(ranges),
    ensures
        held(ranges).finite(),
        covered(ranges) == Some(held(ranges).len()),
    decreases ranges.len(),
{
    if ranges.len() == 0 {
        assert(held(ranges) =~= Set::<int>::empty());
    } else {
        let front = ranges.drop_last();
        let last = ranges.last();
        assert(all_valid(front) && tidy(front)) by {
            assert forall|i: int| 0 <= i < front.len() implies (#[trigger] front[i]).l
                <= front[i].r by {
                assert(ranges[i].l <= ranges[i].r);
            }
            assert forall|i: int, j: int| 0 <= i < j < front.len() implies (#[trigger] front[i]).r
                + 1 < (#[trigger] front[j]).l by {
                assert(ranges[i].r + 1 < ranges[j].l);
            }
        }
        lemma_tidy_ranges_count(front);
        assert(last.l <= last.r);
        let span = set_int_range(last.l as int, last.r + 1);
        lemma_int_range(last.l as int, last.r + 1);
        assert(ranges =~= front.push(last));
        assert(held(ranges) =~= held(front) + span) by {
            assert forall|v: int| held(ranges).contains(v) == (held(front) + span).contains(v) by {
                lemma_is_fresh_push(front, last, v);
            }
        }
        assert(held(front).disjoint(span)) by {
            assert forall|v: int| !(held(front).contains(v) && span.contains(v)) by {
                if is_fresh(front, v) {
                    let i = choose|i: int| 0 <= i < front.len() && (#[trigger] front[i]).holds(v);
                    assert(ranges[i].r + 1 < ranges[ranges.len() - 1].l);
                }
            }
        }
        lemma_set_disjoint_lens(held(front), span);
    }
}

/// What a set gathered from ranges in order counts is the number of
/// identifiers that at least one of the ranges holds, each counted once.
pub proof fn lemma_gathered_counts_once(ranges: Seq<Range>)
    requires
        all_valid(ranges),
    ensures
        held(ranges).finite(),
        covered(gathered(ranges)) == Some(held(ranges).len()),
{
    lemma_gathered_is_union(ranges);
    lemma_tidy_ranges_count(gathered(ranges));
}

} // verus!
