//! A dial with a hundred positions. Each line of the input turns it some
//! clicks to the left or to the right; what is asked is how often it comes
//! to point at zero.

use crate::decimal::{parse_i32, parse_signed};
use crate::text::{chars_of, lines, split_lines, texts};
use std::ops::{Add, Sub};
use vstd::prelude::*;
use vstd::std_specs::convert::FromSpecImpl;
use vstd::std_specs::ops::{AddSpecImpl, SubSpecImpl};

verus! {

/// Where the dial points.
#[derive(Clone, Copy, Debug, PartialEq, Eq, Structural)]
pub struct Dial(pub i32);

/// A dial together with the number of times that its last turn brought it
/// to zero.
#[derive(Clone, Copy, Debug, PartialEq, Eq, Structural)]
pub struct ZeroClickingDial {
    pub dial: Dial,
    pub clicks: i32,
}

/// The direction of a turn: one for the right, minus one for the left,
/// nothing for no turn.
pub open spec fn direction(rhs: int) -> int {
    if rhs > 0 {
        1
    } else if rhs < 0 {
        -1
    } else {
        0
    }
}

/// A machine word of thirty-two bits holds `v`.
pub open spec fn in_i32(v: int) -> bool {
    i32::MIN <= v <= i32::MAX
}

/// Where a dial at `position` points once it is turned by `rhs`.
pub open spec fn turned(position: int, rhs: int) -> int {
    (position + rhs) % 100
}

/// How many times a dial at `position` comes to zero while it is turned by
/// `rhs`, click by click: the clicks of the turn and those that lay
/// between the dial and the last zero behind it make so many full rounds.
pub open spec fn zero_clicks(position: int, rhs: int) -> int {
    (rhs * direction(rhs) + (position * direction(rhs)) % 100) / 100
}

/// The dial can be turned by `rhs`: it is not beyond its last position,
/// and the sum fits its word.
pub open spec fn can_turn(position: int, rhs: int) -> bool {
    position < 100 && in_i32(position + rhs)
}

/// The clicks of a turn by `rhs` can be counted: nothing on the way
/// exceeds a word.
pub open spec fn can_count(position: int, rhs: int) -> bool {
    &&& in_i32(rhs * direction(rhs))
    &&& in_i32(position * direction(rhs))
    &&& in_i32(rhs * direction(rhs) + (position * direction(rhs)) % 100)
}

impl Default for Dial {
    /// The dial starts at fifty.
    fn default() -> (dial: Dial)
        ensures
            dial == Dial(50),
    {
        Dial(50)
    }
}

impl Default for ZeroClickingDial {
    /// The dial starts at fifty, with no click counted.
    fn default() -> (dial: ZeroClickingDial)
        ensures
            dial == (ZeroClickingDial { dial: Dial(50), clicks: 0 }),
    {
        ZeroClickingDial { dial: Dial(50), clicks: 0 }
    }
}

impl FromSpecImpl<Dial> for ZeroClickingDial {
    open spec fn obeys_from_spec() -> bool {
        true
    }

    open spec fn from_spec(dial: Dial) -> ZeroClickingDial {
        ZeroClickingDial { dial, clicks: 0 }
    }
}

impl From<Dial> for ZeroClickingDial {
    fn from(dial: Dial) -> (counting: ZeroClickingDial)
        ensures
            counting == (ZeroClickingDial { dial, clicks: 0 }),
    {
        ZeroClickingDial { dial, clicks: 0 }
    }
}

impl Dial {
    /// The dial turned by `rhs`, if it can be turned so.
    pub fn checked_add(self, rhs: i32) -> (dial: Option<Dial>)
        ensures
            dial == if can_turn(self.0 as int, rhs as int) {
                Some(Dial(turned(self.0 as int, rhs as int) as i32))
            } else {
                None
            },
    {
        if self.0 >= 100 {
            return None;
        }
        match self.0.checked_add(rhs) {
            Some(sum) => match sum.checked_rem_euclid(100) {
                Some(val) => Some(Dial(val)),
                None => None,
            },
            None => None,
        }
    }
}

impl AddSpecImpl<i32> for Dial {
    open spec fn obeys_add_spec() -> bool {
        true
    }

    open spec fn add_req(self, rhs: i32) -> bool {
        can_turn(self.0 as int, rhs as int)
    }

    open spec fn add_spec(self, rhs: i32) -> Dial {
        Dial(turned(self.0 as int, rhs as int) as i32)
    }
}

impl Add<i32> for Dial {
    type Output = Dial;

    /// The dial turned by `rhs`: to the right where `rhs` is positive.
    fn add(self, rhs: i32) -> (dial: Dial) {
        match self.checked_add(rhs) {
            Some(dial) => dial,
            None => vstd::pervasive::unreached(),
        }
    }
}

/// The direction of a turn.
pub fn signum(rhs: i32) -> (dir: i32)
    ensures
        dir == direction(rhs as int),
{
    if rhs > 0 {
        1
    } else if rhs < 0 {
        -1
    } else {
        0
    }
}

impl ZeroClickingDial {
    /// The dial turned by `rhs`, with the zeros of that turn counted, if
    /// it can be turned so.
    pub fn checked_add(self, rhs: i32) -> (counting: Option<ZeroClickingDial>)
        ensures
            counting == if can_turn(self.dial.0 as int, rhs as int) && can_count(
                self.dial.0 as int,
                rhs as int,
            ) {
                Some(
                    ZeroClickingDial {
                        dial: Dial(turned(self.dial.0 as int, rhs as int) as i32),
                        clicks: zero_clicks(self.dial.0 as int, rhs as int) as i32,
                    },
                )
            } else {
                None
            },
    {
        let dir: i32 = signum(rhs);
        let length: i32 = match rhs.checked_mul(dir) {
            Some(length) => length,
            None => {
                return None;
            },
        };
        let behind: i32 = match self.dial.0.checked_mul(dir) {
            Some(mirrored) => match mirrored.checked_rem_euclid(100) {
                Some(behind) => behind,
                None => {
                    return None;
                },
            },
            None => {
                return None;
            },
        };
        let clicks: i32 = match length.checked_add(behind) {
            Some(way) => match way.checked_div_euclid(100) {
                Some(clicks) => clicks,
                None => {
                    return None;
                },
            },
            None => {
                return None;
            },
        };
        match self.dial.checked_add(rhs) {
            Some(dial) => Some(ZeroClickingDial { dial, clicks }),
            None => None,
        }
    }
}

impl AddSpecImpl<i32> for ZeroClickingDial {
    open spec fn obeys_add_spec() -> bool {
        true
    }

    open spec fn add_req(self, rhs: i32) -> bool {
        can_turn(self.dial.0 as int, rhs as int) && can_count(self.dial.0 as int, rhs as int)
    }

    open spec fn add_spec(self, rhs: i32) -> ZeroClickingDial {
        ZeroClickingDial {
            dial: Dial(turned(self.dial.0 as int, rhs as int) as i32),
            clicks: zero_clicks(self.dial.0 as int, rhs as int) as i32,
        }
    }
}

impl Add<i32> for ZeroClickingDial {
    type Output = ZeroClickingDial;

    /// The dial turned by `rhs`, with the zeros of that turn counted.
    fn add(self, rhs: i32) -> (counting: ZeroClickingDial) {
        match self.checked_add(rhs) {
            Some(counting) => counting,
            None => vstd::pervasive::unreached(),
        }
    }
}

impl SubSpecImpl<i32> for ZeroClickingDial {
    open spec fn obeys_sub_spec() -> bool {
        true
    }

    open spec fn sub_req(self, rhs: i32) -> bool {
        rhs != i32::MIN && can_turn(self.dial.0 as int, -rhs) && can_count(
            self.dial.0 as int,
            -rhs,
        )
    }

    open spec fn sub_spec(self, rhs: i32) -> ZeroClickingDial {
        ZeroClickingDial {
            dial: Dial(turned(self.dial.0 as int, -rhs) as i32),
            clicks: zero_clicks(self.dial.0 as int, -rhs) as i32,
        }
    }
}

impl Sub<i32> for ZeroClickingDial {
    type Output = ZeroClickingDial;

    /// The dial turned by `rhs` the other way, with the zeros of that
    /// turn counted.
    fn sub(self, rhs: i32) -> (counting: ZeroClickingDial) {
        self.add(-rhs)
    }
}

/// The turn that a line writes: `L` for the left or `R` for the right,
/// then the number of clicks as a signed numeral. Clicks to the left count
/// as negative.
pub open spec fn parse_turn(line: Seq<char>) -> Option<int> {
    if line.len() > 0 && (line[0] == 'L' || line[0] == 'R') {
        match parse_signed(line.skip(1), i32::MIN as int, i32::MAX as int) {
            Some(clicks) => {
                let turn = if line[0] == 'L' {
                    -clicks
                } else {
                    clicks
                };
                if in_i32(turn) {
                    Some(turn)
                } else {
                    None
                }
            },
            None => None,
        }
    } else {
        None
    }
}

/// How the dial stands after the turns that `rows` write, from fifty on,
/// and how many of the turns left it at zero.
pub open spec fn stops(rows: Seq<Seq<char>>) -> Option<(int, nat)>
    decreases rows.len(),
{
    if rows.len() == 0 {
        Some((50, 0))
    } else {
        match (stops(rows.drop_last()), parse_turn(rows.last())) {
            (Some((position, zeros)), Some(turn)) => if can_turn(position, turn) {
                Some(
                    (
                        turned(position, turn),
                        zeros + if turned(position, turn) == 0 {
                            1nat
                        } else {
                            0nat
                        },
                    ),
                )
            } else {
                None
            },
            _ => None,
        }
    }
}

/// How the dial stands after the turns that `rows` write, from fifty on,
/// and how many times it came to zero on the way, counted in thirty-two
/// bits.
pub open spec fn passes(rows: Seq<Seq<char>>) -> Option<(int, int)>
    decreases rows.len(),
{
    if rows.len() == 0 {
        Some((50, 0))
    } else {
        match (passes(rows.drop_last()), parse_turn(rows.last())) {
            (Some((position, clicks)), Some(turn)) => if can_turn(position, turn) && can_count(
                position,
                turn,
            ) && in_i32(clicks + zero_clicks(position, turn)) {
                Some((turned(position, turn), clicks + zero_clicks(position, turn)))
            } else {
                None
            },
            _ => None,
        }
    }
}

/// How many turns leave the dial at zero.
pub open spec fn answer_1(input: Seq<char>) -> Option<nat> {
    match stops(lines(input)) {
        Some((_, zeros)) => Some(zeros),
        None => None,
    }
}

/// How many times the dial comes to zero, during a turn or at its end.
pub open spec fn answer_2(input: Seq<char>) -> Option<int> {
    match passes(lines(input)) {
        Some((_, clicks)) => Some(clicks),
        None => None,
    }
}

/// Where the turns of all rows can be followed, so can those of a prefix.
pub proof fn lemma_stops_prefix(rows: Seq<Seq<char>>, k: int)
    requires
        0 <= k <= rows.len(),
        stops(rows).is_some(),
    ensures
        stops(rows.take(k)).is_some(),
    decreases rows.len() - k,
{
    if k == rows.len() {
        assert(rows.take(k) =~= rows);
    } else {
        lemma_stops_prefix(rows, k + 1);
        assert(rows.take(k + 1).drop_last() =~= rows.take(k));
    }
}

/// Where the turns of all rows can be counted, so can those of a prefix.
pub proof fn lemma_passes_prefix(rows: Seq<Seq<char>>, k: int)
    requires
        0 <= k <= rows.len(),
        passes(rows).is_some(),
    ensures
        passes(rows.take(k)).is_some(),
    decreases rows.len() - k,
{
    if k == rows.len() {
        assert(rows.take(k) =~= rows);
    } else {
        lemma_passes_prefix(rows, k + 1);
        assert(rows.take(k + 1).drop_last() =~= rows.take(k));
    }
}

/// A turn never brings the dial to zero a negative number of times.
pub proof fn lemma_zero_clicks_not_negative(position: int, rhs: int)
    ensures
        zero_clicks(position, rhs) >= 0,
{
    let dir = direction(rhs);
    assert(rhs * dir >= 0) by (nonlinear_arith)
        requires
            dir == direction(rhs),
    ;
    let way = rhs * dir + (position * dir) % 100;
    assert(way >= 0);
    assert(way / 100 >= 0);
}

/// How many of the first `clicks` clicks of a turn in the direction `dir`
/// leave a dial that started at `position` at zero.
pub open spec fn zeros_passed(position: int, dir: int, clicks: nat) -> nat
    decreases clicks,
{
    if clicks == 0 {
        0
    } else {
        zeros_passed(position, dir, (clicks - 1) as nat) + if turned(position, dir * clicks) == 0 {
            1nat
        } else {
            0nat
        }
    }
}

/// The count of a turn's zeros by full rounds is the count click by click.
proof fn lemma_rounds_count_zeros(position: int, dir: int, clicks: nat)
    requires
        dir == 1 || dir == -1,
    ensures
        (clicks + (position * dir) % 100) / 100 == zeros_passed(position, dir, clicks),
    decreases clicks,
{
    if clicks > 0 {
        lemma_rounds_count_zeros(position, dir, (clicks - 1) as nat);
        if dir == 1 {
            assert(position * dir == position) by (nonlinear_arith)
                requires
                    dir == 1,
            ;
            assert(dir * clicks == clicks) by (nonlinear_arith)
                requires
                    dir == 1,
            ;
        } else {
            assert(position * dir == -position) by (nonlinear_arith)
                requires
                    dir == -1,
            ;
            assert(dir * clicks == -clicks) by (nonlinear_arith)
                requires
                    dir == -1,
            ;
        }
    }
}

/// What a turn counts is the number of its clicks that leave the dial at
/// zero: the one that ends the turn is among them, the place where the
/// turn began is not.
pub proof fn lemma_zero_clicks_counts_zeros(position: int, rhs: int)
    ensures
        zero_clicks(position, rhs) == zeros_passed(
            position,
            direction(rhs),
            (rhs * direction(rhs)) as nat,
        ),
        rhs * direction(rhs) >= 0,
{
    let dir = direction(rhs);
    if rhs == 0 {
        assert(rhs * dir == 0 && position * dir == 0) by (nonlinear_arith)
            requires
                dir == 0,
        ;
    } else {
        assert(rhs * dir > 0) by (nonlinear_arith)
            requires
                dir == direction(rhs),
                rhs != 0,
        ;
        lemma_rounds_count_zeros(position, dir, (rhs * dir) as nat);
    }
}

/// The turn that a line writes, if it writes one.
pub fn read_turn(line: &[char]) -> (turn: Option<i32>)
    ensures
        match turn {
            Some(t) => parse_turn(line@) == Some(t as int),
            None => parse_turn(line@).is_none(),
        },
{
    if line.len() == 0 {
        return None;
    }
    let sign: i32 = if line[0] == 'L' {
        -1
    } else if line[0] == 'R' {
        1
    } else {
        return None;
    };
    proof {
        assert(line@.subrange(1, line@.len() as int) =~= line@.skip(1));
    }
    match parse_i32(&line[1..line.len()]) {
        Some(clicks) => clicks.checked_mul(sign),
        None => None,
    }
}

/// The turn that a line writes.
pub fn parse_line(line: &str) -> (turn: i32)
    requires
        parse_turn(line@).is_some(),
    ensures
        parse_turn(line@) == Some(turn as int),
{
    let text: Vec<char> = chars_of(line);
    match read_turn(text.as_slice()) {
        Some(turn) => turn,
        None => vstd::pervasive::unreached(),
    }
}

/// How many turns leave the dial at zero; none where a line writes no
/// turn or the dial cannot follow it.
pub fn checked_part_1(input: &str) -> (zeros: Option<usize>)
    ensures
        match zeros {
            Some(z) => answer_1(input@) == Some(z as nat),
            None => answer_1(input@).is_none(),
        },
{
    let text: Vec<char> = chars_of(input);
    let rows: Vec<Vec<char>> = split_lines(text.as_slice());
    let ghost all = texts(rows@);
    let mut dial: Dial = Dial::default();
    let mut zeros: usize = 0;
    let mut k: usize = 0;
    while k < rows.len()
        invariant
            k <= rows.len(),
            all == texts(rows@),
            all == lines(input@),
            stops(all.take(k as int)) == Some((dial.0 as int, zeros as nat)),
            zeros <= k,
        decreases rows.len() - k,
    {
        proof {
            assert(all.take(k + 1).drop_last() =~= all.take(k as int));
            if stops(all).is_some() {
                lemma_stops_prefix(all, k + 1);
            }
        }
        let next: Option<Dial> = match read_turn(rows[k].as_slice()) {
            Some(turn) => dial.checked_add(turn),
            None => None,
        };
        match next {
            Some(next) => {
                dial = next;
                if dial.0 == 0 {
                    zeros += 1;
                }
            },
            None => {
                return None;
            },
        }
        k += 1;
    }
    assert(all.take(k as int) =~= all);
    Some(zeros)
}

/// How many times the dial comes to zero; none where a line writes no
/// turn, the dial cannot follow it, or thirty-two bits cannot hold the
/// count.
pub fn checked_part_2(input: &str) -> (clicks: Option<usize>)
    ensures
        match clicks {
            Some(c) => answer_2(input@) == Some(c as int),
            None => answer_2(input@).is_none(),
        },
{
    let text: Vec<char> = chars_of(input);
    let rows: Vec<Vec<char>> = split_lines(text.as_slice());
    let ghost all = texts(rows@);
    let mut dial: ZeroClickingDial = ZeroClickingDial::default();
    let mut clicks: i32 = 0;
    let mut k: usize = 0;
    while k < rows.len()
        invariant
            k <= rows.len(),
            all == texts(rows@),
            all == lines(input@),
            passes(all.take(k as int)) == Some((dial.dial.0 as int, clicks as int)),
            clicks >= 0,
        decreases rows.len() - k,
    {
        proof {
            assert(all.take(k + 1).drop_last() =~= all.take(k as int));
            if passes(all).is_some() {
                lemma_passes_prefix(all, k + 1);
            }
        }
        let next: Option<ZeroClickingDial> = match read_turn(rows[k].as_slice()) {
            Some(turn) => {
                proof {
                    lemma_zero_clicks_not_negative(dial.dial.0 as int, turn as int);
                }
                dial.checked_add(turn)
            },
            None => None,
        };
        let counted: Option<i32> = match next {
            Some(next) => clicks.checked_add(next.clicks),
            None => None,
        };
        match (next, counted) {
            (Some(next), Some(counted)) => {
                dial = next;
                clicks = counted;
            },
            _ => {
                return None;
            },
        }
        k += 1;
    }
    assert(all.take(k as int) =~= all);
    Some(clicks as usize)
}

/// How many turns leave the dial at zero.
pub fn part_1(input: &str) -> (zeros: usize)
    requires
        answer_1(input@).is_some(),
    ensures
        answer_1(input@) == Some(zeros as nat),
{
    match checked_part_1(input) {
        Some(zeros) => zeros,
        None => vstd::pervasive::unreached(),
    }
}

/// How many times the dial comes to zero, during a turn or at its end.
pub fn part_2(input: &str) -> (clicks: usize)
    requires
        answer_2(input@).is_some(),
    ensures
        answer_2(input@) == Some(clicks as int),
{
    match checked_part_2(input) {
        Some(clicks) => clicks,
        None => vstd::pervasive::unreached(),
    }
}

} // verus!
