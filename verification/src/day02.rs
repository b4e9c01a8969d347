//! Identifiers whose digits repeat. The input lists ranges of identifiers;
//! an identifier is invalid where its decimal numeral is one block of
//! digits written twice, or several times, with nothing else.

use crate::decimal::{
    decimal, decimal_of, lemma_decimal_is_shortest, parse_unsigned, parse_usize, pow10,
};
use crate::sums::{in_usize, lemma_sum_of_prefix, lemma_sum_of_step, sum_of};
use crate::text::{chars_of, is_space, is_whitespace, split, split_on, texts};
use vstd::arithmetic::div_mod::{lemma_fundamental_div_mod_converse, lemma_mod_bound};
use vstd::prelude::*;

verus! {

/// `base` written `n` times in a row.
pub open spec fn repeated(base: Seq<char>, n: nat) -> Seq<char>
    decreases n,
{
    if n == 0 {
        seq![]
    } else {
        repeated(base, (n - 1) as nat) + base
    }
}

/// `s` is its own beginning written `n` times in a row, where the
/// beginning is as long as `n` goes into the length of `s`.
pub open spec fn repeats(s: Seq<char>, n: nat) -> bool
    recommends
        n > 0,
{
    s == repeated(s.take(s.len() as int / n as int), n)
}

/// The numeral of `x` is one block of digits written twice.
pub open spec fn has_double(x: nat) -> bool {
    let s = decimal(x);
    s.len() % 2 == 0 && s.take(s.len() as int / 2) == s.skip(s.len() as int / 2)
}

/// The numeral of `x` is one block of digits written `n` times, for some
/// `n` from two on whose square `x` reaches.
pub open spec fn has_repeat(x: nat) -> bool {
    exists|n: nat| repeats_at(x, n)
}

/// The numeral of `x` is one block of digits written `n` times, and `n`
/// is two at least and its square no more than `x`.
pub open spec fn repeats_at(x: nat, n: nat) -> bool {
    &&& 2 <= n <= decimal(x).len()
    &&& n * n <= x
    &&& decimal(x).len() % n == 0
    &&& repeats(decimal(x), n)
}

/// The numbers from `a` to `b` that `pick` picks, in ascending order.
pub open spec fn picked(a: int, b: int, pick: spec_fn(nat) -> bool) -> Seq<usize>
    decreases b - a + 1,
{
    if b < a || b < 0 {
        seq![]
    } else if pick(b as nat) {
        picked(a, b - 1, pick).push(b as usize)
    } else {
        picked(a, b - 1, pick)
    }
}

/// The sum of `values`.
pub open spec fn seq_sum(values: Seq<usize>) -> nat
    decreases values.len(),
{
    if values.len() == 0 {
        0
    } else {
        seq_sum(values.drop_last()) + values.last() as nat
    }
}

/// The two ends that `s` writes: unsigned numerals with hyphens between
/// them, of which the first two count; all of them must be numerals.
pub open spec fn parse_bounds(s: Seq<char>) -> Option<(usize, usize)> {
    let pieces = split(s, '-');
    if pieces.len() >= 2 && forall|i: int|
        0 <= i < pieces.len() ==> parse_unsigned(
            #[trigger] pieces[i],
            usize::MAX as nat,
        ).is_some() {
        Some(
            (
                parse_unsigned(pieces[0], usize::MAX as nat).unwrap() as usize,
                parse_unsigned(pieces[1], usize::MAX as nat).unwrap() as usize,
            ),
        )
    } else {
        None
    }
}

/// `s` without the white space at its end.
pub open spec fn trim_end(s: Seq<char>) -> Seq<char>
    decreases s.len(),
{
    if s.len() > 0 && is_space(s.last()) {
        trim_end(s.drop_last())
    } else {
        s
    }
}

/// Whether a numeral is a block written twice.
pub open spec fn doubles() -> spec_fn(nat) -> bool {
    |x: nat| has_double(x)
}

/// Whether a numeral is a block written several times.
pub open spec fn repeats_any() -> spec_fn(nat) -> bool {
    |x: nat| has_repeat(x)
}

/// The sum of the identifiers of a range that `pick` picks, if the piece
/// writes a range.
pub open spec fn picked_total(pick: spec_fn(nat) -> bool) -> spec_fn(Seq<char>) -> Option<nat> {
    |piece: Seq<char>|
        match parse_bounds(piece) {
            Some((a, b)) => Some(seq_sum(picked(a as int, b as int, pick))),
            None => None,
        }
}

/// The sum of the identifiers in the ranges whose numeral is a block
/// written twice. The ranges stand in one line, with commas between them.
pub open spec fn answer_1(input: Seq<char>) -> Option<nat> {
    sum_of(split(trim_end(input), ','), picked_total(doubles()))
}

/// The sum of the identifiers in the ranges whose numeral is a block
/// written several times.
pub open spec fn answer_2(input: Seq<char>) -> Option<nat> {
    sum_of(split(trim_end(input), ','), picked_total(repeats_any()))
}

/// A block written `n` times is `n` times as long as the block, and holds
/// at each place what the block holds at that place counted round.
pub proof fn lemma_repeated(base: Seq<char>, n: nat)
    ensures
        repeated(base, n).len() == n * base.len(),
        forall|i: int|
            0 <= i < repeated(base, n).len() ==> base.len() > 0 && #[trigger] repeated(base, n)[i]
                == base[i % (base.len() as int)],
    decreases n,
{
    if n == 0 {
        assert(0 * base.len() == 0) by (nonlinear_arith);
    } else {
        let before = repeated(base, (n - 1) as nat);
        lemma_repeated(base, (n - 1) as nat);
        let width = base.len() as int;
        assert(n * width == (n - 1) * width + width) by (nonlinear_arith);
        assert forall|i: int| 0 <= i < repeated(base, n).len() implies base.len() > 0
            && #[trigger] repeated(base, n)[i] == base[i % width] by {
            if i >= before.len() {
                assert(repeated(base, n)[i] == base[i - before.len()]);
                lemma_fundamental_div_mod_converse(i, width, n - 1, i - before.len());
            } else {
                assert(repeated(base, n)[i] == before[i]);
            }
        }
    }
}

/// A number of two digits or more is at least the square of the number
/// of its digits.
proof fn lemma_square_of_length(len: nat)
    requires
        len >= 2,
    ensures
        len * len <= pow10((len - 1) as nat),
    decreases len,
{
    if len == 2 {
        assert(pow10(1) == 10 * pow10(0));
    } else {
        lemma_square_of_length((len - 1) as nat);
        let before = (len - 1) as nat;
        assert(len * len <= 10 * (before * before)) by (nonlinear_arith)
            requires
                len == before + 1,
                before >= 2,
        ;
    }
}

/// A block can be written no more often than the numeral is long, so the
/// square of the number of times never exceeds the number: a numeral
/// repeats where it is one block written twice or more, and there only.
pub proof fn lemma_has_repeat(x: nat)
    ensures
        has_repeat(x) <==> exists|n: nat|
            2 <= n <= decimal(x).len() && #[trigger] (decimal(x).len() % n) == 0 && repeats(
                decimal(x),
                n,
            ),
{
    let len = decimal(x).len();
    if exists|n: nat|
        2 <= n <= decimal(x).len() && #[trigger] (decimal(x).len() % n) == 0 && repeats(
            decimal(x),
            n,
        ) {
        let n = choose|n: nat|
            2 <= n <= decimal(x).len() && #[trigger] (decimal(x).len() % n) == 0 && repeats(
                decimal(x),
                n,
            );
        assert(x > 0) by {
            if x == 0 {
                assert(decimal(0).len() == 1);
            }
        }
        lemma_decimal_is_shortest(x);
        lemma_square_of_length(len);
        assert(n * n <= len * len) by (nonlinear_arith)
            requires
                n <= len,
        ;
        assert(repeats_at(x, n));
    }
    if has_repeat(x) {
        let n = choose|n: nat| repeats_at(x, n);
        assert(decimal(x).len() % n == 0);
    }
}

/// Whether `s` is its own beginning written `n` times in a row.
pub fn repeats_n(s: &[char], n: usize) -> (whole: bool)
    requires
        n > 0,
    ensures
        whole == repeats(s@, n as nat),
{
    let len: usize = s.len();
    let f: usize = len / n;
    let ghost base = s@.take(f as int);
    proof {
        lemma_repeated(base, n as nat);
        vstd::arithmetic::div_mod::lemma_fundamental_div_mod(len as int, n as int);
        lemma_mod_bound(len as int, n as int);
        assert(n * f == f * n) by (nonlinear_arith);
    }
    if len % n != 0 {
        return false;
    }
    let mut i: usize = 0;
    while i < len
        invariant
            i <= len,
            len == s@.len(),
            f == len / n,
            n > 0,
            len == n * f,
            base == s@.take(f as int),
            repeated(base, n as nat).len() == len,
            forall|j: int|
                0 <= j < len ==> base.len() > 0 && #[trigger] repeated(base, n as nat)[j]
                    == base[j % (base.len() as int)],
            forall|j: int| 0 <= j < i ==> s@[j] == #[trigger] repeated(base, n as nat)[j],
        decreases len - i,
    {
        proof {
            assert(base.len() == f);
            assert(repeated(base, n as nat)[i as int] == base[i as int % (f as int)]);
            lemma_mod_bound(i as int, f as int);
        }
        if s[i] != s[i % f] {
            return false;
        }
        i += 1;
    }
    assert(s@ =~= repeated(base, n as nat));
    true
}

/// Whether the numeral of `x` is one block of digits written twice.
pub fn is_double(x: &usize) -> (double: bool)
    ensures
        double == has_double(*x as nat),
{
    let s: Vec<char> = decimal_of(*x);
    let len: usize = s.len();
    if len % 2 != 0 {
        return false;
    }
    let half: usize = len / 2;
    let mut i: usize = 0;
    while i < half
        invariant
            i <= half,
            half == len / 2,
            len == s@.len(),
            len % 2 == 0,
            s@ == decimal(*x as nat),
            forall|j: int| 0 <= j < i ==> #[trigger] s@[j] == s@[j + half],
        decreases half - i,
    {
        if s[i] != s[i + half] {
            assert(s@.take(half as int)[i as int] != s@.skip(half as int)[i as int]);
            return false;
        }
        i += 1;
    }
    assert(s@.take(half as int) =~= s@.skip(half as int));
    true
}

/// Whether the numeral of `x` is one block of digits written several
/// times.
pub fn is_repeat(x: &usize) -> (repeat: bool)
    ensures
        repeat == has_repeat(*x as nat),
{
    let s: Vec<char> = decimal_of(*x);
    let len: usize = s.len();
    let mut n: usize = 2;
    while n <= len
        invariant
            2 <= n,
            len == s@.len(),
            s@ == decimal(*x as nat),
            forall|m: nat| 2 <= m < n ==> !repeats_at(*x as nat, m),
        decreases len + 1 - n,
    {
        let within: bool = match n.checked_mul(n) {
            Some(square) => square <= *x,
            None => false,
        };
        if !within {
            assert forall|m: nat| !repeats_at(*x as nat, m) by {
                if m >= n {
                    assert(m * m >= n * n) by (nonlinear_arith)
                        requires
                            m >= n,
                    ;
                }
            }
            return false;
        }
        if len % n == 0 && repeats_n(s.as_slice(), n) {
            assert(repeats_at(*x as nat, n as nat));
            return true;
        }
        if n == len {
            assert forall|m: nat| !repeats_at(*x as nat, m) by {}
            return false;
        }
        n += 1;
    }
    assert forall|m: nat| !repeats_at(*x as nat, m) by {}
    false
}

/// The two ends that `range` writes, if it writes a range.
pub fn read_bounds(range: &[char]) -> (ends: Option<(usize, usize)>)
    ensures
        ends == parse_bounds(range@),
{
    let pieces: Vec<Vec<char>> = split_on(range, '-');
    let ghost all = texts(pieces@);
    let mut ends: Vec<usize> = Vec::new();
    let mut k: usize = 0;
    while k < pieces.len()
        invariant
            k <= pieces.len(),
            all == texts(pieces@),
            all == split(range@, '-'),
            ends@.len() == k,
            forall|i: int|
                0 <= i < k ==> parse_unsigned(#[trigger] all[i], usize::MAX as nat) == Some(
                    ends@[i] as nat,
                ),
        decreases pieces.len() - k,
    {
        match parse_usize(pieces[k].as_slice()) {
            Some(end) => {
                ends.push(end);
            },
            None => {
                assert(parse_unsigned(all[k as int], usize::MAX as nat).is_none());
                return None;
            },
        }
        k += 1;
    }
    if ends.len() >= 2 {
        Some((ends[0], ends[1]))
    } else {
        None
    }
}

/// The two ends that `range` writes.
pub fn parse_range(range: &str) -> (ends: (usize, usize))
    requires
        parse_bounds(range@).is_some(),
    ensures
        Some(ends) == parse_bounds(range@),
{
    let text: Vec<char> = chars_of(range);
    match read_bounds(text.as_slice()) {
        Some(ends) => ends,
        None => vstd::pervasive::unreached(),
    }
}

/// One more number adds itself to what is picked, if it is picked.
pub proof fn lemma_picked_step(a: int, b: int, pick: spec_fn(nat) -> bool)
    requires
        0 <= a <= b,
    ensures
        picked(a, b, pick) == if pick(b as nat) {
            picked(a, b - 1, pick).push(b as usize)
        } else {
            picked(a, b - 1, pick)
        },
{
}

/// The identifiers from the first to the second of `range` whose numeral
/// is one block of digits written twice, in ascending order.
pub fn find_doubles(range: (usize, usize)) -> (found: Vec<usize>)
    ensures
        found@ == picked(range.0 as int, range.1 as int, doubles()),
{
    let (a, b) = range;
    let mut found: Vec<usize> = Vec::new();
    if b < a {
        return found;
    }
    let mut x: usize = a;
    loop
        invariant_except_break
            found@ == picked(a as int, x - 1, doubles()),
        invariant
            a <= x <= b,
        ensures
            found@ == picked(a as int, b as int, doubles()),
        decreases b - x,
    {
        proof {
            lemma_picked_step(a as int, x as int, doubles());
        }
        if is_double(&x) {
            found.push(x);
        }
        if x == b {
            break ;
        }
        x += 1;
    }
    found
}

/// The identifiers from the first to the second of `range` whose numeral
/// is one block of digits written several times, in ascending order.
pub fn find_repeats(range: (usize, usize)) -> (found: Vec<usize>)
    ensures
        found@ == picked(range.0 as int, range.1 as int, repeats_any()),
{
    let (a, b) = range;
    let mut found: Vec<usize> = Vec::new();
    if b < a {
        return found;
    }
    let mut x: usize = a;
    loop
        invariant_except_break
            found@ == picked(a as int, x - 1, repeats_any()),
        invariant
            a <= x <= b,
        ensures
            found@ == picked(a as int, b as int, repeats_any()),
        decreases b - x,
    {
        proof {
            lemma_picked_step(a as int, x as int, repeats_any());
        }
        if is_repeat(&x) {
            found.push(x);
        }
        if x == b {
            break ;
        }
        x += 1;
    }
    found
}

/// The sum of `values`, if a machine word holds it.
pub fn sum_values(values: &Vec<usize>) -> (total: Option<usize>)
    ensures
        total == in_usize(Some(seq_sum(values@))),
{
    let mut total: usize = 0;
    let mut k: usize = 0;
    while k < values.len()
        invariant
            k <= values.len(),
            total == seq_sum(values@.take(k as int)),
        decreases values.len() - k,
    {
        proof {
            assert(values@.take(k + 1).drop_last() =~= values@.take(k as int));
            lemma_seq_sum_prefix(values@, k + 1);
        }
        match total.checked_add(values[k]) {
            Some(sum) => {
                total = sum;
            },
            None => {
                return None;
            },
        }
        k += 1;
    }
    assert(values@.take(k as int) =~= values@);
    Some(total)
}

/// The sum of a prefix of the values is no more than the sum of all.
pub proof fn lemma_seq_sum_prefix(values: Seq<usize>, k: int)
    requires
        0 <= k <= values.len(),
    ensures
        seq_sum(values.take(k)) <= seq_sum(values),
    decreases values.len() - k,
{
    if k == values.len() {
        assert(values.take(k) =~= values);
    } else {
        lemma_seq_sum_prefix(values, k + 1);
        assert(values.take(k + 1).drop_last() =~= values.take(k));
    }
}

/// How much of `s` is left once the white space at its end is taken off.
pub fn trimmed_len(s: &[char]) -> (len: usize)
    ensures
        len <= s.len(),
        s@.take(len as int) == trim_end(s@),
{
    let mut len: usize = s.len();
    assert(s@.take(len as int) =~= s@);
    while len > 0 && is_whitespace(s[len - 1])
        invariant
            len <= s.len(),
            trim_end(s@) == trim_end(s@.take(len as int)),
        decreases len,
    {
        assert(s@.take(len as int).drop_last() =~= s@.take(len - 1));
        len -= 1;
    }
    len
}

/// The sum of the invalid identifiers in the ranges of `input`, where
/// `twice` tells whether only the blocks written twice count; none where a
/// range is not written as it should be or a machine word cannot hold the
/// sum.
fn checked_total(input: &str, twice: bool) -> (total: Option<usize>)
    ensures
        twice ==> total == in_usize(answer_1(input@)),
        !twice ==> total == in_usize(answer_2(input@)),
{
    let text: Vec<char> = chars_of(input);
    let len: usize = trimmed_len(text.as_slice());
    proof {
        assert(text@.subrange(0, len as int) =~= text@.take(len as int));
    }
    let pieces: Vec<Vec<char>> = split_on(&text[0..len], ',');
    let ghost all = texts(pieces@);
    let ghost value = if twice {
        picked_total(doubles())
    } else {
        picked_total(repeats_any())
    };
    let mut total: usize = 0;
    let mut k: usize = 0;
    while k < pieces.len()
        invariant
            k <= pieces.len(),
            all == texts(pieces@),
            all == split(trim_end(input@), ','),
            value == if twice {
                picked_total(doubles())
            } else {
                picked_total(repeats_any())
            },
            sum_of(all.take(k as int), value) == Some(total as nat),
        decreases pieces.len() - k,
    {
        proof {
            lemma_sum_of_step(all, value, k as int);
            if sum_of(all, value).is_some() {
                lemma_sum_of_prefix(all, value, k + 1);
            }
        }
        let found: Option<usize> = match read_bounds(pieces[k].as_slice()) {
            Some(ends) => {
                let invalid: Vec<usize> = if twice {
                    find_doubles(ends)
                } else {
                    find_repeats(ends)
                };
                sum_values(&invalid)
            },
            None => None,
        };
        let sum: Option<usize> = match found {
            Some(found) => total.checked_add(found),
            None => None,
        };
        match sum {
            Some(sum) => {
                total = sum;
            },
            None => {
                return None;
            },
        }
        k += 1;
    }
    assert(all.take(k as int) =~= all);
    Some(total)
}

/// The sum of the identifiers whose numeral is a block written twice;
/// none where a range is not written as it should be or a machine word
/// cannot hold the sum.
pub fn checked_part_1(input: &str) -> (total: Option<usize>)
    ensures
        total == in_usize(answer_1(input@)),
{
    checked_total(input, true)
}

/// The sum of the identifiers whose numeral is a block written several
/// times; none where a range is not written as it should be or a machine
/// word cannot hold the sum.
pub fn checked_part_2(input: &str) -> (total: Option<usize>)
    ensures
        total == in_usize(answer_2(input@)),
{
    checked_total(input, false)
}

/// The sum of the identifiers whose numeral is a block written twice.
pub fn part_1(input: &str) -> (total: usize)
    requires
        in_usize(answer_1(input@)).is_some(),
    ensures
        Some(total) == in_usize(answer_1(input@)),
{
    match checked_part_1(input) {
        Some(total) => total,
        None => vstd::pervasive::unreached(),
    }
}

/// The sum of the identifiers whose numeral is a block written several
/// times.
pub fn part_2(input: &str) -> (total: usize)
    requires
        in_usize(answer_2(input@)).is_some(),
    ensures
        Some(total) == in_usize(answer_2(input@)),
{
    match checked_part_2(input) {
        Some(total) => total,
        None => vstd::pervasive::unreached(),
    }
}

} // verus!
