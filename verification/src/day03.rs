//! Battery banks. A bank is a line of digits; its joltage is the largest
//! number that some of its digits spell when they are read in their order.

use crate::decimal::{
    all_digits, digit_of, digit_value, digits_value, is_digit, lemma_digits_value_bound,
    lemma_digits_value_first, pow10,
};
use crate::sums::{in_usize, lemma_sum_of_prefix, lemma_sum_of_step, sum_of};
use crate::text::{chars_of, lines, split_lines, texts};
use vstd::prelude::*;
use vstd::string::*;

verus! {

/// The largest character of `s` above `'0'` with the first place where it
/// stands; `(0, '0')` where `s` holds none.
pub open spec fn first_max_of(s: Seq<char>) -> (int, char)
    decreases s.len(),
{
    if s.len() == 0 {
        (0, '0')
    } else {
        let before = first_max_of(s.drop_last());
        if s.last() > before.1 {
            (s.len() - 1, s.last())
        } else {
            before
        }
    }
}

/// What `first_max_of` finds is a place of `s` that holds the largest
/// character, which nothing before that place equals; or the default.
pub proof fn lemma_first_max_of(s: Seq<char>)
    ensures
        ({
            let (i, c) = first_max_of(s);
            &&& c >= '0'
            &&& forall|j: int| 0 <= j < s.len() ==> s[j] <= c
            &&& c > '0' ==> 0 <= i < s.len() && s[i] == c
            &&& c == '0' ==> i == 0
            &&& forall|j: int| 0 <= j < i ==> s[j] < c
        }),
    decreases s.len(),
{
    if s.len() > 0 {
        lemma_first_max_of(s.drop_last());
        let before = first_max_of(s.drop_last());
        assert forall|j: int| 0 <= j < s.len() - 1 implies s[j] == s.drop_last()[j] by {}
    }
}

/// The joltage of a bank from which two batteries are taken: the largest
/// digit that is not the last, then the largest digit behind it. A bank
/// with no battery, or with a character above `'9'`, has none.
pub open spec fn pair_joltage(bank: Seq<char>) -> Option<nat> {
    if bank.len() == 0 {
        None
    } else {
        let (i, tens) = first_max_of(bank.drop_last());
        let (_, ones) = first_max_of(bank.skip(i + 1));
        if tens <= '9' && ones <= '9' {
            Some(digit_value(tens) * 10 + digit_value(ones))
        } else {
            None
        }
    }
}

/// The bank that is left and the number spelled once `remaining` more
/// batteries are taken after `value`: each is the largest digit that
/// leaves enough batteries behind it, at its first place. There is no
/// result where the bank is too short or a character above `'9'` is met.
pub open spec fn chosen_joltage(bank: Seq<char>, remaining: nat, value: nat) -> Option<
    (Seq<char>, nat),
>
    decreases remaining,
{
    if remaining == 0 {
        Some((bank, value))
    } else if remaining > bank.len() {
        None
    } else {
        let (i, digit) = first_max_of(bank.take(bank.len() - remaining + 1));
        if digit <= '9' {
            chosen_joltage(
                bank.skip(i + 1),
                (remaining - 1) as nat,
                10 * value + digit_value(digit),
            )
        } else {
            None
        }
    }
}

/// The joltage of a bank from which twelve batteries are taken.
pub open spec fn dozen_joltage(bank: Seq<char>) -> Option<nat> {
    match chosen_joltage(bank, 12, 0) {
        Some((_, value)) => Some(value),
        None => None,
    }
}

/// The joltage of each bank with two batteries.
pub open spec fn by_pairs() -> spec_fn(Seq<char>) -> Option<nat> {
    |bank: Seq<char>| pair_joltage(bank)
}

/// The joltage of each bank with twelve batteries.
pub open spec fn by_dozens() -> spec_fn(Seq<char>) -> Option<nat> {
    |bank: Seq<char>| dozen_joltage(bank)
}

/// The sum of the banks' joltages with two batteries each, one bank to a
/// line.
pub open spec fn answer_1(input: Seq<char>) -> Option<nat> {
    sum_of(lines(input), by_pairs())
}

/// The sum of the banks' joltages with twelve batteries each, one bank to
/// a line.
pub open spec fn answer_2(input: Seq<char>) -> Option<nat> {
    sum_of(lines(input), by_dozens())
}

/// Taking batteries never lowers the number spelled so far.
pub proof fn lemma_chosen_joltage_grows(bank: Seq<char>, remaining: nat, value: nat)
    ensures
        chosen_joltage(bank, remaining, value) matches Some((_, spelled)) ==> spelled >= value,
    decreases remaining,
{
    if remaining > 0 && remaining <= bank.len() {
        let (i, digit) = first_max_of(bank.take(bank.len() - remaining + 1));
        if digit <= '9' {
            lemma_chosen_joltage_grows(
                bank.skip(i + 1),
                (remaining - 1) as nat,
                10 * value + digit_value(digit),
            );
        }
    }
}

/// The number that the batteries at the places `i` and `j` spell.
pub open spec fn spelled(bank: Seq<char>, i: int, j: int) -> nat {
    digit_value(bank[i]) * 10 + digit_value(bank[j])
}

/// The joltage of a bank of digits with two batteries is the largest
/// number that two of its batteries spell in their order: two of them
/// spell it, and no two spell more.
pub proof fn lemma_pair_joltage_is_largest(bank: Seq<char>)
    requires
        all_digits(bank),
        bank.len() >= 2,
    ensures
        pair_joltage(bank).is_some(),
        exists|i: int, j: int|
            0 <= i < j < bank.len() && #[trigger] spelled(bank, i, j) == pair_joltage(
                bank,
            ).unwrap(),
        forall|i: int, j: int|
            0 <= i < j < bank.len() ==> #[trigger] spelled(bank, i, j) <= pair_joltage(
                bank,
            ).unwrap(),
{
    let front = bank.drop_last();
    let (i, tens) = first_max_of(front);
    lemma_first_max_of(front);
    assert(front[0] == bank[0]);
    assert(is_digit(bank[0]));
    assert(0 <= i < front.len() && front[i] == tens) by {
        if tens == '0' {
            assert(front[0] <= '0');
        }
    }
    assert(bank[i] == tens);
    let back = bank.skip(i + 1);
    let (k, ones) = first_max_of(back);
    lemma_first_max_of(back);
    assert(back[0] == bank[i + 1]);
    assert(is_digit(bank[i + 1]));
    assert(0 <= k < back.len() && back[k] == ones) by {
        if ones == '0' {
            assert(back[0] <= '0');
        }
    }
    assert(bank[i + 1 + k] == ones);
    assert(is_digit(bank[i]) && is_digit(bank[i + 1 + k]));
    assert(spelled(bank, i, i + 1 + k) == pair_joltage(bank).unwrap());
    assert forall|a: int, b: int| 0 <= a < b < bank.len() implies #[trigger] spelled(bank, a, b)
        <= pair_joltage(bank).unwrap() by {
        assert(is_digit(bank[a]) && is_digit(bank[b]));
        assert(front[a] == bank[a]);
        assert(bank[a] <= tens);
        if bank[a] == tens {
            assert(a >= i);
            assert(back[b - i - 1] == bank[b]);
            assert(bank[b] <= ones);
        }
    }
}

/// The largest character of `s` above `'0'`, with its first place.
pub fn first_max(s: &[char]) -> (found: (usize, char))
    ensures
        (found.0 as int, found.1) == first_max_of(s@),
        found.0 == 0 || found.0 < s.len(),
{
    let mut best: (usize, char) = (0, '0');
    let mut at: usize = 0;
    while at < s.len()
        invariant
            at <= s.len(),
            (best.0 as int, best.1) == first_max_of(s@.take(at as int)),
            best.0 == 0 || best.0 < at,
        decreases s.len() - at,
    {
        proof {
            let now = s@.take(at + 1);
            assert(now.drop_last() =~= s@.take(at as int));
            assert(now.last() == s[at as int]);
        }
        if s[at] > best.1 {
            best = (at, s[at]);
        }
        at += 1;
    }
    assert(s@.take(at as int) =~= s@);
    best
}

/// The joltage of a bank from which two batteries are taken, if it has one.
pub fn bank_joltage(bank: &[char]) -> (jolts: Option<usize>)
    ensures
        jolts == in_usize(pair_joltage(bank@)),
{
    let len: usize = bank.len();
    if len == 0 {
        return None;
    }
    let (i, tens) = first_max(&bank[0..len - 1]);
    let (_, ones) = first_max(&bank[i + 1..len]);
    proof {
        assert(bank@.subrange(0, len - 1) =~= bank@.drop_last());
        assert(bank@.subrange(i + 1, len as int) =~= bank@.skip(i + 1));
    }
    if tens <= '9' && ones <= '9' {
        proof {
            lemma_first_max_of(bank@.drop_last());
            lemma_first_max_of(bank@.skip(i + 1));
        }
        Some(digit_of(tens) as usize * 10 + digit_of(ones) as usize)
    } else {
        None
    }
}

/// The joltage of a bank from which two batteries are taken.
pub fn max_joltage(line: &str) -> (jolts: usize)
    requires
        in_usize(pair_joltage(line@)).is_some(),
    ensures
        Some(jolts) == in_usize(pair_joltage(line@)),
{
    let bank: Vec<char> = chars_of(line);
    match bank_joltage(bank.as_slice()) {
        Some(jolts) => jolts,
        None => vstd::pervasive::unreached(),
    }
}

/// Takes `remaining` more batteries from `bank` after `value`, and gives
/// the bank that is left with the number spelled, if there is one and a
/// machine word holds it.
pub fn choose_batteries<'a>(bank: &'a [char], remaining: usize, value: usize) -> (chosen: Option<
    (&'a [char], usize),
>)
    ensures
        match chosen {
            Some((rest, spelled)) => chosen_joltage(bank@, remaining as nat, value as nat) == Some(
                (rest@, spelled as nat),
            ),
            None => chosen_joltage(bank@, remaining as nat, value as nat) matches Some(
                (_, spelled),
            ) ==> spelled > usize::MAX,
        },
    decreases remaining,
{
    if remaining == 0 {
        return Some((bank, value));
    }
    let len: usize = bank.len();
    if remaining > len {
        return None;
    }
    let (i, digit) = first_max(&bank[0..len - remaining + 1]);
    proof {
        assert(bank@.subrange(0, len - remaining + 1) =~= bank@.take(len - remaining + 1));
        assert(bank@.subrange(i + 1, len as int) =~= bank@.skip(i + 1));
        lemma_first_max_of(bank@.take(len - remaining + 1));
    }
    if digit > '9' {
        return None;
    }
    let spelled: Option<usize> = match value.checked_mul(10) {
        Some(shifted) => shifted.checked_add(digit_of(digit) as usize),
        None => None,
    };
    match spelled {
        Some(spelled) => choose_batteries(&bank[i + 1..len], remaining - 1, spelled),
        None => {
            proof {
                lemma_chosen_joltage_grows(
                    bank@.skip(i + 1),
                    (remaining - 1) as nat,
                    10 * value as nat + digit_value(digit),
                );
            }
            None
        },
    }
}

/// Takes `remaining` more batteries from `line` after `value`: gives what
/// is left of the line, the number of batteries still to take, which is
/// none, and the number spelled.
pub fn recursive_joltage(line: &str, remaining: usize, value: usize) -> (done: (&str, usize, usize))
    requires
        chosen_joltage(line@, remaining as nat, value as nat) matches Some((_, spelled))
            && spelled <= usize::MAX,
    ensures
        chosen_joltage(line@, remaining as nat, value as nat) == Some(
            (done.0@, done.2 as nat),
        ),
        done.1 == 0,
{
    let bank: Vec<char> = chars_of(line);
    match choose_batteries(bank.as_slice(), remaining, value) {
        Some((rest, spelled)) => {
            proof {
                lemma_chosen_joltage_is_suffix(line@, remaining as nat, value as nat);
            }
            let from: usize = bank.len() - rest.len();
            (line.substring_char(from, bank.len()), 0, spelled)
        },
        None => vstd::pervasive::unreached(),
    }
}

/// The bank that is left when batteries are taken is the end of the bank
/// they are taken from.
pub proof fn lemma_chosen_joltage_is_suffix(bank: Seq<char>, remaining: nat, value: nat)
    ensures
        chosen_joltage(bank, remaining, value) matches Some((rest, _)) ==> rest.len() <= bank.len()
            && rest == bank.skip(bank.len() - rest.len()),
    decreases remaining,
{
    if remaining == 0 {
        assert(bank.skip(0) =~= bank);
    } else if remaining <= bank.len() {
        let window = bank.take(bank.len() - remaining + 1);
        let (i, digit) = first_max_of(window);
        lemma_first_max_of(window);
        if digit <= '9' {
            let next = bank.skip(i + 1);
            lemma_chosen_joltage_is_suffix(
                next,
                (remaining - 1) as nat,
                10 * value + digit_value(digit),
            );
            match chosen_joltage(next, (remaining - 1) as nat, 10 * value + digit_value(digit)) {
                Some((rest, _)) => {
                    assert(next.skip(next.len() - rest.len()) =~= bank.skip(
                        bank.len() - rest.len(),
                    ));
                },
                None => {},
            }
        }
    }
}

/// The joltage of a bank from which twelve batteries are taken, if it has
/// one that a machine word holds.
pub fn dozen_bank_joltage(bank: &[char]) -> (jolts: Option<usize>)
    ensures
        jolts == in_usize(dozen_joltage(bank@)),
{
    match choose_batteries(bank, 12, 0) {
        Some((_, spelled)) => Some(spelled),
        None => None,
    }
}

/// The sum of the banks' joltages with two batteries each; none where a
/// line is no bank or the sum exceeds a machine word.
pub fn checked_part_1(input: &str) -> (total: Option<usize>)
    ensures
        total == in_usize(answer_1(input@)),
{
    let text: Vec<char> = chars_of(input);
    let banks: Vec<Vec<char>> = split_lines(text.as_slice());
    let ghost all = texts(banks@);
    let mut total: usize = 0;
    let mut k: usize = 0;
    while k < banks.len()
        invariant
            k <= banks.len(),
            all == texts(banks@),
            all == lines(input@),
            sum_of(all.take(k as int), by_pairs()) == Some(total as nat),
        decreases banks.len() - k,
    {
        proof {
            lemma_sum_of_step(all, by_pairs(), k as int);
            if sum_of(all, by_pairs()).is_some() {
                lemma_sum_of_prefix(all, by_pairs(), k + 1);
            }
        }
        let sum: Option<usize> = match bank_joltage(banks[k].as_slice()) {
            Some(jolts) => total.checked_add(jolts),
            None => None,
        };
        match sum {
            Some(sum) => {
                total = sum;
            },
            None => {
                return None;
            },
        }
        k += 1;
    }
    assert(all.take(k as int) =~= all);
    Some(total)
}

/// The sum of the banks' joltages with twelve batteries each; none where a
/// line is no bank of twelve or the sum exceeds a machine word.
pub fn checked_part_2(input: &str) -> (total: Option<usize>)
    ensures
        total == in_usize(answer_2(input@)),
{
    let text: Vec<char> = chars_of(input);
    let banks: Vec<Vec<char>> = split_lines(text.as_slice());
    let ghost all = texts(banks@);
    let mut total: usize = 0;
    let mut k: usize = 0;
    while k < banks.len()
        invariant
            k <= banks.len(),
            all == texts(banks@),
            all == lines(input@),
            sum_of(all.take(k as int), by_dozens()) == Some(total as nat),
        decreases banks.len() - k,
    {
        proof {
            lemma_sum_of_step(all, by_dozens(), k as int);
            if sum_of(all, by_dozens()).is_some() {
                lemma_sum_of_prefix(all, by_dozens(), k + 1);
            }
        }
        let sum: Option<usize> = match dozen_bank_joltage(banks[k].as_slice()) {
            Some(jolts) => total.checked_add(jolts),
            None => None,
        };
        match sum {
            Some(sum) => {
                total = sum;
            },
            None => {
                return None;
            },
        }
        k += 1;
    }
    assert(all.take(k as int) =~= all);
    Some(total)
}

/// The sum of the banks' joltages with two batteries each.
pub fn part_1(input: &str) -> (total: usize)
    requires
        in_usize(answer_1(input@)).is_some(),
    ensures
        Some(total) == in_usize(answer_1(input@)),
{
    match checked_part_1(input) {
        Some(total) => total,
        None => vstd::pervasive::unreached(),
    }
}

/// The sum of the banks' joltages with twelve batteries each.
pub fn part_2(input: &str) -> (total: usize)
    requires
        in_usize(answer_2(input@)).is_some(),
    ensures
        Some(total) == in_usize(answer_2(input@)),
{
    match checked_part_2(input) {
        Some(total) => total,
        None => vstd::pervasive::unreached(),
    }
}

/// The batteries at the places `picks`, in the order of `picks`.
pub open spec fn taken(bank: Seq<char>, picks: Seq<int>) -> Seq<char> {
    Seq::new(picks.len(), |k: int| bank[picks[k]])
}

/// `picks` are places among the first `len`, in ascending order.
pub open spec fn ascending(picks: Seq<int>, len: int) -> bool {
    &&& forall|k: int| 0 <= k < picks.len() ==> 0 <= #[trigger] picks[k] < len
    &&& forall|j: int, k: int|
        0 <= j < k < picks.len() ==> #[trigger] picks[j] < #[trigger] picks[k]
}

/// The joltage of a bank from which `n` batteries are taken.
pub open spec fn largest_joltage(bank: Seq<char>, n: nat) -> nat {
    match chosen_joltage(bank, n, 0) {
        Some((_, spelled)) => spelled,
        None => 0,
    }
}

/// What the first battery to take is, in a bank of digits from which `n`
/// are to be taken: a place that leaves enough batteries behind it, and
/// that holds the largest digit of all such places, with none as large
/// before it.
proof fn lemma_first_choice(bank: Seq<char>, n: nat)
    requires
        all_digits(bank),
        1 <= n <= bank.len(),
    ensures
        ({
            let (i, digit) = first_max_of(bank.take(bank.len() - n + 1));
            &&& 0 <= i <= bank.len() - n
            &&& bank[i] == digit
            &&& is_digit(digit)
            &&& forall|j: int| 0 <= j <= bank.len() - n ==> bank[j] <= digit
            &&& forall|j: int| 0 <= j < i ==> bank[j] < digit
            &&& all_digits(bank.skip(i + 1))
            &&& n - 1 <= bank.skip(i + 1).len()
        }),
{
    let window = bank.take(bank.len() - n + 1);
    let (i, digit) = first_max_of(window);
    lemma_first_max_of(window);
    assert(window[0] == bank[0]);
    assert(is_digit(bank[0]));
    assert(0 <= i < window.len() && window[i] == digit) by {
        if digit == '0' {
            assert(window[0] <= '0');
        }
    }
    assert(is_digit(bank[i]));
    assert forall|j: int| 0 <= j <= bank.len() - n implies bank[j] <= digit by {
        assert(window[j] == bank[j]);
    }
    assert forall|j: int| 0 <= j < i implies bank[j] < digit by {
        assert(window[j] == bank[j]);
    }
    let next = bank.skip(i + 1);
    assert forall|j: int| 0 <= j < next.len() implies is_digit(#[trigger] next[j]) by {
        assert(is_digit(bank[j + i + 1]));
    }
}

/// Taking `n` batteries after a number spelled so far shifts that number
/// by `n` places and puts the joltage of the bank behind it.
pub proof fn lemma_chosen_joltage_shifts(bank: Seq<char>, n: nat, value: nat)
    requires
        all_digits(bank),
        n <= bank.len(),
    ensures
        chosen_joltage(bank, n, value).is_some(),
        chosen_joltage(bank, n, 0).is_some(),
        chosen_joltage(bank, n, value).unwrap().0 == chosen_joltage(bank, n, 0).unwrap().0,
        chosen_joltage(bank, n, value).unwrap().1 == value * pow10(n) + largest_joltage(bank, n),
    decreases n,
{
    if n == 0 {
        assert(value * 1 == value) by (nonlinear_arith);
    } else {
        lemma_first_choice(bank, n);
        let (i, digit) = first_max_of(bank.take(bank.len() - n + 1));
        let next = bank.skip(i + 1);
        let first = digit_value(digit);
        let place = pow10((n - 1) as nat);
        lemma_chosen_joltage_shifts(next, (n - 1) as nat, 10 * value + first);
        lemma_chosen_joltage_shifts(next, (n - 1) as nat, first);
        assert(10 * 0 + first == first);
        assert((10 * value + first) * place == value * (10 * place) + first * place)
            by (nonlinear_arith);
    }
}

/// Places in ascending order lie at least as far apart as they are many.
proof fn lemma_ascending_spread(picks: Seq<int>, len: int, k: int)
    requires
        ascending(picks, len),
        0 <= k < picks.len(),
    ensures
        picks[0] + k <= picks[k],
    decreases k,
{
    if k > 0 {
        lemma_ascending_spread(picks, len, k - 1);
        assert(picks[k - 1] < picks[k]);
    }
}

/// Some `n` batteries of the bank, in their order, spell its joltage.
pub proof fn lemma_joltage_is_spelled(bank: Seq<char>, n: nat) -> (picks: Seq<int>)
    requires
        all_digits(bank),
        n <= bank.len(),
    ensures
        picks.len() == n,
        ascending(picks, bank.len() as int),
        digits_value(taken(bank, picks)) == largest_joltage(bank, n),
    decreases n,
{
    if n == 0 {
        let picks = Seq::<int>::empty();
        assert(taken(bank, picks) =~= Seq::<char>::empty());
        picks
    } else {
        lemma_first_choice(bank, n);
        let (i, digit) = first_max_of(bank.take(bank.len() - n + 1));
        let next = bank.skip(i + 1);
        let behind = lemma_joltage_is_spelled(next, (n - 1) as nat);
        let picks = seq![i] + Seq::new(behind.len(), |k: int| behind[k] + i + 1);
        assert(ascending(picks, bank.len() as int)) by {
            assert forall|j: int, k: int| 0 <= j < k < picks.len() implies #[trigger] picks[j]
                < #[trigger] picks[k] by {
                if j > 0 {
                    assert(behind[j - 1] < behind[k - 1]);
                } else {
                    assert(0 <= behind[k - 1]);
                }
            }
            assert forall|k: int| 0 <= k < picks.len() implies 0 <= #[trigger] picks[k]
                < bank.len() by {
                if k > 0 {
                    assert(0 <= behind[k - 1] < next.len());
                }
            }
        }
        let spelled = taken(bank, picks);
        assert(spelled.skip(1) =~= taken(next, behind));
        assert(spelled[0] == digit);
        lemma_digits_value_first(spelled);
        lemma_chosen_joltage_shifts(next, (n - 1) as nat, digit_value(digit));
        picks
    }
}

/// No `n` batteries of the bank, in their order, spell more than its
/// joltage.
pub proof fn lemma_joltage_is_largest(bank: Seq<char>, n: nat, picks: Seq<int>)
    requires
        all_digits(bank),
        n <= bank.len(),
        picks.len() == n,
        ascending(picks, bank.len() as int),
    ensures
        digits_value(taken(bank, picks)) <= largest_joltage(bank, n),
    decreases n,
{
    let spelled = taken(bank, picks);
    if n == 0 {
        assert(spelled =~= Seq::<char>::empty());
    } else {
        lemma_first_choice(bank, n);
        let (i, digit) = first_max_of(bank.take(bank.len() - n + 1));
        let next = bank.skip(i + 1);
        let place = pow10((n - 1) as nat);
        let a = picks[0];
        lemma_ascending_spread(picks, bank.len() as int, n - 1);
        assert(picks[n - 1] < bank.len());
        assert(0 <= a <= bank.len() - n);
        assert(bank[a] <= digit);
        assert(is_digit(bank[a]));
        lemma_digits_value_first(spelled);
        lemma_chosen_joltage_shifts(next, (n - 1) as nat, digit_value(digit));
        let rest = spelled.skip(1);
        assert(all_digits(rest)) by {
            assert forall|k: int| 0 <= k < rest.len() implies is_digit(#[trigger] rest[k]) by {
                assert(0 <= picks[k + 1] < bank.len());
                assert(is_digit(bank[picks[k + 1]]));
            }
        }
        if bank[a] == digit {
            assert(a >= i);
            let behind = Seq::new((n - 1) as nat, |k: int| picks[k + 1] - (i + 1));
            assert(ascending(behind, next.len() as int)) by {
                assert forall|k: int| 0 <= k < behind.len() implies 0 <= #[trigger] behind[k]
                    < next.len() by {
                    assert(picks[0] < picks[k + 1]);
                    assert(picks[k + 1] < bank.len());
                }
                assert forall|j: int, k: int| 0 <= j < k < behind.len() implies #[trigger] behind[j]
                    < #[trigger] behind[k] by {
                    assert(picks[j + 1] < picks[k + 1]);
                }
            }
            assert(rest =~= taken(next, behind));
            lemma_joltage_is_largest(next, (n - 1) as nat, behind);
        } else {
            lemma_digits_value_bound(rest);
            let lower = digit_value(bank[a]);
            let upper = digit_value(digit);
            assert(lower + 1 <= upper);
            assert(lower * place + place <= upper * place) by (nonlinear_arith)
                requires
                    lower + 1 <= upper,
                    place >= 0,
            ;
        }
    }
}

} // verus!
