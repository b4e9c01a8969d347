//! How a run begins and how it reports: the credential that it cannot do
//! without, the computations that the command line selects, and the lines
//! that show their results.

use crate::decimal::{decimal, decimal_of};
use crate::provider::{Config, Lookup};
use crate::selector::{select, Part};
use crate::text::push_chars;
use vstd::prelude::*;
use vstd::string::*;

verus! {

/// A run that has what it needs to obtain its input.
pub struct Run {
    /// The computations to carry out once the input is there.
    pub part: Part,
    /// The retrieval of the input, at its first stage.
    pub lookup: Lookup,
}

/// Begins a run for the input of `day` in `year`, from the credential that
/// the environment holds, if any, and the first command-line argument,
/// empty where there is none. Without a credential there is no run, and
/// so no retrieval: nothing is read or requested.
pub fn start(session: Option<String>, token: &str, year: u16, day: u8) -> (run: Option<Run>)
    ensures
        session.is_none() <==> run.is_none(),
        run matches Some(r) ==> {
            &&& r.part == select(token@)
            &&& r.lookup.year == year
            &&& r.lookup.day == day
            &&& Some(r.lookup.session) == session
            &&& r.lookup.cache_root@ == crate::provider::CACHE_LOCATION@
        },
{
    match Config::new(session, None) {
        None => None,
        Some(config) => {
            let part: Part = Part::from(token);
            let lookup: Lookup = Lookup::new(&config, year, day);
            Some(Run { part, lookup })
        },
    }
}

/// The line that shows `value` under `label`.
pub open spec fn answer_line(label: Seq<char>, value: nat) -> Seq<char> {
    label + ": "@ + decimal(value)
}

fn labelled_line(label: &str, value: usize) -> (line: String)
    ensures
        line@ == answer_line(label@, value as nat),
{
    let mut line: String = String::from_str(label);
    line.append(": ");
    let digits: Vec<char> = decimal_of(value);
    push_chars(&mut line, digits.as_slice());
    line
}

/// The line that shows the result of the first computation.
pub fn part_one_line(value: usize) -> (line: String)
    ensures
        line@ == answer_line("Part One"@, value as nat),
{
    labelled_line("Part One", value)
}

/// The line that shows the result of the second computation.
pub fn part_two_line(value: usize) -> (line: String)
    ensures
        line@ == answer_line("Part Two"@, value as nat),
{
    labelled_line("Part Two", value)
}

} // verus!
