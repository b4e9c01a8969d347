//! Which of a day's two computations a run carries out, as chosen by a
//! single command-line token.

use crate::text::chars_of;
use vstd::prelude::*;
use vstd::std_specs::convert::FromSpecImpl;

verus! {

/// The computations selected for one run.
#[derive(Clone, Copy, Debug, PartialEq, Eq, Structural)]
pub enum Part {
    /// Only the first computation.
    One,
    /// Only the second computation.
    Two,
    /// The first computation, then the second.
    Both,
}

/// The tokens that select the first computation alone.
pub open spec fn names_first(token: Seq<char>) -> bool {
    token == "1"@ || token == "01"@ || token == "one"@ || token == "One"@
}

/// The tokens that select the second computation alone.
pub open spec fn names_second(token: Seq<char>) -> bool {
    token == "2"@ || token == "02"@ || token == "two"@ || token == "Two"@
}

/// The selection that a token stands for. Every token stands for one:
/// whatever names neither computation, the empty token included, selects both.
pub open spec fn select(token: Seq<char>) -> Part {
    if names_first(token) {
        Part::One
    } else if names_second(token) {
        Part::Two
    } else {
        Part::Both
    }
}

impl Part {
    /// Whether the first computation runs under this selection.
    pub open spec fn includes_first(self) -> bool {
        self == Part::One || self == Part::Both
    }

    /// Whether the second computation runs under this selection.
    pub open spec fn includes_second(self) -> bool {
        self == Part::Two || self == Part::Both
    }

    /// Whether the first computation runs under this selection.
    #[verifier::when_used_as_spec(includes_first)]
    pub fn runs_first(self) -> (b: bool)
        ensures
            b == self.includes_first(),
    {
        match self {
            Part::One | Part::Both => true,
            Part::Two => false,
        }
    }

    /// Whether the second computation runs under this selection.
    #[verifier::when_used_as_spec(includes_second)]
    pub fn runs_second(self) -> (b: bool)
        ensures
            b == self.includes_second(),
    {
        match self {
            Part::Two | Part::Both => true,
            Part::One => false,
        }
    }
}

impl FromSpecImpl<&str> for Part {
    open spec fn obeys_from_spec() -> bool {
        true
    }

    open spec fn from_spec(value: &str) -> Part {
        select(value@)
    }
}

impl From<&str> for Part {
    /// Reads a command-line token. The match is literal and case-sensitive,
    /// and no token is refused.
    fn from(value: &str) -> (part: Part)
        ensures
            part == select(value@),
    {
        let token: Vec<char> = chars_of(value);
        let n: usize = token.len();
        proof {
            reveal_strlit("1");
            reveal_strlit("01");
            reveal_strlit("one");
            reveal_strlit("One");
            reveal_strlit("2");
            reveal_strlit("02");
            reveal_strlit("two");
            reveal_strlit("Two");
        }
        let short: bool = n == 1;
        let padded: bool = n == 2 && token[0] == '0';
        let word: bool = n == 3;
        if (short && token[0] == '1') || (padded && token[1] == '1') || (word && (token[0] == 'o'
            || token[0] == 'O') && token[1] == 'n' && token[2] == 'e') {
            assert(names_first(token@)) by {
                if short {
                    assert(token@ =~= "1"@);
                } else if padded {
                    assert(token@ =~= "01"@);
                } else if token[0] == 'o' {
                    assert(token@ =~= "one"@);
                } else {
                    assert(token@ =~= "One"@);
                }
            }
            Part::One
        } else if (short && token[0] == '2') || (padded && token[1] == '2') || (word && (token[0]
            == 't' || token[0] == 'T') && token[1] == 'w' && token[2] == 'o') {
            assert(names_second(token@)) by {
                if short {
                    assert(token@ =~= "2"@);
                } else if padded {
                    assert(token@ =~= "02"@);
                } else if token[0] == 't' {
                    assert(token@ =~= "two"@);
                } else {
                    assert(token@ =~= "Two"@);
                }
            }
            assert(!names_first(token@));
            Part::Two
        } else {
            assert(!names_first(token@));
            assert(!names_second(token@));
            Part::Both
        }
    }
}

} // verus!
