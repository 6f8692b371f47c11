//! Unit of splitting text.

use vstd::prelude::*;

use crate::dic::build::primitives::str_eq;

verus! {

/// Unit to split text into: A is the shortest, B middle (close to a word),
/// C the longest (named entities).
#[derive(Clone, Copy, Debug, PartialEq, Eq, Structural)]
pub enum Mode {
    /// Short units.
    A,
    /// Middle units.
    B,
    /// Named entities.
    C,
}

/// Whether `s` is the one-letter name `upper` or `lower`.
pub open spec fn spec_is_letter(s: Seq<char>, upper: char, lower: char) -> bool {
    s == seq![upper] || s == seq![lower]
}

impl std::str::FromStr for Mode {
    type Err = &'static str;

    /// Reads a mode from its letter, in upper or lower case.
    fn from_str(s: &str) -> (r: Result<Mode, &'static str>) {
        match Mode::parse(s) {
            Some(m) => Ok(m),
            None => Err("Mode must be one of \"A\", \"B\", or \"C\" (in lower or upper case)."),
        }
    }
}

impl Mode {
    /// The mode named by `s`: `A`, `B` or `C`, in upper or lower case.
    pub fn parse(s: &str) -> (r: Option<Mode>)
        ensures
            r == (if spec_is_letter(s@, 'A', 'a') {
                Some(Mode::A)
            } else if spec_is_letter(s@, 'B', 'b') {
                Some(Mode::B)
            } else if spec_is_letter(s@, 'C', 'c') {
                Some(Mode::C)
            } else {
                None
            }),
    {
        let upper_a = "A";
        let lower_a = "a";
        let upper_b = "B";
        let lower_b = "b";
        let upper_c = "C";
        let lower_c = "c";
        proof {
            reveal_strlit("A");
            reveal_strlit("a");
            reveal_strlit("B");
            reveal_strlit("b");
            reveal_strlit("C");
            reveal_strlit("c");
            assert(upper_a@ =~= seq!['A']);
            assert(lower_a@ =~= seq!['a']);
            assert(upper_b@ =~= seq!['B']);
            assert(lower_b@ =~= seq!['b']);
            assert(upper_c@ =~= seq!['C']);
            assert(lower_c@ =~= seq!['c']);
        }
        if str_eq(s, upper_a) || str_eq(s, lower_a) {
            Some(Mode::A)
        } else if str_eq(s, upper_b) || str_eq(s, lower_b) {
            Some(Mode::B)
        } else if str_eq(s, upper_c) || str_eq(s, lower_c) {
            Some(Mode::C)
        } else {
            None
        }
    }
}

} // verus!
