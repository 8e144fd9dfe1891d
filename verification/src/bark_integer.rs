//! A trait implemented for one concrete type.

use vstd::prelude::*;
use crate::decimal::{decimal, lemma_decimal_42, push_decimal};

verus! {

/// Something that can bark.
pub trait Dog {
    /// The line that this dog barks.
    spec fn bark_line(&self) -> Seq<char>;

    /// Barks: returns the line, for the caller to print.
    fn bark(&self) -> (line: String)
        ensures
            line@ == self.bark_line(),
    ;
}

impl Dog for i32 {
    open spec fn bark_line(&self) -> Seq<char> {
        "Bark! Bark! I'm an integer: "@ + decimal(*self as int)
    }

    fn bark(&self) -> (line: String) {
        let mut line = String::from_str("Bark! Bark! I'm an integer: ");
        push_decimal(&mut line, *self as i64);
        line
    }
}

/// Lets the integer 42 bark, and returns what it said.
pub fn run() -> (lines: Vec<String>)
    ensures
        lines@.len() == 1,
        lines@[0]@ == "Bark! Bark! I'm an integer: 42"@,
{
    let number: i32 = 42;
    let mut lines: Vec<String> = Vec::new();
    lines.push(number.bark());
    proof {
        lemma_decimal_42();
        reveal_strlit("Bark! Bark! I'm an integer: ");
        reveal_strlit("Bark! Bark! I'm an integer: 42");
        assert(lines@[0]@ =~= "Bark! Bark! I'm an integer: 42"@);
    }
    lines
}

} // verus!
