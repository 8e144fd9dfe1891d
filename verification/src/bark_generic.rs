//! A function that is generic over a trait.

use vstd::prelude::*;
use crate::decimal::{decimal, lemma_decimal_42, push_decimal};

verus! {

/// Something that can bark.
pub trait Dog {
    /// The line that this dog barks.
    spec fn bark_line(&self) -> Seq<char>;

    /// Barks: returns the line, for the caller to print.
    fn bark(&self) -> (line: String)
        ensures
            line@ == self.bark_line(),
    ;
}

impl Dog for i32 {
    open spec fn bark_line(&self) -> Seq<char> {
        "Bark! Bark! I'm something: "@ + decimal(*self as int)
    }

    fn bark(&self) -> (line: String) {
        let mut line = String::from_str("Bark! Bark! I'm something: ");
        push_decimal(&mut line, *self as i64);
        line
    }
}

impl Dog for &str {
    open spec fn bark_line(&self) -> Seq<char> {
        "Bark! Bark! I'm something: "@ + self@
    }

    fn bark(&self) -> (line: String) {
        let mut line = String::from_str("Bark! Bark! I'm something: ");
        line.append(*self);
        line
    }
}

/// Makes any dog bark, and returns what it said.
pub fn make_dog_bark<T: Dog>(dog: T) -> (line: String)
    ensures
        line@ == dog.bark_line(),
{
    dog.bark()
}

/// Makes the integer 42 and the word `hello` bark, and returns what they
/// said, in that order.
pub fn run() -> (lines: Vec<String>)
    ensures
        lines@.len() == 2,
        lines@[0]@ == "Bark! Bark! I'm something: 42"@,
        lines@[1]@ == "Bark! Bark! I'm something: hello"@,
{
    let number: i32 = 42;
    let word: &str = "hello";
    let mut lines: Vec<String> = Vec::new();
    lines.push(make_dog_bark(number));
    lines.push(make_dog_bark(word));
    proof {
        lemma_decimal_42();
        reveal_strlit("Bark! Bark! I'm something: ");
        reveal_strlit("hello");
        reveal_strlit("Bark! Bark! I'm something: 42");
        reveal_strlit("Bark! Bark! I'm something: hello");
        assert(lines@[0]@ =~= "Bark! Bark! I'm something: 42"@);
        assert(lines@[1]@ =~= "Bark! Bark! I'm something: hello"@);
    }
    lines
}

} // verus!
