//! The errors of the library and their messages.

use vstd::prelude::*;
use vstd::string::*;

verus! {

/// What can go wrong while a parser is made or a file is indexed.
#[derive(Debug)]
pub enum PrismError {
    /// The language identifier is not one of the supported ones.
    UnsupportedLanguage(String),
    /// No syntax tree could be produced for the text at all.
    ParseError(String),
    /// Input or output failed; the text describes how.
    IoError(String),
    /// A single line alone is estimated above the largest chunk allowed, so
    /// no split along lines can bring every chunk under it.
    ChunkTooLarge { actual: usize, max: usize },
}

/// The character that stands for a digit below ten.
pub open spec fn spec_digit(d: int) -> char {
    if d == 0 {
        '0'
    } else if d == 1 {
        '1'
    } else if d == 2 {
        '2'
    } else if d == 3 {
        '3'
    } else if d == 4 {
        '4'
    } else if d == 5 {
        '5'
    } else if d == 6 {
        '6'
    } else if d == 7 {
        '7'
    } else if d == 8 {
        '8'
    } else {
        '9'
    }
}

/// A natural number written in base ten, without leading zeros.
pub open spec fn spec_decimal(n: nat) -> Seq<char>
    decreases n,
{
    if n < 10 {
        seq![spec_digit(n as int)]
    } else {
        spec_decimal(n / 10).push(spec_digit((n % 10) as int))
    }
}

fn digit_text(d: usize) -> (r: &'static str)
    requires
        d < 10,
    ensures
        r@ == seq![spec_digit(d as int)],
{
    proof {
        reveal_strlit("0");
        reveal_strlit("1");
        reveal_strlit("2");
        reveal_strlit("3");
        reveal_strlit("4");
        reveal_strlit("5");
        reveal_strlit("6");
        reveal_strlit("7");
        reveal_strlit("8");
        reveal_strlit("9");
    }
    let r = if d == 0 {
        "0"
    } else if d == 1 {
        "1"
    } else if d == 2 {
        "2"
    } else if d == 3 {
        "3"
    } else if d == 4 {
        "4"
    } else if d == 5 {
        "5"
    } else if d == 6 {
        "6"
    } else if d == 7 {
        "7"
    } else if d == 8 {
        "8"
    } else {
        "9"
    };
    assert(r@ =~= seq![spec_digit(d as int)]);
    r
}

/// Writes a number in base ten.
pub fn decimal(n: usize) -> (r: String)
    ensures
        r@ == spec_decimal(n as nat),
    decreases n,
{
    if n < 10 {
        String::from_str(digit_text(n))
    } else {
        let mut r = decimal(n / 10);
        r.append(digit_text(n % 10));
        assert(r@ =~= spec_decimal((n / 10) as nat).push(spec_digit((n % 10) as int)));
        r
    }
}

impl PrismError {
    /// The message of an error, as a sequence of characters.
    pub open spec fn spec_message(self) -> Seq<char> {
        match self {
            PrismError::UnsupportedLanguage(name) => "Unsupported language: "@ + name@,
            PrismError::ParseError(text) => "Parse error: "@ + text@,
            PrismError::IoError(text) => "IO error: "@ + text@,
            PrismError::ChunkTooLarge { actual, max } => "Chunk size exceeded: "@ + spec_decimal(
                actual as nat,
            ) + " > "@ + spec_decimal(max as nat),
        }
    }

    /// Renders the error as the line of text shown to a caller.
    pub fn message(&self) -> (r: String)
        ensures
            r@ == self.spec_message(),
    {
        match self {
            PrismError::UnsupportedLanguage(name) => {
                String::from_str("Unsupported language: ").concat(name.as_str())
            },
            PrismError::ParseError(text) => String::from_str("Parse error: ").concat(
                text.as_str(),
            ),
            PrismError::IoError(text) => String::from_str("IO error: ").concat(text.as_str()),
            PrismError::ChunkTooLarge { actual, max } => {
                let mut r = String::from_str("Chunk size exceeded: ");
                r.append(decimal(*actual).as_str());
                r.append(" > ");
                r.append(decimal(*max).as_str());
                r
            },
        }
    }
}

} // verus!
