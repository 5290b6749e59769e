//! The ways in which the conversion of one file can fail.

use vstd::prelude::*;
use vstd::string::*;

verus! {

/// Why one file could not be converted. Every failure ends the conversion of
/// that file and of no other.
#[derive(Debug, PartialEq, Eq)]
pub enum ConvertError {
    /// Opening, reading, writing or closing failed; the text says how.
    Io(String),
    /// The file holds no data row to sample.
    EmptyFile,
    /// The file holds no column.
    EmptySchema,
    /// The cell in data row `row`, column `column` (both counted from zero)
    /// is not of the type that the sample gave its column.
    TypeCoercion { row: usize, column: usize },
}

/// The character that spells the digit `d`.
pub open spec fn digit_char(d: nat) -> char {
    if d == 0 {
        '0'
    } else if d == 1 {
        '1'
    } else if d == 2 {
        '2'
    } else if d == 3 {
        '3'
    } else if d == 4 {
        '4'
    } else if d == 5 {
        '5'
    } else if d == 6 {
        '6'
    } else if d == 7 {
        '7'
    } else if d == 8 {
        '8'
    } else {
        '9'
    }
}

/// The characters of `n` in base ten, most significant first.
pub open spec fn decimal_chars(n: nat) -> Seq<char>
    decreases n,
{
    if n < 10 {
        seq![digit_char(n)]
    } else {
        decimal_chars(n / 10).push(digit_char(n % 10))
    }
}

/// The text that reports an error.
pub open spec fn message_of(e: ConvertError) -> Seq<char> {
    match e {
        ConvertError::Io(text) => "I/O error: "@ + text@,
        ConvertError::EmptyFile => "the file has no data rows"@,
        ConvertError::EmptySchema => "the file has no columns"@,
        ConvertError::TypeCoercion { row, column } => "type mismatch in data row "@ + decimal_chars(
            row as nat,
        ) + ", column "@ + decimal_chars(column as nat),
    }
}

fn digit_text(d: usize) -> (r: &'static str)
    requires
        d < 10,
    ensures
        r@ == seq![digit_char(d as nat)],
{
    proof {
        reveal_strlit("0");
        reveal_strlit("1");
        reveal_strlit("2");
        reveal_strlit("3");
        reveal_strlit("4");
        reveal_strlit("5");
        reveal_strlit("6");
        reveal_strlit("7");
        reveal_strlit("8");
        reveal_strlit("9");
    }
    let r: &'static str = if d == 0 {
        "0"
    } else if d == 1 {
        "1"
    } else if d == 2 {
        "2"
    } else if d == 3 {
        "3"
    } else if d == 4 {
        "4"
    } else if d == 5 {
        "5"
    } else if d == 6 {
        "6"
    } else if d == 7 {
        "7"
    } else if d == 8 {
        "8"
    } else {
        "9"
    };
    assert(r@ =~= seq![digit_char(d as nat)]);
    r
}

/// Appends `n` in base ten to `text`.
pub fn append_number(text: &mut String, n: usize)
    ensures
        final(text)@ == old(text)@ + decimal_chars(n as nat),
    decreases n,
{
    if n >= 10 {
        append_number(text, n / 10);
    }
    text.append(digit_text(n % 10));
    assert(text@ =~= old(text)@ + decimal_chars(n as nat));
}

impl ConvertError {
    /// The text that reports this error.
    pub fn message(&self) -> (r: String)
        ensures
            r@ == message_of(*self),
    {
        match self {
            ConvertError::Io(text) => String::from_str("I/O error: ").concat(text.as_str()),
            ConvertError::EmptyFile => String::from_str("the file has no data rows"),
            ConvertError::EmptySchema => String::from_str("the file has no columns"),
            ConvertError::TypeCoercion { row, column } => {
                let mut text = String::from_str("type mismatch in data row ");
                append_number(&mut text, *row);
                text.append(", column ");
                append_number(&mut text, *column);
                text
            },
        }
    }
}

} // verus!
