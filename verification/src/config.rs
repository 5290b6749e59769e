//! Reading of the run settings that arrive as text.

use vstd::prelude::*;
use vstd::string::*;

verus! {

/// The delimiter that a settings string stands for, if it stands for one.
///
/// A string of one character stands for that character. The two-character
/// escapes `\t`, `\n`, `\r`, `\,` and `\;` stand for tab, line feed, carriage
/// return, comma and semicolon. Nothing else stands for a delimiter.
pub open spec fn delimiter_of(s: Seq<char>) -> Option<char> {
    if s.len() == 1 {
        Some(s[0])
    } else if s.len() == 2 && s[0] == '\\' {
        if s[1] == 't' {
            Some('\t')
        } else if s[1] == 'n' {
            Some('\n')
        } else if s[1] == 'r' {
            Some('\r')
        } else if s[1] == ',' {
            Some(',')
        } else if s[1] == ';' {
            Some(';')
        } else {
            None
        }
    } else {
        None
    }
}

/// The message that rejects a settings string which stands for no delimiter.
pub open spec fn delimiter_error(s: Seq<char>) -> Seq<char> {
    if s.len() == 0 {
        "Delimiter cannot be empty"@
    } else {
        "Invalid delimiter: "@ + s
    }
}

/// Reads the field delimiter from its settings string.
pub fn parse_delimiter(s: &str) -> (r: Result<char, String>)
    ensures
        match r {
            Ok(c) => delimiter_of(s@) == Some(c),
            Err(e) => delimiter_of(s@) is None && e@ == delimiter_error(s@),
        },
{
    let n: usize = s.unicode_len();
    if n == 0 {
        Err(String::from_str("Delimiter cannot be empty"))
    } else if n == 1 {
        Ok(s.get_char(0))
    } else {
        if n == 2 && s.get_char(0) == '\\' {
            let c: char = s.get_char(1);
            if c == 't' {
                return Ok('\t');
            } else if c == 'n' {
                return Ok('\n');
            } else if c == 'r' {
                return Ok('\r');
            } else if c == ',' {
                return Ok(',');
            } else if c == ';' {
                return Ok(';');
            }
        }
        Err(String::from_str("Invalid delimiter: ").concat(s))
    }
}

/// The byte that a delimiter is in the text of a file: the character
/// itself where it is ASCII; no other character can part fields.
pub open spec fn delimiter_byte_of(c: char) -> Option<u8> {
    if (c as u32) < 128 {
        Some(c as u8)
    } else {
        None
    }
}

/// Turns a delimiter into the byte that parts fields.
pub fn delimiter_byte(c: char) -> (r: Option<u8>)
    ensures
        r == delimiter_byte_of(c),
{
    if (c as u32) < 128 {
        Some(c as u8)
    } else {
        None
    }
}

} // verus!
