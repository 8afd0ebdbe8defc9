//! Answers typed at the program's prompts.

use vstd::prelude::*;

verus! {

/// The characters with the Unicode `White_Space` property, which is what
/// `char::is_whitespace`, and so `str::trim`, counts as whitespace.
pub open spec fn is_white_space(c: char) -> bool {
    let n = c as u32;
    ||| 0x9 <= n <= 0xD
    ||| n == 0x20 || n == 0x85 || n == 0xA0 || n == 0x1680
    ||| 0x2000 <= n <= 0x200A
    ||| n == 0x2028 || n == 0x2029 || n == 0x202F || n == 0x205F || n == 0x3000
}

/// `s` without its leading whitespace.
pub open spec fn trim_start(s: Seq<char>) -> Seq<char>
    decreases s.len(),
{
    if s.len() > 0 && is_white_space(s[0]) {
        trim_start(s.drop_first())
    } else {
        s
    }
}

/// `s` without its trailing whitespace.
pub open spec fn trim_end(s: Seq<char>) -> Seq<char>
    decreases s.len(),
{
    if s.len() > 0 && is_white_space(s.last()) {
        trim_end(s.drop_last())
    } else {
        s
    }
}

/// What `str::trim` leaves of `s`: the text without its leading and trailing
/// whitespace.
pub open spec fn trimmed(s: Seq<char>) -> Seq<char> {
    trim_end(trim_start(s))
}

/// One or more ASCII digits and nothing else.
pub open spec fn is_ascii_digits(s: Seq<char>) -> bool {
    &&& s.len() > 0
    &&& forall|i: int| 0 <= i < s.len() ==> '0' as u32 <= #[trigger] (s[i] as u32) <= '9' as u32
}

/// The number that ASCII digits write, most significant first.
pub open spec fn digits_value(s: Seq<char>) -> nat
    decreases s.len(),
{
    if s.len() == 0 {
        0
    } else {
        (digits_value(s.drop_last()) * 10 + (s.last() as u32 - '0' as u32)) as nat
    }
}

/// What `str::parse::<usize>` reads from `s`: an optional `+` followed by one or
/// more ASCII digits, whose number fits a `usize`; anything else is an error.
pub open spec fn parsed_usize(s: Seq<char>) -> Option<usize> {
    let digits = if s.len() > 0 && s[0] == '+' {
        s.drop_first()
    } else {
        s
    };
    if is_ascii_digits(digits) && digits_value(digits) <= usize::MAX {
        Some(digits_value(digits) as usize)
    } else {
        None
    }
}

/// What `str::parse::<i32>` reads from `s`: an optional `+` or `-` followed by one
/// or more ASCII digits, whose signed number fits an `i32`; anything else is an
/// error.
pub open spec fn parsed_i32(s: Seq<char>) -> Option<i32> {
    if s.len() > 0 && s[0] == '-' {
        let digits = s.drop_first();
        if is_ascii_digits(digits) && digits_value(digits) <= 0x8000_0000 {
            Some((0 - digits_value(digits)) as i32)
        } else {
            None
        }
    } else {
        let digits = if s.len() > 0 && s[0] == '+' {
            s.drop_first()
        } else {
            s
        };
        if is_ascii_digits(digits) && digits_value(digits) <= i32::MAX {
            Some(digits_value(digits) as i32)
        } else {
            None
        }
    }
}

/// Calls `str::trim`, which by its documentation drops the leading and trailing
/// characters that have the Unicode `White_Space` property.
#[verifier::external_body]
fn trim_text<'a>(s: &'a str) -> (t: &'a str)
    ensures
        t@ == trimmed(s@),
{
    s.trim()
}

/// Calls `str::parse::<i32>`, turning its error into `None`; by the documentation
/// of `i32::from_str_radix` it accepts exactly an optional sign and one or more
/// decimal digits whose value fits.
#[verifier::external_body]
fn parse_i32(s: &str) -> (n: Option<i32>)
    ensures
        n == parsed_i32(s@),
{
    s.parse::<i32>().ok()
}

/// Calls `str::parse::<usize>`, turning its error into `None`; by the documentation
/// of `usize::from_str_radix` it accepts exactly an optional `+` and one or more
/// decimal digits whose value fits.
#[verifier::external_body]
fn parse_usize(s: &str) -> (n: Option<usize>)
    ensures
        n == parsed_usize(s@),
{
    s.parse::<usize>().ok()
}

/// The radio mode typed at the prompt: the number on the line, if the line, without
/// surrounding whitespace, is one.
pub fn mode_from_input(line: &str) -> (mode: Option<i32>)
    ensures
        mode == parsed_i32(trimmed(line@)),
{
    parse_i32(trim_text(line))
}

/// What a line typed to pick one of several ports means.
#[derive(Clone, Copy, Debug, PartialEq, Eq, Structural)]
pub enum PortChoice {
    /// The position of an existing port (positions start at zero).
    Chosen(usize),
    /// A number, but no port has that position.
    OutOfRange,
    /// Not a number.
    NotANumber,
}

/// Reads the port picked on `line` among `count` ports.
pub fn port_choice(line: &str, count: usize) -> (c: PortChoice)
    ensures
        c == match parsed_usize(trimmed(line@)) {
            None => PortChoice::NotANumber,
            Some(k) => if k < count {
                PortChoice::Chosen(k)
            } else {
                PortChoice::OutOfRange
            },
        },
{
    match parse_usize(trim_text(line)) {
        None => PortChoice::NotANumber,
        Some(k) => if k < count {
            PortChoice::Chosen(k)
        } else {
            PortChoice::OutOfRange
        },
    }
}

} // verus!
