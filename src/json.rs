use vstd::prelude::*;

verus! {

/// Lower-case hexadecimal digit of a value below sixteen.
pub open spec fn hex_digit(v: int) -> char {
    if v < 10 {
        ((v + 48) as u8) as char
    } else {
        ((v + 87) as u8) as char
    }
}

/// How a JSON string literal writes one character.
pub open spec fn escape_char(c: char) -> Seq<char> {
    if c == '"' {
        seq!['\\', '"']
    } else if c == '\\' {
        seq!['\\', '\\']
    } else if c == '\u{8}' {
        seq!['\\', 'b']
    } else if c == '\t' {
        seq!['\\', 't']
    } else if c == '\n' {
        seq!['\\', 'n']
    } else if c == '\u{c}' {
        seq!['\\', 'f']
    } else if c == '\r' {
        seq!['\\', 'r']
    } else if (c as u32) < 0x20 {
        seq!['\\', 'u', '0', '0', hex_digit(((c as u32) / 16) as int), hex_digit(((c as u32) % 16) as int)]
    } else {
        seq![c]
    }
}

/// The body of a JSON string literal holding `s`, without the quotes.
pub open spec fn escape_text(s: Seq<char>) -> Seq<char>
    decreases s.len(),
{
    if s.len() == 0 {
        Seq::empty()
    } else {
        escape_text(s.drop_last()) + escape_char(s.last())
    }
}

/// The JSON string literal that holds `s`.
pub open spec fn quoted(s: Seq<char>) -> Seq<char> {
    seq!['"'] + escape_text(s) + seq!['"']
}

/// Relies on serde_json::to_string on a `str`: it writes a quoted literal,
/// escaping the quote, the backslash and the control characters below 0x20
/// (short forms for \b \t \n \f \r, `\u00xx` for the rest). Writing into a
/// `Vec` cannot fail, so the result is always `Ok`.
#[verifier::external_body]
pub(crate) fn json_quote(s: &str) -> (r: String)
    ensures
        r@ == quoted(s@),
{
    serde_json::to_string(s).unwrap()
}

/// The decimal digits of `n`, most significant first.
pub open spec fn decimal_digits(n: nat) -> Seq<char>
    decreases n,
{
    if n < 10 {
        seq![((n + 48) as u8) as char]
    } else {
        decimal_digits(n / 10).push((((n % 10) + 48) as u8) as char)
    }
}

/// The JSON number text of an integer.
pub open spec fn integer_text(v: int) -> Seq<char> {
    if v < 0 {
        seq!['-'] + decimal_digits((-v) as nat)
    } else {
        decimal_digits(v as nat)
    }
}

/// Relies on serde_json::to_string on an `i64`: it writes the decimal digits,
/// with a leading `-` for a negative value, and cannot fail.
#[verifier::external_body]
fn json_integer(v: i64) -> (r: String)
    ensures
        r@ == integer_text(v as int),
{
    serde_json::to_string(&v).unwrap()
}

/// Captures a text as a property value: a JSON string.
pub fn capture_text(v: &str) -> (r: String)
    ensures
        r@ == quoted(v@),
{
    json_quote(v)
}

/// Captures an integer as a property value: a JSON number.
pub fn capture_integer(v: i64) -> (r: String)
    ensures
        r@ == integer_text(v as int),
{
    json_integer(v)
}

} // verus!
