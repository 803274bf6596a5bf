//! The text handling that the parsers of this crate rely on: calls into
//! std behind small wrappers, and names for what those calls return.
use vstd::prelude::*;

verus! {

/// `piece` without one trailing carriage return, if it ends with one.
pub open spec fn without_cr(piece: Seq<char>) -> Seq<char> {
    if piece.len() > 0 && piece.last() == '\r' {
        piece.drop_last()
    } else {
        piece
    }
}

/// The lines of a text, as `str::lines` gives them: the pieces between line
/// feeds, each that a line feed ends without one carriage return before it,
/// and the last piece left out when it is empty.
pub open spec fn lines_of(s: Seq<char>) -> Seq<Seq<char>> {
    let pieces = split_on(s, '\n');
    let ended = Seq::new((pieces.len() - 1) as nat, |i: int| without_cr(pieces[i]));
    if pieces.last().len() == 0 {
        ended
    } else {
        ended.push(pieces.last())
    }
}

/// A text without its leading and trailing white space, as `str::trim` gives it.
pub uninterp spec fn trimmed(s: Seq<char>) -> Seq<char>;

/// The pieces of `s` between the occurrences of `sep`, in order: one more
/// piece than there are occurrences, each possibly empty.
pub open spec fn split_on(s: Seq<char>, sep: char) -> Seq<Seq<char>>
    decreases s.len(),
{
    if s.len() == 0 {
        seq![Seq::empty()]
    } else {
        let pieces = split_on(s.drop_last(), sep);
        if s.last() == sep {
            pieces.push(Seq::empty())
        } else {
            pieces.update(pieces.len() - 1, pieces.last().push(s.last()))
        }
    }
}

/// `c` is an ASCII decimal digit.
pub open spec fn is_digit(c: char) -> bool {
    '0' <= c <= '9'
}

/// The value of a string of decimal digits.
pub open spec fn digits_value(s: Seq<char>) -> nat
    decreases s.len(),
{
    if s.len() == 0 {
        0
    } else {
        digits_value(s.drop_last()) * 10 + (s.last() as u32 - '0' as u32) as nat
    }
}

/// The `usize` that `s` spells: an optional `+` followed by one or more
/// decimal digits, whose value fits in a `usize`.
pub open spec fn decimal_usize(s: Seq<char>) -> Option<nat> {
    let d = if s.len() > 0 && s[0] == '+' {
        s.drop_first()
    } else {
        s
    };
    if d.len() > 0 && (forall|i: int| 0 <= i < d.len() ==> is_digit(#[trigger] d[i])) && digits_value(d)
        <= usize::MAX {
        Some(digits_value(d))
    } else {
        None
    }
}

/// The character at position `i` of `cs`.
pub(crate) fn char_at(cs: &Vec<char>, i: usize) -> (c: char)
    requires
        i < cs@.len(),
    ensures
        c == cs@[i as int],
{
    cs[i]
}

/// Relies on `str::lines`: the lines of `s`, which depend on its characters
/// alone.
#[verifier::external_body]
pub(crate) fn text_lines<'a>(s: &'a str) -> (r: Vec<&'a str>)
    ensures
        r@.len() == lines_of(s@).len(),
        forall|i: int| 0 <= i < r@.len() ==> #[trigger] r@[i]@ == lines_of(s@)[i],
{
    s.lines().collect()
}

/// Relies on `str::trim`: `s` without its surrounding white space, which
/// depends on its characters alone.
#[verifier::external_body]
pub(crate) fn trim_text<'a>(s: &'a str) -> (r: &'a str)
    ensures
        r@ == trimmed(s@),
{
    s.trim()
}

/// Relies on `str::chars`: the characters of `s`, in order.
#[verifier::external_body]
pub(crate) fn chars_of(s: &str) -> (r: Vec<char>)
    ensures
        r@ == s@,
{
    s.chars().collect()
}

/// Relies on `Chars::next` and `Chars::as_str` over `str::chars`: the first
/// character of `s` and the text after it, or `None` for an empty text.
#[verifier::external_body]
pub(crate) fn split_first_char<'a>(s: &'a str) -> (r: Option<(char, &'a str)>)
    ensures
        r is None <==> s@.len() == 0,
        r matches Some((c, rest)) ==> s@ == seq![c] + rest@,
{
    let mut chars = s.chars();
    match chars.next() {
        Some(c) => Some((c, chars.as_str())),
        None => None,
    }
}

/// Relies on `str::split` with a `char` pattern: the pieces of `s` between
/// the occurrences of `sep`.
#[verifier::external_body]
pub(crate) fn split_on_char<'a>(s: &'a str, sep: char) -> (r: Vec<&'a str>)
    ensures
        r@.len() == split_on(s@, sep).len(),
        forall|i: int| 0 <= i < r@.len() ==> #[trigger] r@[i]@ == split_on(s@, sep)[i],
{
    s.split(sep).collect()
}

/// The message of the error that reading `s` as a `usize` gives, as
/// `ParseIntError`'s `Display` writes it.
pub uninterp spec fn int_error_text(s: Seq<char>) -> Seq<char>;

/// The `usize` that `s` spells, or the message of the error for a text
/// that spells none.
pub open spec fn usize_field(s: Seq<char>) -> Result<nat, Seq<char>> {
    match decimal_usize(s) {
        Some(n) => Ok(n),
        None => Err(int_error_text(s)),
    }
}

/// Relies on `usize`'s `FromStr`: an optional `+` and decimal digits, whose
/// value fits; any other text is refused, with the message that the parse
/// error's `Display` writes, which depends on the text alone.
#[verifier::external_body]
pub(crate) fn parse_usize(s: &str) -> (r: Result<usize, String>)
    ensures
        r is Ok <==> decimal_usize(s@) is Some,
        r matches Ok(v) ==> decimal_usize(s@) == Some(v as nat),
        r matches Err(m) ==> m@ == int_error_text(s@),
{
    match s.parse::<usize>() {
        Ok(v) => Ok(v),
        Err(err) => Err(err.to_string()),
    }
}

/// Relies on `format!` and `char`'s `Display`, which writes the character
/// itself: the text `Unknown control char: ` followed by `c`.
#[verifier::external_body]
pub(crate) fn unknown_control_message(c: char) -> (r: String)
    ensures
        r@ == "Unknown control char: "@ + seq![c],
{
    format!("Unknown control char: {}", c)
}

} // verus!
