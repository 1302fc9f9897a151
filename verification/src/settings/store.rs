//! Reading and writing an applet's stored values, which are raw RON text.
use vstd::prelude::*;
use crate::num::{parse_i64, parse_i64_spec};
use crate::text::{chars_eq, chars_of, lead, string_of, trail, trim_start, trim_ws, trimmed, Class};

verus! {

/// Do two raw RON texts mean the same value? Trimmed texts that are equal do; two
/// integers are compared as integers; otherwise the answer is `numeric_equal`, whether
/// both texts read as the same floating-point number (`10.0` and `10`), which the
/// caller works out, floating point being outside this library.
pub open spec fn same_value_spec(a: Seq<char>, b: Seq<char>, numeric_equal: bool) -> bool {
    let (x, y) = (trim_ws(a), trim_ws(b));
    if x == y {
        true
    } else {
        match (parse_i64_spec(x), parse_i64_spec(y)) {
            (Some(i), Some(j)) => i == j,
            _ => numeric_equal,
        }
    }
}

/// Textual equality is not enough: a schema may write `10` where the applet's own
/// default file says `10.0`, and an option list must still highlight the right row.
/// Numbers are therefore compared as numbers, everything else as trimmed text.
pub fn same_value(a: &str, b: &str, numeric_equal: bool) -> (r: bool)
    ensures
        r == same_value_spec(a@, b@, numeric_equal),
{
    let ac = chars_of(a);
    let bc = chars_of(b);
    let x = trimmed(ac.as_slice(), &Class::Ws);
    let y = trimmed(bc.as_slice(), &Class::Ws);
    if chars_eq(x.as_slice(), y.as_slice()) {
        return true;
    }
    match (parse_i64(x.as_slice()), parse_i64(y.as_slice())) {
        (Some(i), Some(j)) => i == j,
        _ => numeric_equal,
    }
}

pub open spec fn bool_of(text: Seq<char>) -> Option<bool> {
    let t = trim_ws(text);
    if t == "true"@ {
        Some(true)
    } else if t == "false"@ {
        Some(false)
    } else {
        None
    }
}

/// Reads a boolean out of raw RON text, for the toggle control.
pub fn as_bool(text: &str) -> (r: Option<bool>)
    ensures
        r == bool_of(text@),
{
    let c = chars_of(text);
    let t = trimmed(c.as_slice(), &Class::Ws);
    let yes = chars_of("true");
    let no = chars_of("false");
    if chars_eq(t.as_slice(), yes.as_slice()) {
        Some(true)
    } else if chars_eq(t.as_slice(), no.as_slice()) {
        Some(false)
    } else {
        None
    }
}

/// What `ron::from_str::<String>` reads out of a text: the string it spells, or `None`
/// when it spells none.
pub uninterp spec fn ron_string(text: Seq<char>) -> Option<Seq<char>>;

/// What `ron::to_string` writes for a string value: `None` when it fails.
pub uninterp spec fn ron_quoted(value: Seq<char>) -> Option<Seq<char>>;

/// Calls `ron::from_str::<String>`; the result is named (`ron_string`), since RON's
/// string syntax and escapes are not restated here.
#[verifier::external_body]
fn ron_from_str_string(text: &str) -> (r: Option<String>)
    ensures
        match r {
            Some(s) => ron_string(text@) == Some(s@),
            None => ron_string(text@) is None,
        },
{
    ron::from_str::<String>(text).ok()
}

/// The double quotation mark.
pub const QUOTE: char = '\u{22}';

/// Calls `ron::to_string` on a string; the result is named (`ron_quoted`). What the
/// source shows of it is stated too: serialising a string into a `String` cannot fail,
/// the text is the string in double quotes with `char::escape_debug` escapes, and
/// `ron::from_str::<String>` (named `ron_string`) reads those escapes back, so it gives
/// the string again.
#[verifier::external_body]
fn ron_to_string_str(value: &str) -> (r: Option<String>)
    ensures
        r is Some,
        match r {
            Some(s) => {
                &&& ron_quoted(value@) == Some(s@)
                &&& s@.len() >= 2
                &&& s@[0] == QUOTE
                &&& s@.last() == QUOTE
                &&& ron_string(s@) == Some(value@)
            },
            None => true,
        },
{
    ron::to_string(&value).ok()
}

pub open spec fn opt_text(o: Option<String>) -> Option<Seq<char>> {
    match o {
        Some(s) => Some(s@),
        None => None,
    }
}

/// Reads a string, dropping the RON quoting and escapes.
pub fn as_text(text: &str) -> (r: Option<String>)
    ensures
        opt_text(r) == ron_string(trim_ws(text@)),
{
    let c = chars_of(text);
    let t = trimmed(c.as_slice(), &Class::Ws);
    let s = string_of(t.as_slice());
    ron_from_str_string(s.as_str())
}

/// Renders a string as RON, quoted and escaped: hand-rolled quoting would break on the
/// first quotation mark or backslash a user types into a city name, so the RON
/// serialiser does it. Reading the text back with `as_text` gives the string again.
pub fn format_text(value: &str) -> (r: String)
    ensures
        ron_quoted(value@) == Some(r@),
        ron_string(trim_ws(r@)) == Some(value@),
{
    match ron_to_string_str(value) {
        Some(s) => {
            proof {
                let t = s@;
                assert(lead(t, Class::Ws) == 0);
                assert(trim_start(t, Class::Ws) =~= t);
                assert(trail(t, Class::Ws) == 0);
                assert(trim_ws(t) =~= t);
            }
            s
        },
        None => String::from_str("\"\""),
    }
}

} // verus!
