//! The pure halves of the sysfs/procfs readers, and small text helpers shared by every
//! probe module.
//!
//! Reading a file is the caller's business; what is done with the text once it is in
//! hand - trimming, discarding empty values, parsing numbers and flags - is here.
use vstd::prelude::*;
use vstd::string::StringSliceAdditionalSpecFns;
use crate::num::{
    parse_hex_spec, parse_hex_u32, parse_i64, parse_i64_spec, parse_u32, parse_u32_spec,
    parse_u64, parse_u64_spec, strip_0x, strip_0x_from,
};
use crate::text::{
    ascii_lower, chars_eq, chars_of, lines, lines_of, slice_to_vec, split_once,
    split_once_at, string_of, to_ascii_lower, trim, trim_ws, trimmed, views, Class,
};

verus! {

/// The outcome of reading one attribute file.
pub enum Attr {
    /// The file's contents.
    Text(String),
    /// The file exists but the caller may not read it.
    Denied,
    /// Missing, or unreadable for any other reason.
    Missing,
}

/// `read_trim`'s rule: trim surrounding whitespace and discard an empty result.
pub open spec fn trim_attr_spec(s: Seq<char>) -> Option<Seq<char>> {
    let t = trim_ws(s);
    if t.len() == 0 {
        None
    } else {
        Some(t)
    }
}

/// Trims an attribute's text and discards it when nothing is left.
///
/// Several sysfs attributes are space padded (`bNumInterfaces` is `" 2"`, SCSI/NVMe
/// `model` is right padded to a fixed width), so trimming is mandatory rather than
/// cosmetic.
pub fn trim_attr(text: &str) -> (r: Option<String>)
    ensures
        match r {
            Some(s) => trim_attr_spec(text@) == Some(s@),
            None => trim_attr_spec(text@) is None,
        },
{
    let chars = chars_of(text);
    let t = trimmed(chars.as_slice(), &Class::Ws);
    if t.len() == 0 {
        None
    } else {
        Some(string_of(t.as_slice()))
    }
}

/// The trimmed, non-empty text of an attribute read, if there is one.
pub open spec fn attr_text(a: Attr) -> Option<Seq<char>> {
    match a {
        Attr::Text(t) => trim_attr_spec(t@),
        _ => None,
    }
}

/// `read_trim` on an attribute read.
pub fn attr_trim(a: &Attr) -> (r: Option<String>)
    ensures
        match r {
            Some(s) => attr_text(*a) == Some(s@),
            None => attr_text(*a) is None,
        },
{
    match a {
        Attr::Text(t) => trim_attr(t.as_str()),
        _ => None,
    }
}

/// `read_hex`: a hex attribute, with or without `0x` prefixes.
pub open spec fn hex_attr_spec(a: Attr) -> Option<u32> {
    match attr_text(a) {
        Some(t) => parse_hex_spec(strip_0x(t)),
        None => None,
    }
}

/// Parses a sysfs hex attribute, with or without the `0x` prefix.
///
/// PCI attributes use `0x8086`; USB ones use a bare `0b05`.
pub fn read_hex(a: &Attr) -> (r: Option<u32>)
    ensures
        r == hex_attr_spec(*a),
{
    match attr_trim(a) {
        Some(t) => {
            let c = chars_of(t.as_str());
            let i = strip_0x_from(c.as_slice());
            let rest = slice_to_vec(c.as_slice(), i, c.len());
            parse_hex_u32(rest.as_slice())
        },
        None => None,
    }
}

/// A hex attribute that fits in `u16` (vendor/product ids).
pub fn read_hex16(a: &Attr) -> (r: Option<u16>)
    ensures
        r == (match hex_attr_spec(*a) {
            Some(v) => if v <= u16::MAX {
                Some(v as u16)
            } else {
                None::<u16>
            },
            None => None,
        }),
{
    match read_hex(a) {
        Some(v) => if v <= 0xffff {
            Some(v as u16)
        } else {
            None
        },
        None => None,
    }
}

/// A hex attribute that fits in `u8` (device class/subclass/protocol).
pub fn read_hex8(a: &Attr) -> (r: Option<u8>)
    ensures
        r == (match hex_attr_spec(*a) {
            Some(v) => if v <= u8::MAX {
                Some(v as u8)
            } else {
                None::<u8>
            },
            None => None,
        }),
{
    match read_hex(a) {
        Some(v) => if v <= 0xff {
            Some(v as u8)
        } else {
            None
        },
        None => None,
    }
}

pub fn read_u64(a: &Attr) -> (r: Option<u64>)
    ensures
        r == (match attr_text(*a) {
            Some(t) => parse_u64_spec(t),
            None => None,
        }),
{
    match attr_trim(a) {
        Some(t) => {
            let c = chars_of(t.as_str());
            parse_u64(c.as_slice())
        },
        None => None,
    }
}

pub fn read_u32(a: &Attr) -> (r: Option<u32>)
    ensures
        r == (match attr_text(*a) {
            Some(t) => parse_u32_spec(t),
            None => None,
        }),
{
    match attr_trim(a) {
        Some(t) => {
            let c = chars_of(t.as_str());
            parse_u32(c.as_slice())
        },
        None => None,
    }
}

/// Reads a signed sysfs counter.
///
/// Needed because `/sys/class/net/*/speed` reports `-1` on interfaces that have no
/// meaningful link speed (`virbr0` does).
pub fn read_i64(a: &Attr) -> (r: Option<i64>)
    ensures
        r == (match attr_text(*a) {
            Some(t) => parse_i64_spec(t),
            None => None,
        }),
{
    match attr_trim(a) {
        Some(t) => {
            let c = chars_of(t.as_str());
            parse_i64(c.as_slice())
        },
        None => None,
    }
}

/// Reads a `0`/`1` sysfs flag.
pub fn read_bool(a: &Attr) -> (r: Option<bool>)
    ensures
        r == (match attr_text(*a) {
            Some(t) => if t == seq!['0'] {
                Some(false)
            } else if t == seq!['1'] {
                Some(true)
            } else {
                None::<bool>
            },
            None => None,
        }),
{
    match attr_trim(a) {
        Some(t) => {
            let c = chars_of(t.as_str());
            if c.len() == 1 && c[0] == '0' {
                proof {
                    assert(c@ =~= seq!['0']);
                }
                Some(false)
            } else if c.len() == 1 && c[0] == '1' {
                proof {
                    assert(c@ =~= seq!['1']);
                }
                Some(true)
            } else {
                proof {
                    if c@ == seq!['0'] || c@ == seq!['1'] {
                        assert(c@.len() == 1);
                    }
                }
                None
            }
        },
        None => None,
    }
}

// ---------------------------------------------------------------- placeholders

/// The DMI strings board vendors ship instead of a real value, lower-cased.
pub open spec fn junk() -> Seq<Seq<char>> {
    seq![
        "to be filled by o.e.m."@,
        "to be filled by oem"@,
        "system product name"@,
        "system version"@,
        "system manufacturer"@,
        "system name"@,
        "default string"@,
        "not applicable"@,
        "not specified"@,
        "not available"@,
        "no enclosure"@,
        "unknown"@,
        "none"@,
        "n/a"@,
        "na"@,
        "o.e.m."@,
        "oem"@,
        "empty"@,
        "chassis manufacture"@,
        "chassis version"@,
        "0123456789"@,
        "x.x"@,
        "*"@,
        "-"@,
    ]
}

pub open spec fn is_placeholder_spec(value: Seq<char>) -> bool {
    let lower = ascii_lower(trim_ws(value));
    lower.len() == 0 || junk().contains(lower)
}

/// Whether `s` equals one of `list`.
pub fn in_list(s: &[char], list: &[&str]) -> (r: bool)
    ensures
        r == list@.map_values(|x: &str| x@).contains(s@),
{
    let ghost views = list@.map_values(|x: &str| x@);
    let mut i: usize = 0;
    while i < list.len()
        invariant
            i <= list@.len(),
            views == list@.map_values(|x: &str| x@),
            forall|j: int| 0 <= j < i ==> views[j] != s@,
        decreases list@.len() - i,
    {
        let c = chars_of(list[i]);
        if chars_eq(s, c.as_slice()) {
            proof {
                assert(views[i as int] == s@);
            }
            return true;
        }
        i += 1;
    }
    false
}

/// True for DMI strings that are OEM placeholders rather than real values.
///
/// Board vendors ship `System Product Name`, `To be filled by O.E.M.` and
/// `Default string` in DMI on most retail motherboards, so the headline "computer
/// model" row is junk on any self-built machine unless these are filtered out.
pub fn is_placeholder(value: &str) -> (r: bool)
    ensures
        r == is_placeholder_spec(value@),
{
    let list: [&str; 24] = [
        "to be filled by o.e.m.",
        "to be filled by oem",
        "system product name",
        "system version",
        "system manufacturer",
        "system name",
        "default string",
        "not applicable",
        "not specified",
        "not available",
        "no enclosure",
        "unknown",
        "none",
        "n/a",
        "na",
        "o.e.m.",
        "oem",
        "empty",
        "chassis manufacture",
        "chassis version",
        "0123456789",
        "x.x",
        "*",
        "-",
    ];
    let c = chars_of(value);
    let t = trimmed(c.as_slice(), &Class::Ws);
    let lower = to_ascii_lower(t.as_slice());
    if lower.len() == 0 {
        return true;
    }
    let r = in_list(lower.as_slice(), list.as_slice());
    proof {
        assert(list@.map_values(|x: &str| x@) =~= junk());
    }
    r
}

// ---------------------------------------------------------------- octal escapes

/// An octal digit, `0` to `7`.
pub open spec fn octal_digit(c: char) -> bool {
    48 <= (c as u32) <= 55
}

/// The value of an octal digit.
pub open spec fn octal_value(c: char) -> int {
    (c as u32) - 48
}

/// `u8::from_str_radix(digits, 8)` on the three characters of an escape: a `+` sign may
/// stand first, and the value must fit in a byte.
pub open spec fn octal3(a: char, b: char, c: char) -> Option<u8> {
    if a == '+' && octal_digit(b) && octal_digit(c) {
        Some((octal_value(b) * 8 + octal_value(c)) as u8)
    } else if octal_digit(a) && octal_digit(b) && octal_digit(c) && octal_value(a) * 64
        + octal_value(b) * 8 + octal_value(c) <= 255 {
        Some((octal_value(a) * 64 + octal_value(b) * 8 + octal_value(c)) as u8)
    } else {
        None
    }
}

/// What `unescape_octal` makes of a text: each backslash followed by three characters
/// that read as an octal byte becomes the character with that code; every other
/// character is kept as it is.
pub open spec fn unescape_spec(s: Seq<char>) -> Seq<char>
    decreases s.len(),
{
    if s.len() == 0 {
        seq![]
    } else if s[0] == '\\' && 3 < s.len() && octal3(s[1], s[2], s[3]) is Some {
        seq![(octal3(s[1], s[2], s[3])->0) as char] + unescape_spec(s.subrange(4, s.len() as int))
    } else {
        seq![s[0]] + unescape_spec(s.drop_first())
    }
}

/// A text without a backslash holds no escape, and comes back unchanged.
pub proof fn lemma_unescape_plain(s: Seq<char>)
    requires
        !s.contains('\\'),
    ensures
        unescape_spec(s) == s,
    decreases s.len(),
{
    if s.len() > 0 {
        assert(s[0] != '\\');
        assert(!s.drop_first().contains('\\')) by {
            if s.drop_first().contains('\\') {
                let k = choose|k: int| 0 <= k < s.drop_first().len() && s.drop_first()[k] == '\\';
                assert(s[k + 1] == '\\');
            }
        }
        lemma_unescape_plain(s.drop_first());
        assert(seq![s[0]] + s.drop_first() =~= s);
    }
}

/// The inputs `unescape_octal` can take: every backslash that is followed by three more
/// bytes has those three bytes on character boundaries, so they can be sliced out.
pub open spec fn unescape_ok(b: Seq<u8>) -> bool {
    forall|i: int|
        0 <= i && i + 3 < b.len() && #[trigger] b[i] == 92 ==> vstd::utf8::is_char_boundary(
            b,
            i + 1,
        ) && vstd::utf8::is_char_boundary(b, i + 4)
}

/// Whether `unescape_octal` can take `s`.
pub fn escapes_ok(s: &str) -> (r: bool)
    ensures
        r == unescape_ok(s.spec_bytes()),
{
    let bytes = s.as_bytes();
    let ghost b = s.spec_bytes();
    let mut i: usize = 0;
    while i < bytes.len()
        invariant
            bytes@ == b,
            b == s.spec_bytes(),
            i <= b.len(),
            forall|j: int|
                0 <= j < i && j + 3 < b.len() && #[trigger] b[j] == 92 ==> vstd::utf8::is_char_boundary(
                    b,
                    j + 1,
                ) && vstd::utf8::is_char_boundary(b, j + 4),
        decreases b.len() - i,
    {
        if bytes[i] == 92 && bytes.len() - i > 3 {
            let one = s.is_char_boundary(i + 1);
            let four = s.is_char_boundary(i + 4);
            assert(b[i as int] == 92);
            if !one || !four {
                return false;
            }
        }
        i += 1;
    }
    true
}

pub fn octal3_exec(a: char, b: char, c: char) -> (r: Option<u8>)
    ensures
        r == octal3(a, b, c),
{
    let (x, y, z) = (a as u32, b as u32, c as u32);
    if a == '+' && 48 <= y && y <= 55 && 48 <= z && z <= 55 {
        Some(((y - 48) * 8 + (z - 48)) as u8)
    } else if 48 <= x && x <= 55 && 48 <= y && y <= 55 && 48 <= z && z <= 55 {
        let v: u32 = (x - 48) * 64 + (y - 48) * 8 + (z - 48);
        if v <= 255 {
            Some(v as u8)
        } else {
            None
        }
    } else {
        None
    }
}

/// Un-escapes the octal sequences the kernel writes into mount tables.
///
/// `/proc/mounts` and `/proc/self/mountinfo` encode space, tab, newline and backslash as
/// `\040`, `\011`, `\012` and `\134`, so a mount point like `/mnt/My Disk` otherwise
/// breaks the whitespace field split. Only those escapes are undone: every other
/// character, non-ASCII ones included, is carried over as it is.
pub fn unescape_octal(s: &str) -> (out: String)
    requires
        unescape_ok(s.spec_bytes()),
    ensures
        out@ == unescape_spec(s@),
        !s@.contains('\\') ==> out@ == s@,
{
    let cs = chars_of(s);
    let ghost v = s@;
    let mut out: Vec<char> = Vec::new();
    let mut i: usize = 0;
    proof {
        assert(v.subrange(0, v.len() as int) =~= v);
    }
    while i < cs.len()
        invariant
            cs@ == v,
            i <= v.len(),
            out@ + unescape_spec(v.subrange(i as int, v.len() as int)) == unescape_spec(v),
        decreases v.len() - i,
    {
        let ghost rest = v.subrange(i as int, v.len() as int);
        if cs[i] == '\\' && cs.len() - i > 3 {
            match octal3_exec(cs[i + 1], cs[i + 2], cs[i + 3]) {
                Some(code) => {
                    proof {
                        assert(rest[0] == '\\' && rest[1] == v[i + 1] && rest[2] == v[i + 2]
                            && rest[3] == v[i + 3]);
                        assert(rest.subrange(4, rest.len() as int) =~= v.subrange(
                            i + 4,
                            v.len() as int,
                        ));
                        assert(out@.push(code as char) + unescape_spec(
                            v.subrange(i + 4, v.len() as int),
                        ) =~= out@ + unescape_spec(rest));
                    }
                    out.push(code as char);
                    i += 4;
                    continue ;
                },
                None => {},
            }
        }
        proof {
            assert(rest.drop_first() =~= v.subrange(i + 1, v.len() as int));
            assert(rest[0] == v[i as int]);
            assert(out@.push(v[i as int]) + unescape_spec(v.subrange(i + 1, v.len() as int))
                =~= out@ + unescape_spec(rest));
        }
        out.push(cs[i]);
        i += 1;
    }
    proof {
        assert(unescape_spec(v.subrange(i as int, v.len() as int)) == Seq::<char>::empty());
        assert(out@ + Seq::<char>::empty() =~= out@);
        if !v.contains('\\') {
            lemma_unescape_plain(v);
        }
    }
    string_of(out.as_slice())
}

// ---------------------------------------------------------------- durations

/// Splits an uptime in seconds into days/hours/minutes for the caller to localise.
pub fn split_duration(secs: u64) -> (r: (u64, u64, u64))
    ensures
        r.0 == secs / 86400,
        r.1 == (secs % 86400) / 3600,
        r.2 == (secs % 3600) / 60,
{
    (secs / 86400, (secs % 86400) / 3600, (secs % 3600) / 60)
}

// ---------------------------------------------------------------- env files

/// The `(key, value)` pair one line of an env file yields, if any.
pub open spec fn env_line(line: Seq<char>) -> Option<(Seq<char>, Seq<char>)> {
    let l = trim_ws(line);
    if l.len() == 0 || l[0] == '#' {
        None
    } else {
        match split_once(l, '=') {
            Some((k, v)) => Some(
                (trim_ws(k), trim(trim(trim_ws(v), Class::Is('"')), Class::Is('\''))),
            ),
            None => None,
        }
    }
}

/// The pairs of every line that yields one, in order.
pub open spec fn env_pairs(ls: Seq<Seq<char>>) -> Seq<(Seq<char>, Seq<char>)>
    decreases ls.len(),
{
    if ls.len() == 0 {
        seq![]
    } else {
        let rest = env_pairs(ls.drop_last());
        match env_line(ls.last()) {
            Some(p) => rest.push(p),
            None => rest,
        }
    }
}

pub open spec fn pair_views(v: Seq<(String, String)>) -> Seq<(Seq<char>, Seq<char>)> {
    v.map_values(|p: (String, String)| (p.0@, p.1@))
}

/// Parses one env-file line.
pub fn parse_env_line(line: &[char]) -> (r: Option<(String, String)>)
    ensures
        match r {
            Some(p) => env_line(line@) == Some((p.0@, p.1@)),
            None => env_line(line@) is None,
        },
{
    let l = trimmed(line, &Class::Ws);
    if l.len() == 0 || l[0] == '#' {
        return None;
    }
    match split_once_at(l.as_slice(), '=') {
        Some(i) => {
            let k = slice_to_vec(l.as_slice(), 0, i);
            let v = slice_to_vec(l.as_slice(), i + 1, l.len());
            let key = trimmed(k.as_slice(), &Class::Ws);
            let v1 = trimmed(v.as_slice(), &Class::Ws);
            let v2 = trimmed(v1.as_slice(), &Class::Is('"'));
            let v3 = trimmed(v2.as_slice(), &Class::Is('\''));
            Some((string_of(key.as_slice()), string_of(v3.as_slice())))
        },
        None => None,
    }
}

/// Parses a `key=value` file such as `/etc/os-release`, stripping surrounding quotes.
pub fn parse_env_file(contents: &str) -> (out: Vec<(String, String)>)
    ensures
        pair_views(out@) == env_pairs(lines(contents@)),
{
    let c = chars_of(contents);
    let ls = lines_of(c.as_slice());
    let ghost lv = views(ls@);
    let mut out: Vec<(String, String)> = Vec::new();
    let mut i: usize = 0;
    while i < ls.len()
        invariant
            i <= ls@.len(),
            lv == views(ls@),
            lv.len() == ls@.len(),
            pair_views(out@) == env_pairs(lv.subrange(0, i as int)),
        decreases ls@.len() - i,
    {
        let r = parse_env_line(ls[i].as_slice());
        proof {
            assert(lv.subrange(0, i + 1).drop_last() =~= lv.subrange(0, i as int));
            assert(lv.subrange(0, i + 1).last() == ls@[i as int]@);
        }
        match r {
            Some(p) => {
                proof {
                    assert(pair_views(out@.push(p)) =~= pair_views(out@).push((p.0@, p.1@)));
                }
                out.push(p);
            },
            None => {},
        }
        i += 1;
    }
    proof {
        assert(lv.subrange(0, lv.len() as int) =~= lv);
    }
    out
}

} // verus!
