//! Integers in text: reading them the way `str::parse` and `from_str_radix` do, and
//! writing them in decimal and hexadecimal.
use vstd::prelude::*;
use crate::text::starts_with;

verus! {

pub open spec fn is_dec_digit(c: char) -> bool {
    '0' <= c && c <= '9'
}

pub open spec fn is_hex_digit(c: char) -> bool {
    ('0' <= c && c <= '9') || ('a' <= c && c <= 'f') || ('A' <= c && c <= 'F')
}

pub open spec fn is_oct_digit(c: char) -> bool {
    '0' <= c && c <= '7'
}

/// Value of one digit in radix 16 (which covers radix 10 and 8 as well).
pub open spec fn digit_val(c: char) -> nat {
    if '0' <= c && c <= '9' {
        (c as nat - '0' as nat) as nat
    } else if 'a' <= c && c <= 'f' {
        (c as nat - 'a' as nat + 10) as nat
    } else if 'A' <= c && c <= 'F' {
        (c as nat - 'A' as nat + 10) as nat
    } else {
        0
    }
}

/// Whether every character is a digit of `radix` (8, 10 or 16).
pub open spec fn all_digits(s: Seq<char>, radix: nat) -> bool {
    forall|i: int| 0 <= i < s.len() ==> is_radix_digit(#[trigger] s[i], radix)
}

pub open spec fn is_radix_digit(c: char, radix: nat) -> bool {
    if radix == 16 {
        is_hex_digit(c)
    } else if radix == 8 {
        is_oct_digit(c)
    } else {
        is_dec_digit(c)
    }
}

/// The number a string of digits spells in `radix`.
pub open spec fn digits_value(s: Seq<char>, radix: nat) -> nat
    decreases s.len(),
{
    if s.len() == 0 {
        0
    } else {
        digits_value(s.drop_last(), radix) * radix + digit_val(s.last())
    }
}

/// What `from_str_radix` reads for an unsigned target, before its range check: an
/// optional `+`, then at least one digit.
pub open spec fn unsigned_text(s: Seq<char>, radix: nat) -> Option<nat> {
    let body = if s.len() > 0 && s[0] == '+' {
        s.drop_first()
    } else {
        s
    };
    if body.len() > 0 && all_digits(body, radix) {
        Some(digits_value(body, radix))
    } else {
        None
    }
}

/// What `str::parse` reads for a signed target, before its range check.
pub open spec fn signed_text(s: Seq<char>) -> Option<int> {
    if s.len() > 0 && s[0] == '-' {
        let body = s.drop_first();
        if body.len() > 0 && all_digits(body, 10) {
            Some(-digits_value(body, 10))
        } else {
            None
        }
    } else {
        match unsigned_text(s, 10) {
            Some(v) => Some(v as int),
            None => None,
        }
    }
}

/// `s.parse::<u64>()`.
pub open spec fn parse_u64_spec(s: Seq<char>) -> Option<u64> {
    match unsigned_text(s, 10) {
        Some(v) => if v <= u64::MAX {
            Some(v as u64)
        } else {
            None
        },
        None => None,
    }
}

/// `s.parse::<u32>()`.
pub open spec fn parse_u32_spec(s: Seq<char>) -> Option<u32> {
    match unsigned_text(s, 10) {
        Some(v) => if v <= u32::MAX {
            Some(v as u32)
        } else {
            None
        },
        None => None,
    }
}

/// `s.parse::<i64>()`.
pub open spec fn parse_i64_spec(s: Seq<char>) -> Option<i64> {
    match signed_text(s) {
        Some(v) => if i64::MIN <= v <= i64::MAX {
            Some(v as i64)
        } else {
            None
        },
        None => None,
    }
}

/// `u32::from_str_radix(s, 16)`.
pub open spec fn parse_hex_spec(s: Seq<char>) -> Option<u32> {
    match unsigned_text(s, 16) {
        Some(v) => if v <= u32::MAX {
            Some(v as u32)
        } else {
            None
        },
        None => None,
    }
}

proof fn lemma_digits_value_mono(s: Seq<char>, radix: nat, i: int)
    requires
        0 <= i <= s.len(),
        radix >= 1,
    ensures
        digits_value(s.subrange(0, i), radix) <= digits_value(s, radix),
    decreases s.len() - i,
{
    if i < s.len() {
        lemma_digits_value_mono(s, radix, i + 1);
        let t = s.subrange(0, i + 1);
        assert(t.drop_last() =~= s.subrange(0, i));
        assert(digits_value(t, radix) == digits_value(s.subrange(0, i), radix) * radix
            + digit_val(t.last()));
        assert(digits_value(s.subrange(0, i), radix) * radix >= digits_value(
            s.subrange(0, i),
            radix,
        )) by (nonlinear_arith)
            requires
                radix >= 1,
        ;
    } else {
        assert(s.subrange(0, i) =~= s);
    }
}

pub fn digit_value(c: char) -> (v: u64)
    ensures
        v == digit_val(c),
        v < 16,
{
    if '0' <= c && c <= '9' {
        (c as u64) - ('0' as u64)
    } else if 'a' <= c && c <= 'f' {
        (c as u64) - ('a' as u64) + 10
    } else if 'A' <= c && c <= 'F' {
        (c as u64) - ('A' as u64) + 10
    } else {
        0
    }
}

pub fn is_radix_digit_exec(c: char, radix: u64) -> (b: bool)
    ensures
        b == is_radix_digit(c, radix as nat),
{
    if radix == 16 {
        ('0' <= c && c <= '9') || ('a' <= c && c <= 'f') || ('A' <= c && c <= 'F')
    } else if radix == 8 {
        '0' <= c && c <= '7'
    } else {
        '0' <= c && c <= '9'
    }
}

/// The value of `s[from..to]` as digits of `radix`, when they all are digits and the
/// value fits in a `u64`.
pub fn digits_u64(s: &[char], from: usize, to: usize, radix: u64) -> (r: Option<u64>)
    requires
        from <= to <= s@.len(),
        radix == 8 || radix == 10 || radix == 16,
    ensures
        ({
            let t = s@.subrange(from as int, to as int);
            match r {
                Some(v) => all_digits(t, radix as nat) && v == digits_value(t, radix as nat),
                None => !all_digits(t, radix as nat) || digits_value(t, radix as nat)
                    > u64::MAX,
            }
        }),
{
    let ghost t = s@.subrange(from as int, to as int);
    let mut i: usize = from;
    let mut value: u64 = 0;
    let mut overflow = false;
    while i < to
        invariant
            from <= i <= to <= s@.len(),
            radix == 8 || radix == 10 || radix == 16,
            t == s@.subrange(from as int, to as int),
            all_digits(s@.subrange(from as int, i as int), radix as nat),
            !overflow ==> value == digits_value(s@.subrange(from as int, i as int), radix as nat),
            overflow ==> digits_value(s@.subrange(from as int, i as int), radix as nat)
                > u64::MAX,
        decreases to - i,
    {
        let c = s[i];
        let ghost prev = s@.subrange(from as int, i as int);
        let ghost next = s@.subrange(from as int, i + 1);
        proof {
            assert(next.drop_last() =~= prev);
            assert(next.last() == c);
        }
        if !is_radix_digit_exec(c, radix) {
            proof {
                assert(t[i - from] == c);
                assert(!all_digits(t, radix as nat));
            }
            return None;
        }
        let d = digit_value(c);
        proof {
            assert forall|j: int| 0 <= j < next.len() implies is_radix_digit(
                #[trigger] next[j],
                radix as nat,
            ) by {
                if j < prev.len() {
                    assert(next[j] == prev[j]);
                }
            }
            assert(digits_value(next, radix as nat) == digits_value(prev, radix as nat)
                * radix + digit_val(c));
        }
        if overflow {
            proof {
                assert(digits_value(prev, radix as nat) * radix >= digits_value(
                    prev,
                    radix as nat,
                )) by (nonlinear_arith)
                    requires
                        radix >= 1,
                ;
            }
        } else {
            match value.checked_mul(radix) {
                Some(m) => match m.checked_add(d) {
                    Some(n) => {
                        value = n;
                    },
                    None => {
                        overflow = true;
                    },
                },
                None => {
                    proof {
                        assert(digits_value(prev, radix as nat) * radix + digit_val(c) >= (
                        value as nat) * (radix as nat));
                    }
                    overflow = true;
                },
            }
        }
        i += 1;
    }
    if overflow {
        proof {
            lemma_digits_value_mono(t, radix as nat, (i - from) as int);
            assert(t.subrange(0, (i - from) as int) =~= s@.subrange(from as int, i as int));
        }
        // All digits, but too large. Whether the rest are digits is still open.
        let mut j: usize = i;
        while j < to
            invariant
                from <= i <= j <= to <= s@.len(),
                radix == 8 || radix == 10 || radix == 16,
                t == s@.subrange(from as int, to as int),
                digits_value(t, radix as nat) > u64::MAX,
                all_digits(s@.subrange(from as int, j as int), radix as nat),
            decreases to - j,
        {
            if !is_radix_digit_exec(s[j], radix) {
                proof {
                    assert(t[j - from] == s@[j as int]);
                }
                return None;
            }
            proof {
                let p = s@.subrange(from as int, j as int);
                let q = s@.subrange(from as int, j + 1);
                assert forall|k: int| 0 <= k < q.len() implies is_radix_digit(
                    #[trigger] q[k],
                    radix as nat,
                ) by {
                    if k < p.len() {
                        assert(q[k] == p[k]);
                    }
                }
            }
            j += 1;
        }
        proof {
            assert(s@.subrange(from as int, j as int) =~= t);
        }
        return None;
    }
    Some(value)
}

/// `u64` read as `str::parse::<u64>` reads it.
pub fn parse_u64(s: &[char]) -> (r: Option<u64>)
    ensures
        r == parse_u64_spec(s@),
{
    parse_unsigned(s, 10)
}

/// Unsigned text in `radix`, as `from_str_radix` reads it into a `u64`.
pub fn parse_unsigned(s: &[char], radix: u64) -> (r: Option<u64>)
    requires
        radix == 8 || radix == 10 || radix == 16,
    ensures
        r == (match unsigned_text(s@, radix as nat) {
            Some(v) => if v <= u64::MAX {
                Some(v as u64)
            } else {
                None::<u64>
            },
            None => None,
        }),
{
    let from: usize = if s.len() > 0 && s[0] == '+' {
        1
    } else {
        0
    };
    proof {
        if from == 1 {
            assert(s@.subrange(1, s@.len() as int) =~= s@.drop_first());
        } else {
            assert(s@.subrange(0, s@.len() as int) =~= s@);
        }
    }
    if from == s.len() {
        return None;
    }
    digits_u64(s, from, s.len(), radix)
}

pub fn parse_u32(s: &[char]) -> (r: Option<u32>)
    ensures
        r == parse_u32_spec(s@),
{
    match parse_unsigned(s, 10) {
        Some(v) => if v <= 0xffff_ffff {
            Some(v as u32)
        } else {
            None
        },
        None => None,
    }
}

pub fn parse_hex_u32(s: &[char]) -> (r: Option<u32>)
    ensures
        r == parse_hex_spec(s@),
{
    match parse_unsigned(s, 16) {
        Some(v) => if v <= 0xffff_ffff {
            Some(v as u32)
        } else {
            None
        },
        None => None,
    }
}

pub fn parse_i64(s: &[char]) -> (r: Option<i64>)
    ensures
        r == parse_i64_spec(s@),
{
    if s.len() > 0 && s[0] == '-' {
        proof {
            assert(s@.subrange(1, s@.len() as int) =~= s@.drop_first());
        }
        if s.len() == 1 {
            return None;
        }
        match digits_u64(s, 1, s.len(), 10) {
            Some(m) => {
                if m <= 0x8000_0000_0000_0000 {
                    if m == 0x8000_0000_0000_0000 {
                        Some(-0x7fff_ffff_ffff_ffff_i64 - 1)
                    } else {
                        Some(-(m as i64))
                    }
                } else {
                    None
                }
            },
            None => None,
        }
    } else {
        match parse_unsigned(s, 10) {
            Some(v) => if v <= 0x7fff_ffff_ffff_ffff {
                Some(v as i64)
            } else {
                None
            },
            None => None,
        }
    }
}

/// `trim_start_matches("0x")`: every leading `0x` removed.
pub open spec fn strip_0x(s: Seq<char>) -> Seq<char>
    decreases s.len(),
{
    if starts_with(s, seq!['0', 'x']) {
        strip_0x(s.subrange(2, s.len() as int))
    } else {
        s
    }
}

pub fn strip_0x_from(s: &[char]) -> (i: usize)
    ensures
        i <= s@.len(),
        s@.subrange(i as int, s@.len() as int) == strip_0x(s@),
{
    let mut i: usize = 0;
    proof {
        assert(s@.subrange(0, s@.len() as int) =~= s@);
    }
    while s.len() - i >= 2 && s[i] == '0' && s[i + 1] == 'x'
        invariant
            i <= s@.len(),
            strip_0x(s@.subrange(i as int, s@.len() as int)) == strip_0x(s@),
        decreases s@.len() - i,
    {
        proof {
            let t = s@.subrange(i as int, s@.len() as int);
            assert(t[0] == '0' && t[1] == 'x');
            assert(t.subrange(0, 2) =~= seq!['0', 'x']);
            assert(starts_with(t, seq!['0', 'x']));
            assert(t.subrange(2, t.len() as int) =~= s@.subrange(i + 2, s@.len() as int));
            assert(strip_0x(t) == strip_0x(s@.subrange(i + 2, s@.len() as int)));
        }
        i += 2;
    }
    proof {
        let t = s@.subrange(i as int, s@.len() as int);
        if starts_with(t, seq!['0', 'x']) {
            assert(t[0] == t.subrange(0, 2)[0]);
            assert(t[1] == t.subrange(0, 2)[1]);
        }
    }
    i
}

/// `16^n`.
pub open spec fn pow16(n: nat) -> nat
    decreases n,
{
    if n == 0 {
        1
    } else {
        16 * pow16((n - 1) as nat)
    }
}

/// Eight hex digits fit in 32 bits.
pub proof fn lemma_pow16_8(n: nat)
    requires
        n <= 8,
    ensures
        pow16(n) <= 0x1_0000_0000,
{
    reveal_with_fuel(pow16, 9);
}

// ------------------------------------------------------------------ writing

pub open spec fn digit_char(d: nat) -> char {
    if d < 10 {
        ((d + 48) as u32) as char
    } else {
        ((d + 87) as u32) as char
    }
}

/// Decimal digits of `n`, as `Display` writes an unsigned integer.
pub open spec fn dec_str(n: nat) -> Seq<char>
    decreases n,
{
    if n < 10 {
        seq![digit_char(n)]
    } else {
        dec_str(n / 10).push(digit_char(n % 10))
    }
}

/// Lower-case hexadecimal digits of `n`, at least `width` of them (zero padded).
pub open spec fn hex_str(n: nat, width: nat) -> Seq<char>
    decreases width, n,
{
    if n < 16 && width <= 1 {
        seq![digit_char(n)]
    } else {
        hex_str(n / 16, if width > 0 {
            (width - 1) as nat
        } else {
            0
        }).push(digit_char(n % 16))
    }
}

proof fn lemma_digit_char(d: nat)
    requires
        d < 10,
    ensures
        is_dec_digit(digit_char(d)),
        digit_val(digit_char(d)) == d,
{
    let c = digit_char(d);
    assert(c as nat == d + 48);
}

/// The decimal text of `n` is a non-empty run of digits that spells `n`.
pub proof fn lemma_dec_str(n: nat)
    ensures
        dec_str(n).len() > 0,
        all_digits(dec_str(n), 10),
        digits_value(dec_str(n), 10) == n,
    decreases n,
{
    if n < 10 {
        lemma_digit_char(n);
        let s = dec_str(n);
        assert(s.drop_last() =~= Seq::<char>::empty());
        assert(digits_value(s.drop_last(), 10) == 0);
        assert(s.last() == digit_char(n));
    } else {
        lemma_dec_str(n / 10);
        lemma_digit_char(n % 10);
        let s = dec_str(n);
        assert(s.drop_last() =~= dec_str(n / 10));
        assert forall|i: int| 0 <= i < s.len() implies is_radix_digit(#[trigger] s[i], 10) by {
            if i < s.len() - 1 {
                assert(s[i] == dec_str(n / 10)[i]);
            }
        }
        assert(s.last() == digit_char(n % 10));
        assert(digits_value(s, 10) == digits_value(dec_str(n / 10), 10) * 10 + digit_val(s.last()));
        assert(n == (n / 10) * 10 + n % 10) by (nonlinear_arith);
    }
}

/// Writing a number in decimal and reading it back gives the number.
pub proof fn lemma_dec_roundtrip(n: u32)
    ensures
        parse_u32_spec(dec_str(n as nat)) == Some(n),
{
    lemma_dec_str(n as nat);
    let s = dec_str(n as nat);
    assert(is_radix_digit(s[0], 10));
}

pub fn digit_to_char(d: u64) -> (c: char)
    requires
        d < 16,
    ensures
        c == digit_char(d as nat),
{
    let v: u32 = if d < 10 {
        (d + 48) as u32
    } else {
        (d + 87) as u32
    };
    let b: u8 = v as u8;
    let c = b as char;
    proof {
        assert(c as u32 == v);
    }
    c
}

pub fn dec_chars(n: u64) -> (out: Vec<char>)
    ensures
        out@ == dec_str(n as nat),
    decreases n,
{
    if n < 10 {
        let mut v: Vec<char> = Vec::new();
        v.push(digit_to_char(n));
        proof {
            assert(v@ =~= seq![digit_char(n as nat)]);
        }
        v
    } else {
        let mut v = dec_chars(n / 10);
        v.push(digit_to_char(n % 10));
        v
    }
}

pub fn hex_chars(n: u64, width: u64) -> (out: Vec<char>)
    ensures
        out@ == hex_str(n as nat, width as nat),
    decreases width, n,
{
    if n < 16 && width <= 1 {
        let mut v: Vec<char> = Vec::new();
        v.push(digit_to_char(n));
        proof {
            assert(v@ =~= seq![digit_char(n as nat)]);
        }
        v
    } else {
        let w: u64 = if width > 0 {
            width - 1
        } else {
            0
        };
        let mut v = hex_chars(n / 16, w);
        v.push(digit_to_char(n % 16));
        v
    }
}

} // verus!
