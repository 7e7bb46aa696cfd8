//! Hex-color parsing for the UI highlight: a `#rrggbb` or `#rgb` string is
//! turned into an 8-bit RGB triple, with each malformed shape mapped to its
//! own error.

use vstd::prelude::*;

verus! {

/// An 8-bit RGB colour, the crate's own plain-value form of a display
/// colour; the terminal layer converts it to whatever its widget library
/// uses.
#[derive(Copy, Clone, Debug, PartialEq, Eq, Structural)]
pub struct Rgb {
    pub r: u8,
    pub g: u8,
    pub b: u8,
}

/// Why a hex string was rejected.
#[derive(Copy, Clone, Debug, PartialEq, Eq, Structural)]
pub enum ColorError {
    /// A character outside `[0-9a-fA-F]`.
    InvalidHex,
    /// Four or eight digits: an alpha channel, which is not accepted.
    IncludesAlpha,
    /// Any digit count other than three or six (or the alpha shapes).
    InvalidHexLength,
    /// A numeric conversion failure.  `parse_hex` validates every digit
    /// before converting, so it never produces this.
    ParseError,
}

impl ColorError {
    /// A human-readable description of the error.
    pub fn message(&self) -> (m: &'static str)
        ensures
            m@ == (match self {
                ColorError::InvalidHex => "Invalid hex provided"@,
                ColorError::IncludesAlpha => "Hex value includes alpha channel"@,
                ColorError::InvalidHexLength => "Hex value must be 3 or 6 characters"@,
                ColorError::ParseError => "Failed to parse hex value"@,
            }),
    {
        match self {
            ColorError::InvalidHex => "Invalid hex provided",
            ColorError::IncludesAlpha => "Hex value includes alpha channel",
            ColorError::InvalidHexLength => "Hex value must be 3 or 6 characters",
            ColorError::ParseError => "Failed to parse hex value",
        }
    }
}

pub open spec fn is_hex_digit(c: char) -> bool {
    ('0' <= c && c <= '9') || ('a' <= c && c <= 'f') || ('A' <= c && c <= 'F')
}

pub open spec fn hex_digit_val(c: char) -> nat {
    if '0' <= c && c <= '9' {
        (c as int - '0' as int) as nat
    } else if 'a' <= c && c <= 'f' {
        (c as int - 'a' as int + 10) as nat
    } else if 'A' <= c && c <= 'F' {
        (c as int - 'A' as int + 10) as nat
    } else {
        0
    }
}

pub open spec fn all_hex(s: Seq<char>) -> bool {
    forall|i: int| 0 <= i < s.len() ==> is_hex_digit(#[trigger] s[i])
}

/// The number written in base 16 by the digits of `s`.
pub open spec fn hex_value(s: Seq<char>) -> nat
    decreases s.len(),
{
    if s.len() == 0 {
        0
    } else {
        hex_value(s.drop_last()) * 16 + hex_digit_val(s.last())
    }
}

/// Each character of `s`, written twice: the expansion of the short
/// `#rgb` form into `#rrggbb`.
pub open spec fn doubled(s: Seq<char>) -> Seq<char>
    decreases s.len(),
{
    if s.len() == 0 {
        Seq::empty()
    } else {
        doubled(s.drop_last()).push(s.last()).push(s.last())
    }
}

/// `s` with every leading `#` removed.
pub open spec fn trim_hash(s: Seq<char>) -> Seq<char>
    decreases s.len(),
{
    if s.len() > 0 && s[0] == '#' {
        trim_hash(s.subrange(1, s.len() as int))
    } else {
        s
    }
}

/// The colour encoded by a six-digit hex value.
pub open spec fn rgb_of(v: nat) -> Rgb {
    Rgb { r: ((v / 0x10000) % 0x100) as u8, g: ((v / 0x100) % 0x100) as u8, b: (v % 0x100) as u8 }
}

pub open spec fn pow16(n: nat) -> nat
    decreases n,
{
    if n == 0 {
        1
    } else {
        16 * pow16((n - 1) as nat)
    }
}

proof fn lemma_hex_value_bound(s: Seq<char>)
    ensures
        hex_value(s) < pow16(s.len()),
    decreases s.len(),
{
    if s.len() > 0 {
        lemma_hex_value_bound(s.drop_last());
        assert(hex_digit_val(s.last()) < 16);
    }
}

proof fn lemma_pow16_mono(a: nat, b: nat)
    requires
        a <= b,
    ensures
        pow16(a) <= pow16(b),
    decreases b,
{
    if a < b {
        lemma_pow16_mono(a, (b - 1) as nat);
        assert(pow16((b - 1) as nat) >= 1) by {
            lemma_pow16_mono(0, (b - 1) as nat);
        }
    }
}

proof fn lemma_doubled_all_hex(s: Seq<char>)
    requires
        all_hex(s),
    ensures
        all_hex(doubled(s)),
        doubled(s).len() == 2 * s.len(),
    decreases s.len(),
{
    if s.len() > 0 {
        assert(all_hex(s.drop_last()));
        lemma_doubled_all_hex(s.drop_last());
        assert(is_hex_digit(s.last()));
        assert forall|i: int| 0 <= i < doubled(s).len() implies is_hex_digit(
            #[trigger] doubled(s)[i],
        ) by {
            if i < doubled(s.drop_last()).len() {
                assert(doubled(s)[i] == doubled(s.drop_last())[i]);
            } else {
                assert(doubled(s)[i] == s.last());
            }
        }
    }
}

/// Accepts exactly the strings made of hex digits alone.
pub fn validate_chars(s: &str) -> (r: Result<(), ColorError>)
    ensures
        r matches Ok(u) <==> all_hex(s@),
        r matches Err(e) ==> e == ColorError::InvalidHex && !all_hex(s@),
{
    let n = s.unicode_len();
    let mut i: usize = 0;
    while i < n
        invariant
            i <= n,
            n == s@.len(),
            forall|j: int| 0 <= j < i ==> is_hex_digit(#[trigger] s@[j]),
        decreases n - i,
    {
        let c = s.get_char(i);
        let ok = ('0' <= c && c <= '9') || ('a' <= c && c <= 'f') || ('A' <= c && c <= 'F');
        if !ok {
            return Err(ColorError::InvalidHex);
        }
        i = i + 1;
    }
    Ok(())
}

/// Accepts the digit counts three and six; rejects the alpha shapes four
/// and eight, and every other count.
pub fn validate_hex_len(len: usize) -> (r: Result<(), ColorError>)
    ensures
        (len == 3 || len == 6) ==> r matches Ok(u),
        (len == 4 || len == 8) ==> (r matches Err(e) && e == ColorError::IncludesAlpha),
        (len != 3 && len != 4 && len != 6 && len != 8) ==> (r matches Err(e) && e
            == ColorError::InvalidHexLength),
{
    if len == 4 || len == 8 {
        return Err(ColorError::IncludesAlpha);
    }
    if len != 3 && len != 6 {
        return Err(ColorError::InvalidHexLength);
    }
    Ok(())
}

/// Expands a short hex form by writing every character twice.
pub fn hex_3_to_6(hex_trois: &str) -> (r: String)
    ensures
        r@ == doubled(hex_trois@),
{
    let n = hex_trois.unicode_len();
    let mut hex = String::new();
    let mut i: usize = 0;
    while i < n
        invariant
            i <= n,
            n == hex_trois@.len(),
            hex@ == doubled(hex_trois@.subrange(0, i as int)),
        decreases n - i,
    {
        let c = hex_trois.substring_char(i, i + 1);
        hex.append(c);
        hex.append(c);
        proof {
            let pre = hex_trois@.subrange(0, i as int);
            let cur = hex_trois@.subrange(0, i + 1);
            assert(cur.drop_last() =~= pre);
            assert(cur.last() == hex_trois@[i as int]);
            assert(c@ =~= seq![hex_trois@[i as int]]);
            assert(doubled(pre) + c@ + c@ =~= doubled(pre).push(cur.last()).push(cur.last()));
        }
        i = i + 1;
    }
    proof {
        assert(hex_trois@.subrange(0, n as int) =~= hex_trois@);
    }
    hex
}

/// The value of one hex digit.
fn hex_digit_value(c: char) -> (v: u8)
    requires
        is_hex_digit(c),
    ensures
        v == hex_digit_val(c),
        v < 16,
{
    if '0' <= c && c <= '9' {
        (c as u8) - ('0' as u8)
    } else if 'a' <= c && c <= 'f' {
        (c as u8) - ('a' as u8) + 10
    } else {
        (c as u8) - ('A' as u8) + 10
    }
}

/// Parses a hex colour string, with any number of leading `#` marks
/// stripped first.  Three hex digits are expanded to six by doubling; six
/// digits name the colour directly.  Exactly the strings whose stripped
/// form is all hex digits of length three or six are accepted.
pub fn parse_hex(raw_hex: &str) -> (res: Result<Rgb, ColorError>)
    ensures
        ({
            let t = trim_hash(raw_hex@);
            &&& !all_hex(t) ==> (res matches Err(e) && e == ColorError::InvalidHex)
            &&& all_hex(t) && (t.len() == 4 || t.len() == 8) ==> (res matches Err(e) && e
                == ColorError::IncludesAlpha)
            &&& all_hex(t) && t.len() != 3 && t.len() != 4 && t.len() != 6 && t.len() != 8
                ==> (res matches Err(e) && e == ColorError::InvalidHexLength)
            &&& all_hex(t) && t.len() == 6 ==> (res matches Ok(c) && c == rgb_of(hex_value(t)))
            &&& all_hex(t) && t.len() == 3 ==> (res matches Ok(c) && c == rgb_of(
                hex_value(doubled(t)),
            ))
        }),
{
    let n = raw_hex.unicode_len();
    let mut st: usize = 0;
    proof {
        assert(raw_hex@.subrange(0, n as int) =~= raw_hex@);
    }
    while st < n && raw_hex.get_char(st) == '#'
        invariant
            st <= n,
            n == raw_hex@.len(),
            trim_hash(raw_hex@) == trim_hash(raw_hex@.subrange(st as int, n as int)),
        decreases n - st,
    {
        proof {
            let cur = raw_hex@.subrange(st as int, n as int);
            assert(cur[0] == raw_hex@[st as int]);
            assert(cur.subrange(1, cur.len() as int) =~= raw_hex@.subrange(st + 1, n as int));
        }
        st = st + 1;
    }
    let hex_str = raw_hex.substring_char(st, n);
    let ghost t = trim_hash(raw_hex@);
    proof {
        let cur = raw_hex@.subrange(st as int, n as int);
        if st < n {
            assert(cur[0] == raw_hex@[st as int]);
            assert(cur[0] != '#');
        }
        assert(t == cur);
        assert(hex_str@ == t);
    }

    match validate_chars(hex_str) {
        Ok(_) => {},
        Err(e) => {
            return Err(e);
        },
    }

    let hex_len = hex_str.unicode_len();
    match validate_hex_len(hex_len) {
        Ok(_) => {},
        Err(e) => {
            return Err(e);
        },
    }

    let hex_valid: String = if hex_len == 3 {
        proof {
            lemma_doubled_all_hex(t);
        }
        hex_3_to_6(hex_str)
    } else {
        hex_str.to_owned()
    };
    let ghost digits = hex_valid@;

    let hs = hex_valid.as_str();
    let mut v: u32 = 0;
    let mut i: usize = 0;
    while i < 6
        invariant
            i <= 6,
            digits.len() == 6,
            all_hex(digits),
            hs@ == digits,
            v == hex_value(digits.subrange(0, i as int)),
            v < pow16(i as nat),
        decreases 6 - i,
    {
        let c = hs.get_char(i);
        let d = hex_digit_value(c);
        proof {
            let pre = digits.subrange(0, i as int);
            let cur = digits.subrange(0, i + 1);
            assert(cur.drop_last() =~= pre);
            assert(cur.last() == digits[i as int]);
            lemma_pow16_mono((i + 1) as nat, 6);
            assert(pow16(6) == 0x1000000) by {
                reveal_with_fuel(pow16, 7);
            }
        }
        v = v * 16 + (d as u32);
        i = i + 1;
    }
    proof {
        assert(digits.subrange(0, 6) =~= digits);
        assert(pow16(6) == 0x1000000) by {
            reveal_with_fuel(pow16, 7);
        }
    }

    let r = (v / 0x10000) as u8;
    let g = ((v / 0x100) % 0x100) as u8;
    let b = (v % 0x100) as u8;
    proof {
        assert(v / 0x10000 < 0x100);
        assert((v / 0x10000) % 0x100 == v / 0x10000);
    }
    Ok(Rgb { r, g, b })
}

} // verus!
