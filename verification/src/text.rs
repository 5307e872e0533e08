//! Decimal and hexadecimal rendering of integers, and building strings from parts.

use vstd::prelude::*;
use vstd::string::StringExecFns;

verus! {

/// The character that stands for the digit `d` (0 to 15) in lower or upper case.
pub open spec fn digit_char(d: int, upper: bool) -> char {
    if d < 10 {
        seq!['0', '1', '2', '3', '4', '5', '6', '7', '8', '9'][d]
    } else if upper {
        seq!['A', 'B', 'C', 'D', 'E', 'F'][d - 10]
    } else {
        seq!['a', 'b', 'c', 'd', 'e', 'f'][d - 10]
    }
}

/// The decimal digits of `n`, most significant first, without leading zeros.
pub open spec fn dec_text(n: nat) -> Seq<char>
    decreases n,
{
    if n < 10 {
        seq![digit_char(n as int, false)]
    } else {
        dec_text(n / 10).push(digit_char((n % 10) as int, false))
    }
}

/// The hexadecimal digits of `n`, most significant first, without leading zeros.
pub open spec fn hex_text(n: nat, upper: bool) -> Seq<char>
    decreases n,
{
    if n < 16 {
        seq![digit_char(n as int, upper)]
    } else {
        hex_text(n / 16, upper).push(digit_char((n % 16) as int, upper))
    }
}

/// The four hexadecimal digits of a 16-bit value, leading zeros included.
pub open spec fn hex4_text(n: u16, upper: bool) -> Seq<char> {
    seq![
        digit_char(n as int / 0x1000, upper),
        digit_char(n as int / 0x100 % 16, upper),
        digit_char(n as int / 0x10 % 16, upper),
        digit_char(n as int % 16, upper),
    ]
}

/// The one-character string for the digit `d`.
pub fn digit_str(d: u8, upper: bool) -> (r: &'static str)
    requires
        d < 16,
    ensures
        r@ == seq![digit_char(d as int, upper)],
{
    proof {
        reveal_strlit("0");
        reveal_strlit("1");
        reveal_strlit("2");
        reveal_strlit("3");
        reveal_strlit("4");
        reveal_strlit("5");
        reveal_strlit("6");
        reveal_strlit("7");
        reveal_strlit("8");
        reveal_strlit("9");
        reveal_strlit("a");
        reveal_strlit("b");
        reveal_strlit("c");
        reveal_strlit("d");
        reveal_strlit("e");
        reveal_strlit("f");
        reveal_strlit("A");
        reveal_strlit("B");
        reveal_strlit("C");
        reveal_strlit("D");
        reveal_strlit("E");
        reveal_strlit("F");
    }
    let r = match d {
        0 => "0",
        1 => "1",
        2 => "2",
        3 => "3",
        4 => "4",
        5 => "5",
        6 => "6",
        7 => "7",
        8 => "8",
        9 => "9",
        10 => if upper { "A" } else { "a" },
        11 => if upper { "B" } else { "b" },
        12 => if upper { "C" } else { "c" },
        13 => if upper { "D" } else { "d" },
        14 => if upper { "E" } else { "e" },
        _ => if upper { "F" } else { "f" },
    };
    assert(r@ =~= seq![digit_char(d as int, upper)]);
    r
}

/// Renders `n` in decimal.
pub fn dec_string(n: u64) -> (r: String)
    ensures
        r@ == dec_text(n as nat),
    decreases n,
{
    if n < 10 {
        String::from_str(digit_str(n as u8, false))
    } else {
        let mut s = dec_string(n / 10);
        s.append(digit_str((n % 10) as u8, false));
        assert(s@ =~= dec_text(n as nat));
        s
    }
}

/// Renders `n` in hexadecimal without padding.
pub fn hex_string(n: u64, upper: bool) -> (r: String)
    ensures
        r@ == hex_text(n as nat, upper),
    decreases n,
{
    if n < 16 {
        String::from_str(digit_str(n as u8, upper))
    } else {
        let mut s = hex_string(n / 16, upper);
        s.append(digit_str((n % 16) as u8, upper));
        assert(s@ =~= hex_text(n as nat, upper));
        s
    }
}

/// Renders a 16-bit value as exactly four hexadecimal digits.
pub fn hex4_string(n: u16, upper: bool) -> (r: String)
    ensures
        r@ == hex4_text(n, upper),
{
    let mut s = String::from_str(digit_str((n / 0x1000) as u8, upper));
    s.append(digit_str((n / 0x100 % 16) as u8, upper));
    s.append(digit_str((n / 0x10 % 16) as u8, upper));
    s.append(digit_str((n % 16) as u8, upper));
    assert(s@ =~= hex4_text(n, upper));
    s
}

/// What `String::from_utf8_lossy` makes of `bytes`.
pub uninterp spec fn utf8_lossy_text(bytes: Seq<u8>) -> Seq<char>;

/// What the `Debug` rendering of a string slice with contents `s` is.
pub uninterp spec fn debug_text(s: Seq<char>) -> Seq<char>;

/// `String::from_utf8_lossy`: decodes `bytes` as UTF-8, with U+FFFD in place of
/// each malformed stretch. The result depends on the bytes alone; the contract
/// names it and says nothing of its contents.
#[verifier::external_body]
pub(crate) fn utf8_lossy(bytes: &[u8]) -> (r: String)
    ensures
        r@ == utf8_lossy_text(bytes@),
{
    String::from_utf8_lossy(bytes).into_owned()
}

/// `<str as Debug>::fmt`: the string between double quotes, with escapes. The
/// result depends on the characters alone; the contract names it and says
/// nothing of its contents.
#[verifier::external_body]
pub(crate) fn debug_string(s: &str) -> (r: String)
    ensures
        r@ == debug_text(s@),
{
    format!("{:?}", s)
}

/// Concatenates two parts.
pub fn join2(a: &str, b: &str) -> (r: String)
    ensures
        r@ == a@ + b@,
{
    let mut s = String::from_str(a);
    s.append(b);
    s
}

/// Concatenates three parts.
pub fn join3(a: &str, b: &str, c: &str) -> (r: String)
    ensures
        r@ == a@ + b@ + c@,
{
    let mut s = String::from_str(a);
    s.append(b);
    s.append(c);
    s
}

/// Concatenates four parts.
pub fn join4(a: &str, b: &str, c: &str, d: &str) -> (r: String)
    ensures
        r@ == a@ + b@ + c@ + d@,
{
    let mut s = join3(a, b, c);
    s.append(d);
    s
}

/// Concatenates five parts.
pub fn join5(a: &str, b: &str, c: &str, d: &str, e: &str) -> (r: String)
    ensures
        r@ == a@ + b@ + c@ + d@ + e@,
{
    let mut s = join3(a, b, c);
    s.append(d);
    s.append(e);
    s
}

/// The character that stands in for what cannot be decoded.
pub const REPLACEMENT: char = '\u{FFFD}';

/// Whether `u` is a surrogate that opens a pair.
pub open spec fn is_high_surrogate(u: u16) -> bool {
    0xD800 <= u <= 0xDBFF
}

/// Whether `u` is a surrogate that closes a pair.
pub open spec fn is_low_surrogate(u: u16) -> bool {
    0xDC00 <= u <= 0xDFFF
}

/// The character that the surrogate pair `high`, `low` stands for.
pub open spec fn pair_char(high: u16, low: u16) -> char {
    (0x1_0000 + (high - 0xD800) * 0x400 + (low - 0xDC00)) as char
}

/// The text that `units` stand for in UTF-16: a unit that is no surrogate is
/// its character, a high surrogate before a low one is the character of the
/// pair, and any other surrogate is U+FFFD.
pub open spec fn utf16_lossy_text(units: Seq<u16>) -> Seq<char>
    decreases units.len(),
{
    if units.len() == 0 {
        Seq::empty()
    } else if !is_high_surrogate(units[0]) && !is_low_surrogate(units[0]) {
        seq![units[0] as char] + utf16_lossy_text(units.drop_first())
    } else if is_high_surrogate(units[0]) && units.len() >= 2 && is_low_surrogate(units[1]) {
        seq![pair_char(units[0], units[1])] + utf16_lossy_text(
            units.subrange(2, units.len() as int),
        )
    } else {
        seq![REPLACEMENT] + utf16_lossy_text(units.drop_first())
    }
}

/// `String::from_utf16_lossy`: decodes `units` as UTF-16, with U+FFFD in
/// place of each unpaired surrogate.
#[verifier::external_body]
pub(crate) fn utf16_lossy(units: &[u16]) -> (r: String)
    ensures
        r@ == utf16_lossy_text(units@),
{
    String::from_utf16_lossy(units)
}

/// Whether `v` is a Unicode scalar value: a code point that is no surrogate.
pub open spec fn is_scalar_value(v: u32) -> bool {
    v < 0xD800 || 0xE000 <= v <= 0x10FFFF
}

/// `char::from_u32`: the character with code point `v`, or `None` where `v`
/// is a surrogate or lies above U+10FFFF.
#[verifier::external_body]
pub(crate) fn char_from_u32(v: u32) -> (r: Option<char>)
    ensures
        r == (if is_scalar_value(v) {
            Some(v as char)
        } else {
            None
        }),
{
    char::from_u32(v)
}

/// `String::push`: appends one character.
#[verifier::external_body]
pub(crate) fn push_char(s: &mut String, c: char)
    ensures
        final(s)@ == old(s)@.push(c),
{
    s.push(c)
}

/// Whether every character of `s` is a digit or an ASCII letter.
pub open spec fn alphanumeric(s: Seq<char>) -> bool {
    forall|i: int|
        0 <= i < s.len() ==> ('0' <= #[trigger] s[i] <= '9' || 'a' <= s[i] <= 'z' || 'A' <= s[i]
            <= 'Z')
}

/// A digit is rendered as a digit or a letter.
pub proof fn lemma_digit_char(d: int, upper: bool)
    requires
        0 <= d < 16,
    ensures
        alphanumeric(seq![digit_char(d, upper)]),
{
}

/// Numbers are rendered in digits and letters only.
pub proof fn lemma_number_text(n: nat, upper: bool)
    ensures
        alphanumeric(dec_text(n)),
        alphanumeric(hex_text(n, upper)),
    decreases n,
{
    if n >= 10 {
        lemma_number_text(n / 10, upper);
    }
    if n >= 16 {
        lemma_number_text(n / 16, upper);
    }
    lemma_digit_char((n % 10) as int, false);
    lemma_digit_char((n % 16) as int, upper);
    assert forall|i: int| 0 <= i < dec_text(n).len() implies ('0' <= #[trigger] dec_text(n)[i]
        <= '9' || 'a' <= dec_text(n)[i] <= 'z' || 'A' <= dec_text(n)[i] <= 'Z') by {
        if n >= 10 && i < dec_text(n / 10).len() {
            assert(dec_text(n)[i] == dec_text(n / 10)[i]);
        }
    }
    assert forall|i: int| 0 <= i < hex_text(n, upper).len() implies ('0' <= #[trigger] hex_text(
        n,
        upper,
    )[i] <= '9' || 'a' <= hex_text(n, upper)[i] <= 'z' || 'A' <= hex_text(n, upper)[i] <= 'Z') by {
        if n >= 16 && i < hex_text(n / 16, upper).len() {
            assert(hex_text(n, upper)[i] == hex_text(n / 16, upper)[i]);
        }
    }
}

/// Four hexadecimal digits are digits and letters only.
pub proof fn lemma_hex4_text(n: u16, upper: bool)
    ensures
        alphanumeric(hex4_text(n, upper)),
{
}

} // verus!
