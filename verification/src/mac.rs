//! MAC-address codec: canonical 48-bit values, tolerant text parsing, and
//! style-driven formatting.
//!
//! The canonical form of a MAC address is a 48-bit unsigned integer held in a
//! `u64`, big-endian over its six octets. Parsing strips an optional leading
//! `0x`, silently discards the separators `-`, `.` and `:`, rejects every
//! other non-hexadecimal character, and requires exactly twelve hexadecimal
//! digits (fewer are allowed in zero-extension mode, where the digit string is
//! padded on the right with `0`).

use vstd::prelude::*;

use crate::text::{
    chars_to_string, hex_digit_value, hex_val, hex_value, is_hex_digit, lemma_hex_value_bound,
    lemma_pow16_48, lemma_pow16_monotone, lemma_pow16_pos, pow16, str_chars,
};

verus! {

/// A canonical MAC value fits in 48 bits.
pub open spec fn mac_value_valid(v: u64) -> bool {
    v < 0x1_0000_0000_0000
}

/// Errors from MAC text parsing.
#[derive(Debug, Clone, PartialEq, Eq)]
pub enum ParseMacError {
    /// The text holds a character that is neither a hexadecimal digit nor one
    /// of the separators `-`, `.`, `:`; carries the text and the first such
    /// character.
    InvalidCharacter(String, char),
    /// After discarding separators the text does not hold exactly twelve
    /// hexadecimal digits; carries the text.
    InvalidLength(String),
}

/// The separators that MAC text may carry; they are discarded, not validated.
pub open spec fn is_mac_sep(c: char) -> bool {
    c == ':' || c == '-' || c == '.'
}

/// A character that may appear in MAC text: a hexadecimal digit or a
/// separator.
pub open spec fn is_mac_char(c: char) -> bool {
    is_hex_digit(c) || is_mac_sep(c)
}

/// The text with an optional leading `0x` removed.
pub open spec fn strip_hex_prefix(s: Seq<char>) -> Seq<char> {
    if s.len() >= 2 && s[0] == '0' && s[1] == 'x' {
        s.skip(2)
    } else {
        s
    }
}

/// The hexadecimal digits of `s`, in order, separators discarded.
pub open spec fn mac_digits(s: Seq<char>) -> Seq<char>
    decreases s.len(),
{
    if s.len() == 0 {
        Seq::empty()
    } else if is_hex_digit(s.last()) {
        mac_digits(s.drop_last()).push(s.last())
    } else {
        mac_digits(s.drop_last())
    }
}

/// A digit string padded on the right with `0` up to twelve digits when
/// zero-extension is requested; otherwise unchanged.
pub open spec fn zero_extended(d: Seq<char>, extend: bool) -> Seq<char> {
    if extend && d.len() < 12 {
        d + Seq::new((12 - d.len()) as nat, |i: int| '0')
    } else {
        d
    }
}

/// Whether MAC text parses: every character (after the optional `0x`) is a
/// hexadecimal digit or separator, and exactly twelve digits remain after the
/// optional zero-extension.
pub open spec fn mac_parse_ok(s: Seq<char>, extend: bool) -> bool {
    let t = strip_hex_prefix(s);
    (forall|i: int| 0 <= i < t.len() ==> is_mac_char(t[i])) && zero_extended(
        mac_digits(t),
        extend,
    ).len() == 12
}

/// The canonical value that MAC text denotes when it parses.
pub open spec fn mac_parse_value(s: Seq<char>, extend: bool) -> nat {
    hex_value(zero_extended(mac_digits(strip_hex_prefix(s)), extend))
}

/// The first character of `s` that may not appear in MAC text.
pub open spec fn first_invalid_char(s: Seq<char>) -> char
    decreases s.len(),
{
    if s.len() == 0 {
        ' '
    } else if !is_mac_char(s[0]) {
        s[0]
    } else {
        first_invalid_char(s.skip(1))
    }
}

proof fn lemma_first_invalid(s: Seq<char>, i: int)
    requires
        0 <= i < s.len(),
        forall|j: int| 0 <= j < i ==> is_mac_char(s[j]),
        !is_mac_char(s[i]),
    ensures
        first_invalid_char(s) == s[i],
    decreases i,
{
    if i > 0 {
        assert(forall|j: int| 0 <= j < i - 1 ==> s.skip(1)[j] == s[j + 1]);
        lemma_first_invalid(s.skip(1), i - 1);
    }
}

/// Appending one character extends the digit string by that character when it
/// is a digit and leaves it unchanged otherwise.
proof fn lemma_mac_digits_push(s: Seq<char>, c: char)
    ensures
        mac_digits(s.push(c)) == if is_hex_digit(c) {
            mac_digits(s).push(c)
        } else {
            mac_digits(s)
        },
{
    assert(s.push(c).drop_last() =~= s);
    assert(s.push(c).last() == c);
}

/// Every character of a digit string is a hexadecimal digit.
proof fn lemma_mac_digits_are_digits(s: Seq<char>)
    ensures
        forall|i: int| 0 <= i < mac_digits(s).len() ==> is_hex_digit(#[trigger] mac_digits(s)[i]),
    decreases s.len(),
{
    if s.len() > 0 {
        lemma_mac_digits_are_digits(s.drop_last());
        let d = mac_digits(s.drop_last());
        if is_hex_digit(s.last()) {
            assert(mac_digits(s) == d.push(s.last()));
            assert forall|i: int| 0 <= i < mac_digits(s).len() implies is_hex_digit(
                #[trigger] mac_digits(s)[i],
            ) by {
                if i < d.len() {
                    assert(mac_digits(s)[i] == d[i]);
                } else {
                    assert(mac_digits(s)[i] == s.last());
                }
            }
        } else {
            assert(mac_digits(s) == d);
        }
    }
}

/// Parse MAC text into its canonical 48-bit value; with `extend` set, a short
/// digit string is padded on the right with zeroes before the length check.
pub fn parse_mac_addr_extend(text: &str, extend: bool) -> (r: Result<u64, ParseMacError>)
    ensures
        match r {
            Ok(v) => mac_parse_ok(text@, extend) && v as nat == mac_parse_value(text@, extend)
                && mac_value_valid(v),
            Err(ParseMacError::InvalidCharacter(msg, c)) => {
                let t = strip_hex_prefix(text@);
                &&& msg@ == text@
                &&& exists|i: int| 0 <= i < t.len() && !is_mac_char(t[i])
                &&& c == first_invalid_char(t)
            },
            Err(ParseMacError::InvalidLength(msg)) => {
                let t = strip_hex_prefix(text@);
                &&& msg@ == text@
                &&& forall|i: int| 0 <= i < t.len() ==> is_mac_char(t[i])
                &&& zero_extended(mac_digits(t), extend).len() != 12
            },
        },
        r is Ok <==> mac_parse_ok(text@, extend),
{
    let cs = str_chars(text);
    let n = cs.len();
    let start: usize = if n >= 2 && cs[0] == '0' && cs[1] == 'x' {
        2
    } else {
        0
    };
    let ghost t = strip_hex_prefix(text@);
    proof {
        assert(t =~= cs@.skip(start as int));
    }

    let mut digits: Vec<char> = Vec::new();
    let mut i: usize = start;
    while i < n
        invariant
            start <= i <= n,
            n == cs@.len(),
            cs@ == text@,
            t == strip_hex_prefix(text@),
            t =~= cs@.skip(start as int),
            forall|j: int| start <= j < i ==> is_mac_char(cs@[j]),
            digits@ == mac_digits(cs@.subrange(start as int, i as int)),
            forall|j: int| 0 <= j < digits@.len() ==> is_hex_digit(#[trigger] digits@[j]),
        decreases n - i,
    {
        let c = cs[i];
        proof {
            assert(cs@.subrange(start as int, i + 1 as int) =~= cs@.subrange(
                start as int,
                i as int,
            ).push(c));
            lemma_mac_digits_push(cs@.subrange(start as int, i as int), c);
        }
        if hex_digit_value(c).is_some() {
            digits.push(c);
        } else if !(c == ':' || c == '-' || c == '.') {
            proof {
                assert(t[i - start] == cs@[i as int]);
                lemma_first_invalid(t, i - start);
            }
            return Err(ParseMacError::InvalidCharacter(text.to_owned(), c));
        }
        i = i + 1;
    }
    proof {
        assert(cs@.subrange(start as int, n as int) =~= t);
        assert(forall|j: int| 0 <= j < t.len() ==> is_mac_char(t[j]));
    }

    let ghost e = zero_extended(mac_digits(t), extend);
    if extend {
        while digits.len() < 12
            invariant
                e == zero_extended(mac_digits(t), extend),
                mac_digits(t).len() <= digits@.len(),
                digits@.len() <= 12 || digits@ == mac_digits(t),
                mac_digits(t) == digits@.subrange(0, mac_digits(t).len() as int),
                forall|j: int|
                    mac_digits(t).len() <= j < digits@.len() ==> #[trigger] digits@[j] == '0',
                forall|j: int| 0 <= j < digits@.len() ==> is_hex_digit(#[trigger] digits@[j]),
            decreases 12 - digits.len(),
        {
            digits.push('0');
        }
        proof {
            if mac_digits(t).len() < 12 {
                assert(digits@ =~= e);
            } else {
                assert(digits@ =~= mac_digits(t));
                assert(digits@ == e);
            }
        }
    }
    proof {
        assert(digits@ == e);
    }

    if digits.len() != 12 {
        return Err(ParseMacError::InvalidLength(text.to_owned()));
    }

    let mut acc: u64 = 0;
    let mut k: usize = 0;
    while k < 12
        invariant
            k <= 12,
            digits@.len() == 12,
            digits@ == e,
            forall|j: int| 0 <= j < digits@.len() ==> is_hex_digit(#[trigger] digits@[j]),
            acc as nat == hex_value(digits@.subrange(0, k as int)),
        decreases 12 - k,
    {
        let d = digits[k];
        let dv = match hex_digit_value(d) {
            Some(b) => b,
            None => {
                proof {
                    assert(false);
                }
                0
            },
        };
        proof {
            lemma_hex_value_bound(digits@.subrange(0, k as int));
            lemma_pow16_monotone(k as nat, 11);
            lemma_pow16_48();
            assert(pow16(11) * 16 == pow16(12));
            assert(digits@.subrange(0, k + 1 as int).drop_last() =~= digits@.subrange(
                0,
                k as int,
            ));
        }
        acc = acc * 16 + dv as u64;
        k = k + 1;
    }
    proof {
        assert(digits@.subrange(0, 12) =~= digits@);
        lemma_hex_value_bound(digits@);
        lemma_pow16_48();
    }
    Ok(acc)
}

/// Parse MAC text into its canonical 48-bit value, requiring exactly twelve
/// hexadecimal digits.
pub fn parse_mac_addr(text: &str) -> (r: Result<u64, ParseMacError>)
    ensures
        match r {
            Ok(v) => mac_parse_ok(text@, false) && v as nat == mac_parse_value(text@, false)
                && mac_value_valid(v),
            Err(ParseMacError::InvalidCharacter(msg, c)) => {
                let t = strip_hex_prefix(text@);
                &&& msg@ == text@
                &&& exists|i: int| 0 <= i < t.len() && !is_mac_char(t[i])
                &&& c == first_invalid_char(t)
            },
            Err(ParseMacError::InvalidLength(msg)) => {
                let t = strip_hex_prefix(text@);
                &&& msg@ == text@
                &&& forall|i: int| 0 <= i < t.len() ==> is_mac_char(t[i])
                &&& mac_digits(t).len() != 12
            },
        },
        r is Ok <==> mac_parse_ok(text@, false),
{
    parse_mac_addr_extend(text, false)
}

/// The seven output conventions for MAC text.
#[derive(Clone, Copy, Debug)]
pub enum MacStyle {
    /// Twelve bare digits: `aabbccddeeff`.
    Plain,
    /// Octet pairs joined by `-`: `aa-bb-cc-dd-ee-ff`.
    Dashed,
    /// Octet pairs joined by `:`: `aa:bb:cc:dd:ee:ff`.
    Colon,
    /// Four-digit groups joined by `.`: `aabb.ccdd.eeff`.
    Dots,
    /// A hexadecimal literal: `0xaabbccddeeff`.
    Prefixed,
    /// The EUI-64 interface identifier: `a8bb:ccff:fedd:eeff`.
    InterfaceId,
    /// The IPv6 link-local address of the interface identifier:
    /// `fe80::a8bb:ccff:fedd:eeff`.
    LinkLocal,
}

/// The `i`-th hexadecimal digit (big-endian, `0 <= i < 12`) of a 48-bit value.
pub open spec fn nibble(v: u64, i: int) -> u64 {
    ((v as nat / pow16((11 - i) as nat)) % 16) as u64
}

/// The character of one hexadecimal digit in the chosen case.
pub open spec fn hex_char(n: u64, upper: bool) -> char {
    if n == 0 { '0' } else if n == 1 { '1' } else if n == 2 { '2' } else if n == 3 { '3' }
    else if n == 4 { '4' } else if n == 5 { '5' } else if n == 6 { '6' } else if n == 7 { '7' }
    else if n == 8 { '8' } else if n == 9 { '9' }
    else if n == 10 { if upper { 'A' } else { 'a' } }
    else if n == 11 { if upper { 'B' } else { 'b' } }
    else if n == 12 { if upper { 'C' } else { 'c' } }
    else if n == 13 { if upper { 'D' } else { 'd' } }
    else if n == 14 { if upper { 'E' } else { 'e' } }
    else { if upper { 'F' } else { 'f' } }
}

/// The twelve digit characters of a 48-bit value, high nibble first.
pub open spec fn mac_nibble_chars(v: u64, upper: bool) -> Seq<char> {
    Seq::new(12, |i: int| hex_char(nibble(v, i), upper))
}

/// The universal/local bit of the EUI-64 conversion rule: the second-lowest
/// bit of the leading octet, toggled.
pub open spec fn spec_flip_ul(v: u64) -> u64 {
    if (v / 0x200_0000_0000) % 2 == 1 {
        (v - 0x200_0000_0000) as u64
    } else {
        (v + 0x200_0000_0000) as u64
    }
}

/// The sixteen digit characters of the EUI-64 form: the six leading digits of
/// the flipped value, the literal digits `fffe`, then the six trailing ones.
pub open spec fn eui64_digits(v: u64, upper: bool) -> Seq<char> {
    let d = mac_nibble_chars(spec_flip_ul(v), upper);
    let f = if upper { 'F' } else { 'f' };
    let e = if upper { 'E' } else { 'e' };
    d.take(6) + seq![f, f, f, e] + d.skip(6)
}

/// Digit characters joined into groups of `g`, separated by `sep`.
pub open spec fn grouped(d: Seq<char>, sep: char, g: int) -> Seq<char>
    decreases d.len(),
{
    if d.len() <= g || g < 1 {
        d
    } else {
        d.take(g) + seq![sep] + grouped(d.skip(g), sep, g)
    }
}

/// The exact text that formatting produces, per style.
pub open spec fn format_chars(style: MacStyle, v: u64, upper: bool) -> Seq<char> {
    let d = mac_nibble_chars(v, upper);
    match style {
        MacStyle::Plain => d,
        MacStyle::Dashed => grouped(d, '-', 2),
        MacStyle::Colon => grouped(d, ':', 2),
        MacStyle::Dots => grouped(d, '.', 4),
        MacStyle::Prefixed => seq!['0', 'x'] + d,
        MacStyle::InterfaceId => grouped(eui64_digits(v, upper), ':', 4),
        MacStyle::LinkLocal => {
            let head = if upper {
                seq!['F', 'E', '8', '0', ':', ':']
            } else {
                seq!['f', 'e', '8', '0', ':', ':']
            };
            head + grouped(eui64_digits(v, upper), ':', 4)
        },
    }
}

/// The fixed output length of each style.
pub open spec fn style_length(style: MacStyle) -> int {
    match style {
        MacStyle::Plain => 12,
        MacStyle::Dashed => 17,
        MacStyle::Colon => 17,
        MacStyle::Dots => 14,
        MacStyle::Prefixed => 14,
        MacStyle::InterfaceId => 19,
        MacStyle::LinkLocal => 25,
    }
}

/// Exec mirror of [`hex_char`].
fn hex_digit_char(n: u64, upper: bool) -> (c: char)
    requires
        n < 16,
    ensures
        c == hex_char(n, upper),
{
    if n == 0 { '0' } else if n == 1 { '1' } else if n == 2 { '2' } else if n == 3 { '3' }
    else if n == 4 { '4' } else if n == 5 { '5' } else if n == 6 { '6' } else if n == 7 { '7' }
    else if n == 8 { '8' } else if n == 9 { '9' }
    else if n == 10 { if upper { 'A' } else { 'a' } }
    else if n == 11 { if upper { 'B' } else { 'b' } }
    else if n == 12 { if upper { 'C' } else { 'c' } }
    else if n == 13 { if upper { 'D' } else { 'd' } }
    else if n == 14 { if upper { 'E' } else { 'e' } }
    else { if upper { 'F' } else { 'f' } }
}

/// Flip the universal/local bit, as the EUI-64 conversion rule asks.
fn flip_ul(v: u64) -> (r: u64)
    requires
        mac_value_valid(v),
    ensures
        r == spec_flip_ul(v),
        mac_value_valid(r),
{
    proof {
        assert(v < 0x1_0000_0000_0000 && (v as nat / 0x200_0000_0000) % 2 == 0 ==> v
            + 0x200_0000_0000 < 0x1_0000_0000_0000) by (bit_vector);
    }
    if (v / 0x200_0000_0000) % 2 == 1 {
        v - 0x200_0000_0000
    } else {
        v + 0x200_0000_0000
    }
}

/// The twelve digit characters of `v`, high nibble first.
pub(crate) fn mac_digit_chars(v: u64, upper: bool) -> (d: Vec<char>)
    requires
        mac_value_valid(v),
    ensures
        d@ == mac_nibble_chars(v, upper),
{
    let mut d: Vec<char> = Vec::new();
    let mut p: u64 = 0x1000_0000_0000;
    let mut i: usize = 0;
    proof {
        assert(pow16(11) == 0x1000_0000_0000) by {
            lemma_pow16_48();
        }
    }
    while i < 12
        invariant
            i <= 12,
            mac_value_valid(v),
            i < 12 ==> p as nat == pow16((11 - i) as nat),
            d@.len() == i,
            forall|j: int| 0 <= j < i ==> d@[j] == mac_nibble_chars(v, upper)[j],
        decreases 12 - i,
    {
        proof {
            lemma_pow16_pos((11 - i) as nat);
        }
        let nb = (v / p) % 16;
        d.push(hex_digit_char(nb, upper));
        proof {
            assert(nb == nibble(v, i as int));
            if i < 11 {
                assert(pow16((11 - i) as nat) == 16 * pow16((10 - i) as nat));
                vstd::arithmetic::div_mod::lemma_div_multiples_vanish(
                    pow16((10 - i) as nat) as int,
                    16,
                );
                assert((16 * pow16((10 - i) as nat)) as int / 16 == pow16((10 - i) as nat));
            }
        }
        p = p / 16;
        i = i + 1;
    }
    proof {
        assert(d@ =~= mac_nibble_chars(v, upper));
    }
    d
}

/// Append every character of `src` to `dst`.
fn push_all(dst: &mut Vec<char>, src: &Vec<char>)
    ensures
        final(dst)@ == old(dst)@ + src@,
{
    let mut i: usize = 0;
    while i < src.len()
        invariant
            i <= src@.len(),
            dst@ == old(dst)@ + src@.subrange(0, i as int),
        decreases src@.len() - i,
    {
        dst.push(src[i]);
        i = i + 1;
        proof {
            assert(old(dst)@ + src@.subrange(0, i as int) =~= (old(dst)@ + src@.subrange(
                0,
                i - 1,
            )).push(src@[i - 1]));
        }
    }
    proof {
        assert(src@.subrange(0, src@.len() as int) =~= src@);
    }
}

/// Join the characters of `d` into groups of `g`, separated by `sep`.
pub(crate) fn group_join(d: &Vec<char>, sep: char, g: usize) -> (r: Vec<char>)
    requires
        1 <= g,
    ensures
        r@ == grouped(d@, sep, g as int),
{
    let mut r: Vec<char> = Vec::new();
    let mut i: usize = 0;
    proof {
        assert(d@.skip(0) =~= d@);
        assert(r@ + grouped(d@, sep, g as int) =~= grouped(d@, sep, g as int));
    }
    while i < d.len()
        invariant
            1 <= g,
            i <= d@.len(),
            grouped(d@, sep, g as int) == r@ + grouped(d@.skip(i as int), sep, g as int),
        decreases d@.len() - i,
    {
        let ghost r_at_entry = r@;
        let last = d.len() - i <= g;
        let end = if last {
            d.len()
        } else {
            i + g
        };
        let ghost take = end - i;
        let mut k: usize = i;
        while k < end
            invariant
                i <= k <= end,
                end <= d@.len(),
                r@ == r_at_entry + d@.subrange(i as int, k as int),
            decreases end - k,
        {
            r.push(d[k]);
            k = k + 1;
            proof {
                assert(r_at_entry + d@.subrange(i as int, k as int) =~= (r_at_entry + d@.subrange(
                    i as int,
                    k - 1,
                )).push(d@[k - 1]));
            }
        }
        if last {
            proof {
                assert(grouped(d@.skip(i as int), sep, g as int) == d@.skip(i as int));
                assert(d@.subrange(i as int, i + take as int) =~= d@.skip(i as int));
                assert(d@.skip((i + take) as int) =~= Seq::<char>::empty());
                assert(grouped(Seq::<char>::empty(), sep, g as int) == Seq::<char>::empty());
                assert(r@ + grouped(d@.skip((i + take) as int), sep, g as int) =~= r_at_entry
                    + grouped(d@.skip(i as int), sep, g as int));
            }
        } else {
            r.push(sep);
            proof {
                let tail = d@.skip(i as int);
                assert(grouped(tail, sep, g as int) == tail.take(g as int) + seq![sep] + grouped(
                    tail.skip(g as int),
                    sep,
                    g as int,
                ));
                assert(d@.subrange(i as int, i + take as int) =~= tail.take(g as int));
                assert(tail.skip(g as int) =~= d@.skip((i + take) as int));
                assert(r@ =~= r_at_entry + tail.take(g as int) + seq![sep]);
                assert(r@ + grouped(d@.skip((i + take) as int), sep, g as int) =~= r_at_entry
                    + grouped(tail, sep, g as int));
            }
        }
        i = end;
    }
    proof {
        assert(d@.skip(d@.len() as int) =~= Seq::<char>::empty());
        assert(grouped(Seq::<char>::empty(), sep, g as int) == Seq::<char>::empty());
        assert(r@ =~= r@ + Seq::<char>::empty());
    }
    r
}

/// The sixteen digit characters of the EUI-64 form of `v`.
fn eui64_digit_chars(v: u64, upper: bool) -> (r: Vec<char>)
    requires
        mac_value_valid(v),
    ensures
        r@ == eui64_digits(v, upper),
{
    let f = flip_ul(v);
    let d = mac_digit_chars(f, upper);
    let mut r: Vec<char> = Vec::new();
    let mut i: usize = 0;
    while i < 6
        invariant
            d@.len() == 12,
            i <= 6,
            r@ == d@.subrange(0, i as int),
        decreases 6 - i,
    {
        r.push(d[i]);
        i = i + 1;
        proof {
            assert(d@.subrange(0, i as int) =~= d@.subrange(0, i - 1).push(d@[i - 1]));
        }
    }
    let fc = if upper { 'F' } else { 'f' };
    let ec = if upper { 'E' } else { 'e' };
    r.push(fc);
    r.push(fc);
    r.push(fc);
    r.push(ec);
    let mut k: usize = 6;
    while k < 12
        invariant
            d@.len() == 12,
            6 <= k <= 12,
            r@ == d@.subrange(0, 6) + seq![
                if upper { 'F' } else { 'f' },
                if upper { 'F' } else { 'f' },
                if upper { 'F' } else { 'f' },
                if upper { 'E' } else { 'e' },
            ] + d@.subrange(6, k as int),
        decreases 12 - k,
    {
        r.push(d[k]);
        k = k + 1;
        proof {
            assert(d@.subrange(6, k as int) =~= d@.subrange(6, k - 1).push(d@[k - 1]));
            assert(r@ =~= d@.subrange(0, 6) + seq![
                if upper { 'F' } else { 'f' },
                if upper { 'F' } else { 'f' },
                if upper { 'F' } else { 'f' },
                if upper { 'E' } else { 'e' },
            ] + d@.subrange(6, k as int));
        }
    }
    proof {
        assert(d@.subrange(0, 6) =~= d@.take(6));
        assert(d@.subrange(6, 12) =~= d@.skip(6));
        assert(r@ =~= eui64_digits(v, upper));
    }
    r
}

/// The formatted characters of `mac` in the given style and case.
fn style_chars(style: &MacStyle, v: u64, upper: bool) -> (r: Vec<char>)
    requires
        mac_value_valid(v),
    ensures
        r@ == format_chars(*style, v, upper),
{
    match style {
        MacStyle::Plain => mac_digit_chars(v, upper),
        MacStyle::Dashed => {
            let d = mac_digit_chars(v, upper);
            group_join(&d, '-', 2)
        },
        MacStyle::Colon => {
            let d = mac_digit_chars(v, upper);
            group_join(&d, ':', 2)
        },
        MacStyle::Dots => {
            let d = mac_digit_chars(v, upper);
            group_join(&d, '.', 4)
        },
        MacStyle::Prefixed => {
            let d = mac_digit_chars(v, upper);
            let mut r: Vec<char> = Vec::new();
            r.push('0');
            r.push('x');
            push_all(&mut r, &d);
            proof {
                assert(r@ =~= seq!['0', 'x'] + d@);
            }
            r
        },
        MacStyle::InterfaceId => {
            let d = eui64_digit_chars(v, upper);
            group_join(&d, ':', 4)
        },
        MacStyle::LinkLocal => {
            let d = eui64_digit_chars(v, upper);
            let body = group_join(&d, ':', 4);
            let mut r: Vec<char> = Vec::new();
            if upper {
                r.push('F');
                r.push('E');
            } else {
                r.push('f');
                r.push('e');
            }
            r.push('8');
            r.push('0');
            r.push(':');
            r.push(':');
            push_all(&mut r, &body);
            proof {
                if upper {
                    assert(r@ =~= seq!['F', 'E', '8', '0', ':', ':'] + body@);
                } else {
                    assert(r@ =~= seq!['f', 'e', '8', '0', ':', ':'] + body@);
                }
            }
            r
        },
    }
}

impl MacStyle {
    /// The length of a MAC address when serialized into a string.
    pub fn length(&self) -> (r: usize)
        ensures
            r == style_length(*self),
    {
        match self {
            MacStyle::Plain => 12,
            MacStyle::Dashed => 17,
            MacStyle::Colon => 17,
            MacStyle::Dots => 14,
            MacStyle::Prefixed => 14,
            MacStyle::InterfaceId => 19,
            MacStyle::LinkLocal => 25,
        }
    }

    /// Formats a canonical MAC value into text of this style.
    pub fn format(&self, mac: u64, uppercase: bool) -> (r: String)
        requires
            mac_value_valid(mac),
        ensures
            r@ == format_chars(*self, mac, uppercase),
    {
        let cs = style_chars(self, mac, uppercase);
        chars_to_string(&cs)
    }
}

/// Formats a canonical MAC value as the plain, uppercase digit string.
pub fn format_mac_dashed(mac: u64) -> (r: String)
    requires
        mac_value_valid(mac),
    ensures
        r@ == format_chars(MacStyle::Plain, mac, true),
{
    MacStyle::Plain.format(mac, true)
}

/// A digit character carries its own value, is no separator, and is never `x`.
proof fn lemma_hex_char_facts(n: u64, upper: bool)
    requires
        n < 16,
    ensures
        is_hex_digit(hex_char(n, upper)),
        hex_val(hex_char(n, upper)) == n,
        !is_mac_sep(hex_char(n, upper)),
        hex_char(n, upper) != 'x',
        (hex_char(n, upper) as u32) < 128,
{
}

/// Every digit position of a 48-bit value holds a value below sixteen.
proof fn lemma_nibble_bound(v: u64, i: int)
    ensures
        nibble(v, i) < 16,
{
}

/// The twelve digit characters of a valid value are hexadecimal digits, no
/// separators, never `x`, and plain ASCII.
proof fn lemma_mac_nibble_chars_facts(v: u64, upper: bool)
    ensures
        forall|i: int|
            0 <= i < 12 ==> {
                let c = #[trigger] mac_nibble_chars(v, upper)[i];
                is_hex_digit(c) && !is_mac_sep(c) && c != 'x' && (c as u32) < 128
            },
{
    assert forall|i: int| 0 <= i < 12 implies {
        let c = #[trigger] mac_nibble_chars(v, upper)[i];
        is_hex_digit(c) && !is_mac_sep(c) && c != 'x' && (c as u32) < 128
    } by {
        lemma_nibble_bound(v, i);
        lemma_hex_char_facts(nibble(v, i), upper);
    }
}

/// Grouping keeps the characters of `d` plus the separator, nothing else.
proof fn lemma_grouped_chars(d: Seq<char>, sep: char, g: int)
    requires
        1 <= g,
    ensures
        forall|i: int|
            0 <= i < grouped(d, sep, g).len() ==> (#[trigger] grouped(d, sep, g)[i] == sep
                || exists|j: int| 0 <= j < d.len() && d[j] == grouped(d, sep, g)[i]),
    decreases d.len(),
{
    if d.len() > g {
        lemma_grouped_chars(d.skip(g), sep, g);
        let w = grouped(d, sep, g);
        let rest = grouped(d.skip(g), sep, g);
        assert forall|i: int| 0 <= i < w.len() implies (#[trigger] w[i] == sep || exists|j: int|
            0 <= j < d.len() && d[j] == w[i]) by {
            if i < g {
                assert(w[i] == d[i]);
            } else if i == g {
                assert(w[i] == sep);
            } else {
                assert(w[i] == rest[i - g - 1]);
                if w[i] != sep {
                    let j = choose|j: int| 0 <= j < d.skip(g).len() && d.skip(g)[j] == w[i];
                    assert(d[j + g] == w[i]);
                }
            }
        }
    }
}

/// A string of hexadecimal digits filters to itself.
proof fn lemma_mac_digits_of_digits(s: Seq<char>)
    requires
        forall|i: int| 0 <= i < s.len() ==> is_hex_digit(#[trigger] s[i]),
    ensures
        mac_digits(s) == s,
    decreases s.len(),
{
    if s.len() > 0 {
        lemma_mac_digits_of_digits(s.drop_last());
        assert(mac_digits(s) =~= s);
    } else {
        assert(mac_digits(s) =~= s);
    }
}

/// Digit filtering distributes over concatenation.
proof fn lemma_mac_digits_add(a: Seq<char>, b: Seq<char>)
    ensures
        mac_digits(a + b) == mac_digits(a) + mac_digits(b),
    decreases b.len(),
{
    if b.len() == 0 {
        assert(a + b =~= a);
        assert(mac_digits(a) + mac_digits(b) =~= mac_digits(a));
    } else {
        lemma_mac_digits_add(a, b.drop_last());
        assert((a + b).drop_last() =~= a + b.drop_last());
        assert((a + b).last() == b.last());
        if is_hex_digit(b.last()) {
            assert(mac_digits(a) + mac_digits(b) =~= (mac_digits(a) + mac_digits(
                b.drop_last(),
            )).push(b.last()));
        }
    }
}

/// Grouping digit characters with a separator filters back to the digits.
proof fn lemma_mac_digits_grouped(d: Seq<char>, sep: char, g: int)
    requires
        1 <= g,
        is_mac_sep(sep),
        !is_hex_digit(sep),
        forall|i: int| 0 <= i < d.len() ==> is_hex_digit(#[trigger] d[i]),
    ensures
        mac_digits(grouped(d, sep, g)) == d,
    decreases d.len(),
{
    if d.len() <= g {
        lemma_mac_digits_of_digits(d);
    } else {
        lemma_mac_digits_grouped(d.skip(g), sep, g);
        lemma_mac_digits_add(d.take(g) + seq![sep], grouped(d.skip(g), sep, g));
        lemma_mac_digits_add(d.take(g), seq![sep]);
        assert(seq![sep].drop_last() =~= Seq::<char>::empty());
        assert(mac_digits(Seq::<char>::empty()) =~= Seq::<char>::empty());
        assert(mac_digits(seq![sep]) =~= Seq::<char>::empty());
        lemma_mac_digits_of_digits(d.take(g));
        assert(grouped(d, sep, g) == (d.take(g) + seq![sep]) + grouped(d.skip(g), sep, g));
        assert(mac_digits(grouped(d, sep, g)) =~= d.take(g) + d.skip(g));
        assert(d.take(g) + d.skip(g) =~= d);
    }
}

/// The digit characters of a valid value read back as that value.
proof fn lemma_nibbles_value_prefix(v: u64, upper: bool, k: int)
    requires
        mac_value_valid(v),
        0 <= k <= 12,
    ensures
        hex_value(mac_nibble_chars(v, upper).take(k)) == v as nat / pow16((12 - k) as nat),
    decreases k,
{
    let d = mac_nibble_chars(v, upper);
    if k == 0 {
        assert(d.take(0) =~= Seq::<char>::empty());
        lemma_pow16_48();
        assert(v as nat / pow16(12) == 0) by {
            vstd::arithmetic::div_mod::lemma_basic_div(v as int, pow16(12) as int);
        }
    } else {
        lemma_nibbles_value_prefix(v, upper, k - 1);
        assert(d.take(k).drop_last() =~= d.take(k - 1));
        assert(d.take(k).last() == d[k - 1]);
        lemma_nibble_bound(v, k - 1);
        lemma_hex_char_facts(nibble(v, k - 1), upper);
        assert(hex_val(d[k - 1]) == nibble(v, k - 1));
        let p = pow16((12 - k) as nat);
        lemma_pow16_pos((12 - k) as nat);
        assert(pow16((13 - k) as nat) == 16 * p);
        let a = v as nat / p;
        assert(v as nat / pow16((13 - k) as nat) == a / 16) by {
            vstd::arithmetic::div_mod::lemma_div_denominator(v as int, p as int, 16);
        }
        assert(nibble(v, k - 1) as nat == a % 16);
        assert((a / 16) * 16 + a % 16 == a) by {
            vstd::arithmetic::div_mod::lemma_fundamental_div_mod(a as int, 16);
        }
        assert(hex_value(d.take(k)) == (a / 16) * 16 + a % 16);
    }
}

/// A valid 48-bit value is exactly the value of its twelve digit characters.
pub proof fn lemma_nibbles_value(v: u64, upper: bool)
    requires
        mac_value_valid(v),
    ensures
        hex_value(mac_nibble_chars(v, upper)) == v,
{
    lemma_nibbles_value_prefix(v, upper, 12);
    assert(mac_nibble_chars(v, upper).take(12) =~= mac_nibble_chars(v, upper));
    assert(pow16(0) == 1);
    assert(v as nat / 1 == v as nat) by {
        vstd::arithmetic::div_mod::lemma_div_basics(v as int);
    }
}

/// Round trip: formatting a valid MAC value in any non-EUI style, in either
/// case, and parsing the result recovers the value exactly.
pub proof fn lemma_parse_format_roundtrip(style: MacStyle, v: u64, upper: bool)
    requires
        mac_value_valid(v),
        !(style is InterfaceId),
        !(style is LinkLocal),
    ensures
        mac_parse_ok(format_chars(style, v, upper), false),
        mac_parse_value(format_chars(style, v, upper), false) == v,
{
    let s = format_chars(style, v, upper);
    let d = mac_nibble_chars(v, upper);
    lemma_mac_nibble_chars_facts(v, upper);
    lemma_nibbles_value(v, upper);
    match style {
        MacStyle::Plain => {
            assert(s[1] == d[1]);
            assert(strip_hex_prefix(s) == s);
            lemma_mac_digits_of_digits(s);
        },
        MacStyle::Dashed => {
            lemma_roundtrip_grouped(v, upper, '-', 2);
        },
        MacStyle::Colon => {
            lemma_roundtrip_grouped(v, upper, ':', 2);
        },
        MacStyle::Dots => {
            lemma_roundtrip_grouped(v, upper, '.', 4);
        },
        MacStyle::Prefixed => {
            assert(s[0] == '0' && s[1] == 'x');
            assert(strip_hex_prefix(s) =~= d);
            lemma_mac_digits_of_digits(d);
        },
        _ => {},
    }
}

/// Shared step of the round-trip law for the grouped styles.
proof fn lemma_roundtrip_grouped(v: u64, upper: bool, sep: char, g: int)
    requires
        mac_value_valid(v),
        2 <= g,
        is_mac_sep(sep),
    ensures
        ({
            let s = grouped(mac_nibble_chars(v, upper), sep, g);
            &&& strip_hex_prefix(s) == s
            &&& forall|i: int| 0 <= i < s.len() ==> is_mac_char(#[trigger] s[i])
            &&& mac_digits(s) == mac_nibble_chars(v, upper)
        }),
{
    let d = mac_nibble_chars(v, upper);
    let s = grouped(d, sep, g);
    lemma_mac_nibble_chars_facts(v, upper);
    lemma_grouped_chars(d, sep, g);
    lemma_mac_digits_grouped(d, sep, g);
    assert(s[1] == d[1]);
    assert(d[1] != 'x');
    assert(strip_hex_prefix(s) == s);
    assert forall|i: int| 0 <= i < s.len() implies is_mac_char(#[trigger] s[i]) by {
        if s[i] != sep {
            let j = choose|j: int| 0 <= j < d.len() && d[j] == s[i];
            assert(is_hex_digit(d[j]));
        }
    }
}

/// The 25-byte template of each style: `#` marks a digit slot, `@` is unused
/// padding past the style's output length.
pub open spec fn style_base(style: MacStyle) -> Seq<u8> {
    match style {
        MacStyle::Plain => seq![35u8, 35u8, 35u8, 35u8, 35u8, 35u8, 35u8, 35u8, 35u8, 35u8, 35u8, 35u8, 64u8, 64u8, 64u8, 64u8, 64u8, 64u8, 64u8, 64u8, 64u8, 64u8, 64u8, 64u8, 64u8],
        MacStyle::Dashed => seq![35u8, 35u8, 45u8, 35u8, 35u8, 45u8, 35u8, 35u8, 45u8, 35u8, 35u8, 45u8, 35u8, 35u8, 45u8, 35u8, 35u8, 64u8, 64u8, 64u8, 64u8, 64u8, 64u8, 64u8, 64u8],
        MacStyle::Colon => seq![35u8, 35u8, 58u8, 35u8, 35u8, 58u8, 35u8, 35u8, 58u8, 35u8, 35u8, 58u8, 35u8, 35u8, 58u8, 35u8, 35u8, 64u8, 64u8, 64u8, 64u8, 64u8, 64u8, 64u8, 64u8],
        MacStyle::Dots => seq![35u8, 35u8, 35u8, 35u8, 46u8, 35u8, 35u8, 35u8, 35u8, 46u8, 35u8, 35u8, 35u8, 35u8, 64u8, 64u8, 64u8, 64u8, 64u8, 64u8, 64u8, 64u8, 64u8, 64u8, 64u8],
        MacStyle::Prefixed => seq![48u8, 120u8, 35u8, 35u8, 35u8, 35u8, 35u8, 35u8, 35u8, 35u8, 35u8, 35u8, 35u8, 35u8, 64u8, 64u8, 64u8, 64u8, 64u8, 64u8, 64u8, 64u8, 64u8, 64u8, 64u8],
        MacStyle::InterfaceId => seq![35u8, 35u8, 35u8, 35u8, 58u8, 35u8, 35u8, 102u8, 102u8, 58u8, 102u8, 101u8, 35u8, 35u8, 58u8, 35u8, 35u8, 35u8, 35u8, 64u8, 64u8, 64u8, 64u8, 64u8, 64u8],
        MacStyle::LinkLocal => seq![102u8, 101u8, 56u8, 48u8, 58u8, 58u8, 35u8, 35u8, 35u8, 35u8, 58u8, 35u8, 35u8, 102u8, 102u8, 58u8, 102u8, 101u8, 35u8, 35u8, 58u8, 35u8, 35u8, 35u8, 35u8],
    }
}

impl MacStyle {
    /// A template string of a MAC address. Only the first `MacStyle::length()`
    /// bytes are meaningful, the rest is padding.
    pub fn base(&self) -> (r: [u8; 25])
        ensures
            r@ == style_base(*self),
    {
        match self {
            MacStyle::Plain => {
                let a: [u8; 25] = [35u8, 35u8, 35u8, 35u8, 35u8, 35u8, 35u8, 35u8, 35u8, 35u8, 35u8, 35u8, 64u8, 64u8, 64u8, 64u8, 64u8, 64u8, 64u8, 64u8, 64u8, 64u8, 64u8, 64u8, 64u8];
                proof {
                    assert(a@ =~= style_base(MacStyle::Plain));
                }
                a
            },
            MacStyle::Dashed => {
                let a: [u8; 25] = [35u8, 35u8, 45u8, 35u8, 35u8, 45u8, 35u8, 35u8, 45u8, 35u8, 35u8, 45u8, 35u8, 35u8, 45u8, 35u8, 35u8, 64u8, 64u8, 64u8, 64u8, 64u8, 64u8, 64u8, 64u8];
                proof {
                    assert(a@ =~= style_base(MacStyle::Dashed));
                }
                a
            },
            MacStyle::Colon => {
                let a: [u8; 25] = [35u8, 35u8, 58u8, 35u8, 35u8, 58u8, 35u8, 35u8, 58u8, 35u8, 35u8, 58u8, 35u8, 35u8, 58u8, 35u8, 35u8, 64u8, 64u8, 64u8, 64u8, 64u8, 64u8, 64u8, 64u8];
                proof {
                    assert(a@ =~= style_base(MacStyle::Colon));
                }
                a
            },
            MacStyle::Dots => {
                let a: [u8; 25] = [35u8, 35u8, 35u8, 35u8, 46u8, 35u8, 35u8, 35u8, 35u8, 46u8, 35u8, 35u8, 35u8, 35u8, 64u8, 64u8, 64u8, 64u8, 64u8, 64u8, 64u8, 64u8, 64u8, 64u8, 64u8];
                proof {
                    assert(a@ =~= style_base(MacStyle::Dots));
                }
                a
            },
            MacStyle::Prefixed => {
                let a: [u8; 25] = [48u8, 120u8, 35u8, 35u8, 35u8, 35u8, 35u8, 35u8, 35u8, 35u8, 35u8, 35u8, 35u8, 35u8, 64u8, 64u8, 64u8, 64u8, 64u8, 64u8, 64u8, 64u8, 64u8, 64u8, 64u8];
                proof {
                    assert(a@ =~= style_base(MacStyle::Prefixed));
                }
                a
            },
            MacStyle::InterfaceId => {
                let a: [u8; 25] = [35u8, 35u8, 35u8, 35u8, 58u8, 35u8, 35u8, 102u8, 102u8, 58u8, 102u8, 101u8, 35u8, 35u8, 58u8, 35u8, 35u8, 35u8, 35u8, 64u8, 64u8, 64u8, 64u8, 64u8, 64u8];
                proof {
                    assert(a@ =~= style_base(MacStyle::InterfaceId));
                }
                a
            },
            MacStyle::LinkLocal => {
                let a: [u8; 25] = [102u8, 101u8, 56u8, 48u8, 58u8, 58u8, 35u8, 35u8, 35u8, 35u8, 58u8, 35u8, 35u8, 102u8, 102u8, 58u8, 102u8, 101u8, 35u8, 35u8, 58u8, 35u8, 35u8, 35u8, 35u8];
                proof {
                    assert(a@ =~= style_base(MacStyle::LinkLocal));
                }
                a
            },
        }
    }
}


/// Flipping the universal/local bit twice restores the value, and the flip
/// keeps the value within 48 bits.
pub proof fn lemma_flip_involutive(v: u64)
    by (bit_vector)
    requires
        v < 0x1_0000_0000_0000,
    ensures
        spec_flip_ul(spec_flip_ul(v)) == v,
        spec_flip_ul(v) < 0x1_0000_0000_0000,
{
}

/// Every digit of the EUI-64 digit string is a hexadecimal digit, never `x`,
/// and plain ASCII.
proof fn lemma_eui64_digits_facts(v: u64, upper: bool)
    requires
        mac_value_valid(v),
    ensures
        eui64_digits(v, upper).len() == 16,
        forall|i: int|
            0 <= i < 16 ==> {
                let c = #[trigger] eui64_digits(v, upper)[i];
                is_hex_digit(c) && !is_mac_sep(c) && c != 'x' && (c as u32) < 128
            },
{
    lemma_flip_involutive(v);
    lemma_mac_nibble_chars_facts(spec_flip_ul(v), upper);
    let d = mac_nibble_chars(spec_flip_ul(v), upper);
    let e = eui64_digits(v, upper);
    assert forall|i: int| 0 <= i < 16 implies {
        let c = #[trigger] e[i];
        is_hex_digit(c) && !is_mac_sep(c) && c != 'x' && (c as u32) < 128
    } by {
        if i < 6 {
            assert(e[i] == d[i]);
        } else if i < 10 {
            assert(e[i] == if upper { seq!['F', 'F', 'F', 'E'][i - 6] } else { seq!['f', 'f', 'f', 'e'][i - 6] });
        } else {
            assert(e[i] == d[i - 4]);
        }
    }
}

/// What the EUI-64 styles emit, once separators are discarded: the sixteen
/// EUI-64 digits, with four leading `fe80` digits in the link-local style.
pub proof fn lemma_eui_format_digits(style: MacStyle, v: u64, upper: bool)
    requires
        mac_value_valid(v),
        style is InterfaceId || style is LinkLocal,
    ensures
        mac_digits(strip_hex_prefix(format_chars(style, v, upper))) == if style is InterfaceId {
            eui64_digits(v, upper)
        } else {
            (if upper {
                seq!['F', 'E', '8', '0']
            } else {
                seq!['f', 'e', '8', '0']
            }) + eui64_digits(v, upper)
        },
{
    let e = eui64_digits(v, upper);
    lemma_eui64_digits_facts(v, upper);
    lemma_mac_digits_grouped(e, ':', 4);
    let body = grouped(e, ':', 4);
    if style is InterfaceId {
        assert(body[1] == e[1]);
        assert(strip_hex_prefix(body) == body);
    } else {
        let s = format_chars(style, v, upper);
        let head = if upper {
            seq!['F', 'E', '8', '0', ':', ':']
        } else {
            seq!['f', 'e', '8', '0', ':', ':']
        };
        assert(s == head + body);
        assert(s[0] == head[0]);
        assert(s[0] != '0');
        assert(strip_hex_prefix(s) == s);
        lemma_mac_digits_add(head, body);
        let h4 = if upper { seq!['F', 'E', '8', '0'] } else { seq!['f', 'e', '8', '0'] };
        let colons = seq![':', ':'];
        assert(head =~= h4 + colons);
        lemma_mac_digits_add(h4, colons);
        assert(forall|i: int| 0 <= i < h4.len() ==> is_hex_digit(#[trigger] h4[i]));
        lemma_mac_digits_of_digits(h4);
        assert(colons.drop_last() =~= seq![':']);
        assert(seq![':'].drop_last() =~= Seq::<char>::empty());
        assert(mac_digits(Seq::<char>::empty()) =~= Seq::<char>::empty());
        assert(mac_digits(seq![':']) =~= Seq::<char>::empty());
        assert(mac_digits(colons) =~= Seq::<char>::empty());
        assert(mac_digits(head) =~= h4);
    }
}

/// Dropping the four inserted `fffe` digits from the EUI-64 digit string and
/// reading the rest recovers the flipped value; one more flip gives `v` back.
pub proof fn lemma_eui64_digits_value(v: u64, upper: bool)
    requires
        mac_value_valid(v),
    ensures
        ({
            let e = eui64_digits(v, upper);
            hex_value(e.take(6) + e.skip(10)) == spec_flip_ul(v)
        }),
{
    lemma_flip_involutive(v);
    let d = mac_nibble_chars(spec_flip_ul(v), upper);
    let e = eui64_digits(v, upper);
    assert(e.take(6) + e.skip(10) =~= d);
    lemma_nibbles_value(spec_flip_ul(v), upper);
}

/// Padding with zero digits scales a digit string's value by sixteen for each
/// digit added.
proof fn lemma_hex_value_pad(s: Seq<char>, k: nat)
    ensures
        hex_value(s + Seq::new(k, |i: int| '0')) == hex_value(s) * pow16(k),
    decreases k,
{
    if k == 0 {
        assert(s + Seq::new(0, |i: int| '0') =~= s);
        assert(hex_value(s) * 1 == hex_value(s));
    } else {
        lemma_hex_value_pad(s, (k - 1) as nat);
        let z = Seq::new(k, |i: int| '0');
        let z1 = Seq::new((k - 1) as nat, |i: int| '0');
        assert((s + z).drop_last() =~= s + z1);
        assert((s + z).last() == '0');
        assert(hex_val('0') == 0);
        assert(hex_value(s + z) == hex_value(s + z1) * 16);
        assert(hex_value(s) * pow16((k - 1) as nat) * 16 == hex_value(s) * (pow16(
            (k - 1) as nat,
        ) * 16)) by {
            vstd::arithmetic::mul::lemma_mul_is_associative(
                hex_value(s) as int,
                pow16((k - 1) as nat) as int,
                16,
            );
        }
        assert(pow16(k) == 16 * pow16((k - 1) as nat));
    }
}

/// Zero-extension law: a digit string of at most twelve digits, padded on the
/// right to twelve, denotes its own value scaled by sixteen per added digit.
pub proof fn lemma_zero_extension(d: Seq<char>)
    requires
        d.len() <= 12,
    ensures
        hex_value(zero_extended(d, true)) == hex_value(d) * pow16((12 - d.len()) as nat),
{
    if d.len() < 12 {
        lemma_hex_value_pad(d, (12 - d.len()) as nat);
    } else {
        assert(pow16(0) == 1);
        assert(hex_value(d) * 1 == hex_value(d));
    }
}

/// The number of separators that grouping inserts.
pub open spec fn sep_count(len: int, g: int) -> int
    decreases len,
{
    if g < 1 || len <= g {
        0
    } else {
        1 + sep_count(len - g, g)
    }
}

proof fn lemma_grouped_len(d: Seq<char>, sep: char, g: int)
    requires
        1 <= g,
    ensures
        grouped(d, sep, g).len() == d.len() + sep_count(d.len() as int, g),
    decreases d.len(),
{
    if d.len() > g {
        lemma_grouped_len(d.skip(g), sep, g);
    }
}

/// Formatting always yields the style's fixed output length.
pub proof fn lemma_format_chars_len(style: MacStyle, v: u64, upper: bool)
    ensures
        format_chars(style, v, upper).len() == style_length(style),
{
    let d = mac_nibble_chars(v, upper);
    let e = eui64_digits(v, upper);
    assert(d.len() == 12);
    assert(e.len() == 16);
    match style {
        MacStyle::Plain => {},
        MacStyle::Dashed => {
            lemma_grouped_len(d, '-', 2);
            assert(sep_count(2, 2) == 0);
            assert(sep_count(4, 2) == 1);
            assert(sep_count(6, 2) == 2);
            assert(sep_count(8, 2) == 3);
            assert(sep_count(10, 2) == 4);
            assert(sep_count(12, 2) == 5);
        },
        MacStyle::Colon => {
            lemma_grouped_len(d, ':', 2);
            assert(sep_count(2, 2) == 0);
            assert(sep_count(4, 2) == 1);
            assert(sep_count(6, 2) == 2);
            assert(sep_count(8, 2) == 3);
            assert(sep_count(10, 2) == 4);
            assert(sep_count(12, 2) == 5);
        },
        MacStyle::Dots => {
            lemma_grouped_len(d, '.', 4);
            assert(sep_count(4, 4) == 0);
            assert(sep_count(8, 4) == 1);
            assert(sep_count(12, 4) == 2);
        },
        MacStyle::Prefixed => {},
        MacStyle::InterfaceId => {
            lemma_grouped_len(e, ':', 4);
            assert(sep_count(4, 4) == 0);
            assert(sep_count(8, 4) == 1);
            assert(sep_count(12, 4) == 2);
            assert(sep_count(16, 4) == 3);
        },
        MacStyle::LinkLocal => {
            lemma_grouped_len(e, ':', 4);
            assert(sep_count(4, 4) == 0);
            assert(sep_count(8, 4) == 1);
            assert(sep_count(12, 4) == 2);
            assert(sep_count(16, 4) == 3);
        },
    }
}

/// Formatted MAC text is pure ASCII.
pub proof fn lemma_format_chars_ascii(style: MacStyle, v: u64, upper: bool)
    requires
        mac_value_valid(v),
    ensures
        forall|i: int|
            0 <= i < format_chars(style, v, upper).len() ==> (#[trigger] format_chars(
                style,
                v,
                upper,
            )[i] as u32) < 128,
{
    let s = format_chars(style, v, upper);
    let d = mac_nibble_chars(v, upper);
    let e = eui64_digits(v, upper);
    lemma_mac_nibble_chars_facts(v, upper);
    if style is InterfaceId || style is LinkLocal {
        lemma_eui64_digits_facts(v, upper);
    }
    match style {
        MacStyle::Plain => {},
        MacStyle::Dashed => {
            lemma_grouped_ascii(d, '-', 2);
        },
        MacStyle::Colon => {
            lemma_grouped_ascii(d, ':', 2);
        },
        MacStyle::Dots => {
            lemma_grouped_ascii(d, '.', 4);
        },
        MacStyle::Prefixed => {
            assert forall|i: int| 0 <= i < s.len() implies (#[trigger] s[i] as u32) < 128 by {
                if i >= 2 {
                    assert(s[i] == d[i - 2]);
                }
            }
        },
        MacStyle::InterfaceId => {
            lemma_grouped_ascii(e, ':', 4);
        },
        MacStyle::LinkLocal => {
            lemma_grouped_ascii(e, ':', 4);
            let body = grouped(e, ':', 4);
            assert forall|i: int| 0 <= i < s.len() implies (#[trigger] s[i] as u32) < 128 by {
                if i >= 6 {
                    assert(s[i] == body[i - 6]);
                }
            }
        },
    }
}

/// Grouping ASCII digits with an ASCII separator stays ASCII.
proof fn lemma_grouped_ascii(d: Seq<char>, sep: char, g: int)
    requires
        1 <= g,
        (sep as u32) < 128,
        forall|i: int| 0 <= i < d.len() ==> (#[trigger] d[i] as u32) < 128,
    ensures
        forall|i: int|
            0 <= i < grouped(d, sep, g).len() ==> (#[trigger] grouped(d, sep, g)[i] as u32) < 128,
{
    lemma_grouped_chars(d, sep, g);
    let w = grouped(d, sep, g);
    assert forall|i: int| 0 <= i < w.len() implies (#[trigger] w[i] as u32) < 128 by {
        if w[i] != sep {
            let j = choose|j: int| 0 <= j < d.len() && d[j] == w[i];
        }
    }
}

/// The canonical value of six big-endian octets.
pub open spec fn mac_bytes_value(b: Seq<u8>) -> u64 {
    (b[0] as nat * 0x100_0000_0000 + b[1] as nat * 0x1_0000_0000 + b[2] as nat * 0x100_0000
        + b[3] as nat * 0x1_0000 + b[4] as nat * 0x100 + b[5] as nat) as u64
}

/// Assemble six big-endian octets into a canonical MAC value.
pub fn mac_from_bytes(b: &[u8; 6]) -> (v: u64)
    ensures
        v == mac_bytes_value(b@),
        mac_value_valid(v),
{
    b[0] as u64 * 0x100_0000_0000 + b[1] as u64 * 0x1_0000_0000 + b[2] as u64 * 0x100_0000 + b[3]
        as u64 * 0x1_0000 + b[4] as u64 * 0x100 + b[5] as u64
}

impl MacStyle {
    /// The template-filling formatter: a fixed 25-byte buffer whose first
    /// `length()` bytes hold the formatted ASCII text; the rest is `@`
    /// padding.
    pub fn format_internal(&self, mac: [u8; 6], uppercase: bool) -> (r: ([u8; 25], usize))
        ensures
            r.1 == style_length(*self),
            forall|i: int|
                0 <= i < r.1 ==> (#[trigger] r.0@[i] as u32) == (format_chars(
                    *self,
                    mac_bytes_value(mac@),
                    uppercase,
                )[i] as u32),
            forall|i: int| r.1 <= i < 25 ==> r.0@[i] == 64u8,
    {
        let v = mac_from_bytes(&mac);
        proof {
            lemma_format_chars_len(*self, v, uppercase);
            lemma_format_chars_ascii(*self, v, uppercase);
        }
        let cs = style_chars(self, v, uppercase);
        let mut arr = [64u8; 25];
        let n = cs.len();
        let mut i: usize = 0;
        while i < n
            invariant
                n == cs@.len(),
                n <= 25,
                i <= n,
                forall|j: int| 0 <= j < cs@.len() ==> (#[trigger] cs@[j] as u32) < 128,
                forall|j: int| 0 <= j < i ==> (#[trigger] arr@[j] as u32) == (cs@[j] as u32),
                forall|j: int| i <= j < 25 ==> arr@[j] == 64u8,
            decreases n - i,
        {
            arr[i] = crate::text::ascii_byte(cs[i]);
            i = i + 1;
        }
        (arr, n)
    }
}

/// The individual/group bit (the lowest bit of the leading octet) is clear:
/// the address names a single interface.
pub open spec fn spec_is_unicast(mac: u64) -> bool {
    (mac / 0x100_0000_0000) % 2 == 0
}

/// The universal/local bit (the second-lowest bit of the leading octet) is
/// clear: the address is globally assigned.
pub open spec fn spec_is_universal(mac: u64) -> bool {
    (mac / 0x200_0000_0000) % 2 == 0
}

/// True when the individual/group bit (the lowest bit of the leading octet)
/// is clear: the address names a single interface.
pub fn is_unicast(mac: u64) -> (r: bool)
    requires
        mac_value_valid(mac),
    ensures
        r == spec_is_unicast(mac),
{
    (mac / 0x100_0000_0000) % 2 == 0
}

/// True when the individual/group bit is set: the address names a group.
pub fn is_multicast(mac: u64) -> (r: bool)
    requires
        mac_value_valid(mac),
    ensures
        r == !spec_is_unicast(mac),
{
    (mac / 0x100_0000_0000) % 2 == 1
}

/// True when the universal/local bit is clear: the address is globally
/// assigned.
pub fn is_universal(mac: u64) -> (r: bool)
    requires
        mac_value_valid(mac),
    ensures
        r == spec_is_universal(mac),
{
    (mac / 0x200_0000_0000) % 2 == 0
}

/// True when the universal/local bit is set: the address is locally
/// administered.
pub fn is_local(mac: u64) -> (r: bool)
    requires
        mac_value_valid(mac),
    ensures
        r == !spec_is_universal(mac),
{
    (mac / 0x200_0000_0000) % 2 == 1
}

} // verus!
