//! Character-level helpers shared by the MAC and IP text codecs: digit
//! classification, digit values, and conversions between `&str`/`String` and
//! `Vec<char>`.

use vstd::prelude::*;
use vstd::arithmetic::power2::pow2;
use vstd::string::{StrSliceExecFns, StringExecFns};

verus! {

/// True for the sixteen hexadecimal digit characters, either case.
pub open spec fn is_hex_digit(c: char) -> bool {
    (48 <= c as u32 && c as u32 <= 57)  // '0'..='9'
    || (97 <= c as u32 && c as u32 <= 102)  // 'a'..='f'
    || (65 <= c as u32 && c as u32 <= 70)  // 'A'..='F'
}

/// Numeric value of a hexadecimal digit character (0 when `c` is no digit).
pub open spec fn hex_val(c: char) -> u64 {
    if 48 <= c as u32 && c as u32 <= 57 {
        (c as u32 - 48) as u64
    } else if 97 <= c as u32 && c as u32 <= 102 {
        (c as u32 - 87) as u64
    } else if 65 <= c as u32 && c as u32 <= 70 {
        (c as u32 - 55) as u64
    } else {
        0
    }
}

/// True for the decimal digit characters.
pub open spec fn is_dec_digit(c: char) -> bool {
    48 <= c as u32 && c as u32 <= 57
}

/// Numeric value of a decimal digit character (0 when `c` is no digit).
pub open spec fn dec_val(c: char) -> u64 {
    if is_dec_digit(c) {
        (c as u32 - 48) as u64
    } else {
        0
    }
}

/// Value of a big-endian string of hexadecimal digits.
pub open spec fn hex_value(s: Seq<char>) -> nat
    decreases s.len(),
{
    if s.len() == 0 {
        0
    } else {
        hex_value(s.drop_last()) * 16 + hex_val(s.last()) as nat
    }
}

/// Value of a big-endian string of decimal digits.
pub open spec fn dec_value(s: Seq<char>) -> nat
    decreases s.len(),
{
    if s.len() == 0 {
        0
    } else {
        dec_value(s.drop_last()) * 10 + dec_val(s.last()) as nat
    }
}

/// Sixteen to the power `n`.
pub open spec fn pow16(n: nat) -> nat
    decreases n,
{
    if n == 0 {
        1
    } else {
        16 * pow16((n - 1) as nat)
    }
}

/// A string of `n` hexadecimal digits has a value below `16^n`.
pub proof fn lemma_hex_value_bound(s: Seq<char>)
    ensures
        hex_value(s) < pow16(s.len()),
    decreases s.len(),
{
    if s.len() > 0 {
        lemma_hex_value_bound(s.drop_last());
    }
}

/// `16^n` is positive.
pub proof fn lemma_pow16_pos(n: nat)
    ensures
        pow16(n) >= 1,
    decreases n,
{
    if n > 0 {
        lemma_pow16_pos((n - 1) as nat);
    }
}

/// `pow16` grows with its argument.
pub proof fn lemma_pow16_monotone(a: nat, b: nat)
    requires
        a <= b,
    ensures
        pow16(a) <= pow16(b),
    decreases b,
{
    if a < b {
        lemma_pow16_monotone(a, (b - 1) as nat);
    }
}

/// Concrete values of `16^n` for the widths this crate works with.
pub proof fn lemma_pow16_48()
    ensures
        pow16(12) == 0x1_0000_0000_0000,
{
    assert(pow16(0) == 1);
    assert(pow16(1) == 16);
    assert(pow16(2) == 0x100);
    assert(pow16(3) == 0x1000);
    assert(pow16(4) == 0x1_0000);
    assert(pow16(5) == 0x10_0000);
    assert(pow16(6) == 0x100_0000);
    assert(pow16(7) == 0x1000_0000);
    assert(pow16(8) == 0x1_0000_0000);
    assert(pow16(9) == 0x10_0000_0000);
    assert(pow16(10) == 0x100_0000_0000);
    assert(pow16(11) == 0x1000_0000_0000);
    assert(pow16(12) == 0x1_0000_0000_0000);
}

/// The characters of `s`, in order, for char-by-char processing.
pub fn str_chars(s: &str) -> (r: Vec<char>)
    ensures
        r@ == s@,
{
    let n = s.unicode_len();
    let mut r: Vec<char> = Vec::new();
    let mut i: usize = 0;
    while i < n
        invariant
            n == s@.len(),
            i <= n,
            r@ == s@.subrange(0, i as int),
        decreases n - i,
    {
        let c = s.get_char(i);
        r.push(c);
        i = i + 1;
        proof {
            assert(r@ =~= s@.subrange(0, i as int));
        }
    }
    proof {
        assert(r@ =~= s@);
    }
    r
}

/// Relies on `String`'s `FromIterator<char>` implementation (through
/// `Iterator::collect`): the collected string holds exactly the characters
/// of the iterator, in order.
#[verifier::external_body]
pub(crate) fn chars_to_string(v: &Vec<char>) -> (r: String)
    ensures
        r@ == v@,
{
    v.iter().collect()
}

/// The ASCII code of a 7-bit character, as a byte.
pub fn ascii_byte(c: char) -> (r: u8)
    requires
        (c as u32) < 128,
    ensures
        r as u32 == c as u32,
{
    let u = c as u32;
    proof {
        assert((u as u8) as u32 == u) by (bit_vector)
            requires
                u < 128,
        ;
    }
    u as u8
}

/// A value below 256, narrowed to one byte.
pub fn low_byte(x: u64) -> (r: u8)
    requires
        x < 256,
    ensures
        r as u64 == x,
{
    proof {
        assert((x as u8) as u64 == x) by (bit_vector)
            requires
                x < 256,
        ;
    }
    x as u8
}

/// A value below `2^32`, narrowed to 32 bits.
pub fn low_u32(x: u64) -> (r: u32)
    requires
        x < 0x1_0000_0000,
    ensures
        r as u64 == x,
{
    proof {
        assert((x as u32) as u64 == x) by (bit_vector)
            requires
                x < 0x1_0000_0000,
        ;
    }
    x as u32
}

/// A 128-bit value below 256, narrowed to one byte.
pub fn low_byte_u128(x: u128) -> (r: u8)
    requires
        x < 256,
    ensures
        r as u128 == x,
{
    proof {
        assert((x as u8) as u128 == x) by (bit_vector)
            requires
                x < 256,
        ;
    }
    x as u8
}

/// Do the characters equal the string's characters?
pub fn chars_eq_str(v: &Vec<char>, s: &str) -> (r: bool)
    ensures
        r == (v@ == s@),
{
    let vs = chars_to_string(v);
    let ss = String::from_str(s);
    vs == ss
}

/// Exec mirror of [`hex_val`]; returns `None` on a non-digit.
pub fn hex_digit_value(c: char) -> (r: Option<u8>)
    ensures
        r is Some <==> is_hex_digit(c),
        r is Some ==> r->0 as u64 == hex_val(c) && r->0 < 16,
{
    let u = c as u32;
    if 48 <= u && u <= 57 {
        Some((u - 48) as u8)
    } else if 97 <= u && u <= 102 {
        Some((u - 87) as u8)
    } else if 65 <= u && u <= 70 {
        Some((u - 55) as u8)
    } else {
        None
    }
}

/// Exec mirror of [`dec_val`]; returns `None` on a non-digit.
pub fn dec_digit_value(c: char) -> (r: Option<u8>)
    ensures
        r is Some <==> is_dec_digit(c),
        r is Some ==> r->0 as u64 == dec_val(c) && r->0 < 10,
{
    let u = c as u32;
    if 48 <= u && u <= 57 {
        Some((u - 48) as u8)
    } else {
        None
    }
}


/// ASCII whitespace: space, tab, line feed, carriage return, form feed,
/// vertical tab.
pub open spec fn is_space(c: char) -> bool {
    c == ' ' || c == '\t' || c == '\n' || c == '\r' || c == '\u{000C}' || c == '\u{000B}'
}

/// `s` without its leading whitespace.
pub open spec fn drop_leading_spaces(s: Seq<char>) -> Seq<char>
    decreases s.len(),
{
    if s.len() > 0 && is_space(s[0]) {
        drop_leading_spaces(s.skip(1))
    } else {
        s
    }
}

/// `s` without its trailing whitespace.
pub open spec fn drop_trailing_spaces(s: Seq<char>) -> Seq<char>
    decreases s.len(),
{
    if s.len() > 0 && is_space(s.last()) {
        drop_trailing_spaces(s.drop_last())
    } else {
        s
    }
}

/// `s` without leading and trailing whitespace.
pub open spec fn spec_trim(s: Seq<char>) -> Seq<char> {
    drop_leading_spaces(drop_trailing_spaces(s))
}

proof fn lemma_drop_trailing_spaces_is_take(s: Seq<char>, j: int)
    requires
        0 <= j <= s.len(),
        forall|i: int| j <= i < s.len() ==> is_space(#[trigger] s[i]),
        j > 0 ==> !is_space(s[j - 1]),
    ensures
        drop_trailing_spaces(s) == s.take(j),
    decreases s.len(),
{
    if s.len() > 0 && is_space(s.last()) {
        assert(j < s.len());
        lemma_drop_trailing_spaces_is_take(s.drop_last(), j);
        assert(s.drop_last().take(j) =~= s.take(j));
    } else {
        assert(j == s.len());
        assert(s.take(j) =~= s);
    }
}

proof fn lemma_drop_leading_spaces_is_skip(s: Seq<char>, j: int)
    requires
        0 <= j <= s.len(),
        forall|i: int| 0 <= i < j ==> is_space(#[trigger] s[i]),
        j < s.len() ==> !is_space(s[j]),
    ensures
        drop_leading_spaces(s) == s.skip(j),
    decreases j,
{
    if j > 0 {
        assert(is_space(s[0]));
        assert(forall|i: int| 0 <= i < j - 1 ==> is_space(#[trigger] s.skip(1)[i]));
        lemma_drop_leading_spaces_is_skip(s.skip(1), j - 1);
        assert(s.skip(1).skip(j - 1) =~= s.skip(j));
    } else {
        if s.len() > 0 && is_space(s[0]) {
            assert(false);
        }
        assert(s.skip(0) =~= s);
    }
}

/// Exec mirror of [`is_space`].
pub fn space(c: char) -> (r: bool)
    ensures
        r == is_space(c),
{
    c == ' ' || c == '\t' || c == '\n' || c == '\r' || c == '\u{000C}' || c == '\u{000B}'
}

/// The characters of `cs` with leading and trailing whitespace removed.
pub fn trim_spaces(cs: &Vec<char>) -> (r: Vec<char>)
    ensures
        r@ == spec_trim(cs@),
{
    let n = cs.len();
    let mut end: usize = n;
    while end > 0 && space(cs[end - 1])
        invariant
            end <= n,
            n == cs@.len(),
            forall|i: int| end <= i < n ==> is_space(#[trigger] cs@[i]),
        decreases end,
    {
        end = end - 1;
    }
    proof {
        lemma_drop_trailing_spaces_is_take(cs@, end as int);
    }
    let ghost t = cs@.take(end as int);
    let mut start: usize = 0;
    while start < end && space(cs[start])
        invariant
            start <= end,
            end <= n,
            n == cs@.len(),
            t == cs@.take(end as int),
            forall|i: int| 0 <= i < start ==> is_space(#[trigger] cs@[i]),
        decreases end - start,
    {
        start = start + 1;
    }
    proof {
        assert(forall|i: int| 0 <= i < start ==> t[i] == cs@[i] && is_space(#[trigger] t[i]));
        if start < end {
            assert(t[start as int] == cs@[start as int]);
        }
        lemma_drop_leading_spaces_is_skip(t, start as int);
    }
    let mut r: Vec<char> = Vec::new();
    let mut i: usize = start;
    while i < end
        invariant
            start <= i <= end,
            end <= cs@.len(),
            r@ == cs@.subrange(start as int, i as int),
        decreases end - i,
    {
        r.push(cs[i]);
        i = i + 1;
        proof {
            assert(cs@.subrange(start as int, i as int) =~= cs@.subrange(start as int, i - 1).push(
                cs@[i - 1],
            ));
        }
    }
    proof {
        assert(r@ =~= t.skip(start as int));
    }
    r
}

/// The index of the first occurrence of `c` in `s`, or -1 when absent.
pub open spec fn first_index_of(s: Seq<char>, c: char) -> int
    decreases s.len(),
{
    if s.len() == 0 {
        -1
    } else if s[0] == c {
        0
    } else if first_index_of(s.skip(1), c) == -1 {
        -1
    } else {
        first_index_of(s.skip(1), c) + 1
    }
}

/// What [`first_index_of`] returns: the first position holding `c`, or -1
/// when no position does.
pub proof fn lemma_first_index_of(s: Seq<char>, c: char)
    ensures
        first_index_of(s, c) == -1 ==> forall|i: int| 0 <= i < s.len() ==> s[i] != c,
        first_index_of(s, c) != -1 ==> {
            let k = first_index_of(s, c);
            &&& 0 <= k < s.len()
            &&& s[k] == c
            &&& forall|i: int| 0 <= i < k ==> s[i] != c
        },
    decreases s.len(),
{
    if s.len() > 0 && s[0] != c {
        let t = s.skip(1);
        lemma_first_index_of(t, c);
        if first_index_of(t, c) == -1 {
            assert forall|i: int| 0 <= i < s.len() implies s[i] != c by {
                if i > 0 {
                    assert(t[i - 1] == s[i]);
                }
            }
        } else {
            let k = first_index_of(t, c);
            assert(t[k] == s[k + 1]);
            assert forall|i: int| 0 <= i < k + 1 implies s[i] != c by {
                if i > 0 {
                    assert(t[i - 1] == s[i]);
                }
            }
        }
    }
}

/// The first position of `c` in `cs`, scanning forward.
pub fn find_char(cs: &Vec<char>, c: char) -> (r: Option<usize>)
    ensures
        match r {
            Some(k) => k as int == first_index_of(cs@, c),
            None => first_index_of(cs@, c) == -1,
        },
{
    let n = cs.len();
    let mut i: usize = 0;
    while i < n
        invariant
            i <= n,
            n == cs@.len(),
            forall|j: int| 0 <= j < i ==> cs@[j] != c,
        decreases n - i,
    {
        if cs[i] == c {
            proof {
                lemma_first_index_of(cs@, c);
                if first_index_of(cs@, c) == -1 {
                    assert(false);
                }
            }
            return Some(i);
        }
        i = i + 1;
    }
    proof {
        lemma_first_index_of(cs@, c);
        if first_index_of(cs@, c) != -1 {
            assert(false);
        }
    }
    None
}

/// `s` split on every occurrence of `sep`: the parts, in order, separators
/// removed. An empty text yields one empty part.
pub open spec fn split_on(s: Seq<char>, sep: char) -> Seq<Seq<char>>
    decreases s.len(),
{
    if s.len() == 0 {
        seq![Seq::empty()]
    } else {
        let rest = split_on(s.drop_last(), sep);
        if s.last() == sep {
            rest.push(Seq::empty())
        } else {
            rest.update(rest.len() - 1, rest.last().push(s.last()))
        }
    }
}

/// Splitting never yields an empty list of parts.
pub proof fn lemma_split_on_nonempty(s: Seq<char>, sep: char)
    ensures
        split_on(s, sep).len() >= 1,
    decreases s.len(),
{
    if s.len() > 0 {
        lemma_split_on_nonempty(s.drop_last(), sep);
    }
}

/// The views of a list of character vectors.
pub open spec fn views_of(s: Seq<Vec<char>>) -> Seq<Seq<char>> {
    s.map_values(|v: Vec<char>| v@)
}

/// A split with more than one part means the separator occurs in the text.
pub proof fn lemma_split_on_sep(s: Seq<char>, sep: char)
    ensures
        split_on(s, sep).len() > 1 ==> exists|i: int| 0 <= i < s.len() && #[trigger] s[i] == sep,
    decreases s.len(),
{
    if s.len() > 0 {
        lemma_split_on_sep(s.drop_last(), sep);
        lemma_split_on_nonempty(s.drop_last(), sep);
        if s.last() == sep {
            assert(s[s.len() - 1] == sep);
        } else if split_on(s.drop_last(), sep).len() > 1 {
            let i = choose|i: int| 0 <= i < s.drop_last().len() && #[trigger] s.drop_last()[i] == sep;
            assert(s[i] == sep);
        }
    }
}

/// Exec splitting of a character vector, mirroring [`split_on`].
pub fn split_chars(cs: &Vec<char>, sep: char) -> (r: Vec<Vec<char>>)
    ensures
        views_of(r@) == split_on(cs@, sep),
{
    let mut r: Vec<Vec<char>> = Vec::new();
    let mut cur: Vec<char> = Vec::new();
    let n = cs.len();
    let mut i: usize = 0;
    proof {
        assert(cs@.take(0) =~= Seq::<char>::empty());
        assert(views_of(r@).push(cur@) =~= split_on(cs@.take(0), sep));
    }
    while i < n
        invariant
            i <= n,
            n == cs@.len(),
            views_of(r@).push(cur@) == split_on(cs@.take(i as int), sep),
        decreases n - i,
    {
        let ghost prev = cs@.take(i as int);
        let ghost parts = split_on(prev, sep);
        proof {
            lemma_split_on_nonempty(prev, sep);
            assert(cs@.take(i + 1).drop_last() =~= prev);
            assert(cs@.take(i + 1).last() == cs@[i as int]);
        }
        let c = cs[i];
        if c == sep {
            proof {
                assert(split_on(cs@.take(i + 1), sep) == parts.push(Seq::<char>::empty()));
            }
            r.push(cur);
            cur = Vec::new();
            proof {
                assert(views_of(r@).push(cur@) =~= parts.push(Seq::<char>::empty()));
            }
        } else {
            proof {
                assert(split_on(cs@.take(i + 1), sep) == parts.update(
                    parts.len() - 1,
                    parts.last().push(cs@[i as int]),
                ));
            }
            cur.push(c);
            proof {
                assert(views_of(r@).push(cur@) =~= parts.update(
                    parts.len() - 1,
                    parts.last().push(cs@[i as int]),
                ));
            }
        }
        i = i + 1;
    }
    r.push(cur);
    proof {
        assert(cs@.take(n as int) =~= cs@);
        assert(views_of(r@) =~= split_on(cs@, sep));
    }
    r
}

/// A prefix of a digit string never exceeds the whole string's value.
pub proof fn lemma_dec_value_take_le(s: Seq<char>, k: int)
    requires
        0 <= k <= s.len(),
    ensures
        dec_value(s.take(k)) <= dec_value(s),
    decreases s.len() - k,
{
    if k < s.len() {
        lemma_dec_value_take_le(s, k + 1);
        assert(s.take(k + 1).drop_last() =~= s.take(k));
        assert(dec_value(s.take(k + 1)) == dec_value(s.take(k)) * 10 + dec_val(
            s.take(k + 1).last(),
        ));
    } else {
        assert(s.take(k) =~= s);
    }
}

/// Parse the characters of `cs` between `from` and `to` as an unsigned
/// decimal number fitting one byte. `None` when the range is empty, holds a
/// non-digit, or exceeds 255.
pub fn parse_u8_decimal(cs: &Vec<char>, from: usize, to: usize) -> (r: Option<u8>)
    requires
        from <= to <= cs@.len(),
    ensures
        ({
            let t = cs@.subrange(from as int, to as int);
            match r {
                Some(v) => t.len() > 0 && (forall|i: int|
                    0 <= i < t.len() ==> is_dec_digit(#[trigger] t[i])) && dec_value(t) <= 255
                    && v as nat == dec_value(t),
                None => t.len() == 0 || (exists|i: int| 0 <= i < t.len() && !is_dec_digit(t[i]))
                    || dec_value(t) > 255,
            }
        }),
{
    let ghost t = cs@.subrange(from as int, to as int);
    if from == to {
        return None;
    }
    let mut acc: u32 = 0;
    let mut i: usize = from;
    while i < to
        invariant
            from <= i <= to <= cs@.len(),
            t == cs@.subrange(from as int, to as int),
            forall|j: int| 0 <= j < i - from ==> is_dec_digit(#[trigger] t[j]),
            acc as nat == dec_value(t.take(i - from)),
            acc <= 255,
        decreases to - i,
    {
        let c = cs[i];
        let d = match dec_digit_value(c) {
            Some(d) => d,
            None => {
                proof {
                    assert(t[i - from] == cs@[i as int]);
                }
                return None;
            },
        };
        proof {
            assert(t[i - from] == cs@[i as int]);
            assert(t.take(i - from + 1).drop_last() =~= t.take(i - from));
            assert(t.take(i - from + 1).last() == t[i - from]);
        }
        acc = acc * 10 + d as u32;
        i = i + 1;
        if acc > 255 {
            proof {
                lemma_dec_value_take_le(t, i - from);
            }
            return None;
        }
    }
    proof {
        assert(t.take(to - from) =~= t);
    }
    Some(acc as u8)
}

/// The decimal digit characters of `n`, most significant first, no sign, no
/// leading zeroes.
pub open spec fn dec_chars(n: nat) -> Seq<char>
    decreases n,
{
    if n < 10 {
        seq![dec_char_of(n)]
    } else {
        dec_chars(n / 10).push(dec_char_of(n % 10))
    }
}

/// The character of one decimal digit.
pub open spec fn dec_char_of(d: nat) -> char {
    if d == 0 { '0' } else if d == 1 { '1' } else if d == 2 { '2' } else if d == 3 { '3' }
    else if d == 4 { '4' } else if d == 5 { '5' } else if d == 6 { '6' } else if d == 7 { '7' }
    else if d == 8 { '8' } else { '9' }
}

/// Exec mirror of [`dec_char_of`].
fn dec_digit_char(d: u8) -> (c: char)
    requires
        d < 10,
    ensures
        c == dec_char_of(d as nat),
{
    if d == 0 { '0' } else if d == 1 { '1' } else if d == 2 { '2' } else if d == 3 { '3' }
    else if d == 4 { '4' } else if d == 5 { '5' } else if d == 6 { '6' } else if d == 7 { '7' }
    else if d == 8 { '8' } else { '9' }
}

/// The decimal text of a byte value.
pub fn format_u8_decimal(n: u8) -> (r: Vec<char>)
    ensures
        r@ == dec_chars(n as nat),
{
    let mut r: Vec<char> = Vec::new();
    let ghost q = n as nat / 10;
    let ghost q2 = n as nat / 100;
    if n >= 100 {
        r.push(dec_digit_char(n / 100));
        r.push(dec_digit_char((n / 10) % 10));
        r.push(dec_digit_char(n % 10));
        proof {
            assert(q / 10 == q2) by {
                vstd::arithmetic::div_mod::lemma_div_denominator(n as int, 10, 10);
            }
            assert(q2 < 10);
            assert(10 <= q);
            assert(dec_chars(q2) == seq![dec_char_of(q2)]);
            assert(dec_chars(q) == dec_chars(q2).push(dec_char_of(q % 10)));
            assert(dec_chars(n as nat) == dec_chars(q).push(dec_char_of(n as nat % 10)));
            assert((n / 100) as nat == q2);
            assert(((n / 10) % 10) as nat == q % 10);
            assert((n % 10) as nat == n as nat % 10);
            assert(r@ =~= dec_chars(n as nat));
        }
    } else if n >= 10 {
        r.push(dec_digit_char(n / 10));
        r.push(dec_digit_char(n % 10));
        proof {
            assert(q < 10);
            assert(dec_chars(q) == seq![dec_char_of(q)]);
            assert(dec_chars(n as nat) == dec_chars(q).push(dec_char_of(n as nat % 10)));
            assert(r@ =~= dec_chars(n as nat));
        }
    } else {
        r.push(dec_digit_char(n));
        proof {
            assert(dec_chars(n as nat) == seq![dec_char_of(n as nat)]);
            assert(r@ =~= dec_chars(n as nat));
        }
    }
    r
}

/// `2^n` as a 64-bit value.
pub fn pow2_u64(n: u8) -> (r: u64)
    requires
        n <= 63,
    ensures
        r as nat == vstd::arithmetic::power2::pow2(n as nat),
{
    let mut r: u64 = 1;
    let mut i: u8 = 0;
    proof {
        vstd::arithmetic::power2::lemma2_to64();
    }
    while i < n
        invariant
            i <= n <= 63,
            r as nat == vstd::arithmetic::power2::pow2(i as nat),
        decreases n - i,
    {
        proof {
            vstd::bits::lemma_u64_pow2_no_overflow((i + 1) as nat);
            assert(vstd::arithmetic::power2::pow2((i + 1) as nat) == 2 * vstd::arithmetic::power2::pow2(i as nat)) by {
                vstd::arithmetic::power2::lemma_pow2_unfold((i + 1) as nat);
            }
        }
        r = r * 2;
        i = i + 1;
    }
    r
}

/// `2^n` as a 128-bit value.
pub fn pow2_u128(n: u8) -> (r: u128)
    requires
        n <= 127,
    ensures
        r as nat == vstd::arithmetic::power2::pow2(n as nat),
{
    let mut r: u128 = 1;
    let mut i: u8 = 0;
    proof {
        vstd::arithmetic::power2::lemma2_to64();
    }
    while i < n
        invariant
            i <= n <= 127,
            r as nat == vstd::arithmetic::power2::pow2(i as nat),
        decreases n - i,
    {
        proof {
            lemma_pow2_127();
            if ((i + 1) as nat) < 127 {
                vstd::arithmetic::power2::lemma_pow2_strictly_increases((i + 1) as nat, 127);
            }
            assert(vstd::arithmetic::power2::pow2((i + 1) as nat) == 2 * vstd::arithmetic::power2::pow2(i as nat)) by {
                vstd::arithmetic::power2::lemma_pow2_unfold((i + 1) as nat);
            }
        }
        r = r * 2;
        i = i + 1;
    }
    r
}

/// The value of `2^127`, spelled out.
pub proof fn lemma_pow2_127()
    ensures
        vstd::arithmetic::power2::pow2(127) == 0x8000_0000_0000_0000_0000_0000_0000_0000,
{
    vstd::arithmetic::power2::lemma2_to64();
    vstd::arithmetic::power2::lemma2_to64_rest();
    vstd::arithmetic::power2::lemma_pow2_adds(64, 63);
}

/// A value with everything below its leading bits cleared: the `drop`
/// lowest bits of `v` set to zero.
pub open spec fn trunc_bits(v: nat, drop: nat) -> nat {
    (v / pow2(drop)) * pow2(drop)
}

/// Truncation never grows a value.
pub proof fn lemma_trunc_bits_le(v: nat, d: nat)
    ensures
        trunc_bits(v, d) <= v,
{
    let p = pow2(d);
    vstd::arithmetic::power2::lemma_pow2_pos(d);
    vstd::arithmetic::div_mod::lemma_fundamental_div_mod(v as int, p as int);
    vstd::arithmetic::div_mod::lemma_mod_bound(v as int, p as int);
    vstd::arithmetic::mul::lemma_mul_is_commutative((v / p) as int, p as int);
}

/// Truncating twice is truncating once.
pub proof fn lemma_trunc_bits_idempotent(v: nat, d: nat)
    ensures
        trunc_bits(trunc_bits(v, d), d) == trunc_bits(v, d),
{
    let p = pow2(d);
    vstd::arithmetic::power2::lemma_pow2_pos(d);
    let q = v / p;
    vstd::arithmetic::div_mod::lemma_div_multiples_vanish(q as int, p as int);
    vstd::arithmetic::mul::lemma_mul_is_commutative(q as int, p as int);
    assert((q * p) as int / p as int == q);
}

/// Truncation is monotone in the value.
pub proof fn lemma_trunc_bits_monotone(v1: nat, v2: nat, d: nat)
    requires
        v1 <= v2,
    ensures
        trunc_bits(v1, d) <= trunc_bits(v2, d),
{
    let p = pow2(d);
    vstd::arithmetic::power2::lemma_pow2_pos(d);
    vstd::arithmetic::div_mod::lemma_div_is_ordered(v1 as int, v2 as int, p as int);
    vstd::arithmetic::mul::lemma_mul_inequality((v1 / p) as int, (v2 / p) as int, p as int);
    vstd::arithmetic::mul::lemma_mul_is_commutative((v1 / p) as int, p as int);
    vstd::arithmetic::mul::lemma_mul_is_commutative((v2 / p) as int, p as int);
}

/// Dropping more bits truncates at least as much.
pub proof fn lemma_trunc_bits_drop_monotone(v: nat, d1: nat, d2: nat)
    requires
        d1 <= d2,
    ensures
        trunc_bits(v, d2) <= trunc_bits(v, d1),
{
    let p1 = pow2(d1);
    let k = pow2((d2 - d1) as nat);
    let p2 = pow2(d2);
    vstd::arithmetic::power2::lemma_pow2_pos(d1);
    vstd::arithmetic::power2::lemma_pow2_pos(d2);
    vstd::arithmetic::power2::lemma_pow2_pos((d2 - d1) as nat);
    vstd::arithmetic::power2::lemma_pow2_adds(d1, (d2 - d1) as nat);
    assert(p2 == p1 * k);
    vstd::arithmetic::div_mod::lemma_breakdown(v as int, p1 as int, k as int);
    assert(v as int % (p1 as int * k as int) == p1 as int * ((v as int / p1 as int) % k as int) + v as int % p1 as int);
    assert(p1 as int * ((v as int / p1 as int) % k as int) >= 0) by {
        vstd::arithmetic::div_mod::lemma_div_pos_is_pos(v as int, p1 as int);
        vstd::arithmetic::div_mod::lemma_mod_bound(v as int / p1 as int, k as int);
        vstd::arithmetic::mul::lemma_mul_nonnegative(
            p1 as int,
            (v as int / p1 as int) % k as int,
        );
    }
    assert(v as int % p1 as int <= v as int % p2 as int);
    vstd::arithmetic::div_mod::lemma_fundamental_div_mod(v as int, p1 as int);
    vstd::arithmetic::div_mod::lemma_fundamental_div_mod(v as int, p2 as int);
    vstd::arithmetic::mul::lemma_mul_is_commutative((v / p1) as int, p1 as int);
    vstd::arithmetic::mul::lemma_mul_is_commutative((v / p2) as int, p2 as int);
}

} // verus!
