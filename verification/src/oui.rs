//! Vendor-prefix (OUI) table: prefixes of 24 to 48 bits with vendor metadata,
//! built once from tab-separated source text, answering longest-prefix-match
//! queries over canonical 48-bit MAC values.

use vstd::prelude::*;

use vstd::arithmetic::power2::pow2;

use crate::mac::{mac_parse_ok, mac_parse_value, mac_value_valid, parse_mac_addr_extend,
    ParseMacError};
use crate::text::{chars_to_string, dec_value, first_index_of, is_dec_digit, lemma_first_index_of,
    lemma_trunc_bits_drop_monotone, lemma_trunc_bits_idempotent, lemma_trunc_bits_le,
    lemma_trunc_bits_monotone, parse_u8_decimal, pow2_u64, spec_trim, split_chars, split_on,
    str_chars, trim_spaces, trunc_bits, views_of};

verus! {

/// A vendor prefix length lies between 24 and 48 bits.
pub open spec fn oui_length_valid(len: u8) -> bool {
    24 <= len <= 48
}

/// A vendor-owned address range: a 48-bit address and a prefix length.
#[derive(Clone, Copy, Debug, PartialEq, Eq, Structural)]
pub struct Oui {
    /// The range's base address; its bits beyond `length` are zero.
    pub address: u64,
    /// How many leading bits of `address` the range fixes, in [24, 48].
    pub length: u8,
}

/// Well-formed prefix: valid length, 48-bit address, bits beyond the length
/// zero.
pub open spec fn oui_wf(o: Oui) -> bool {
    &&& oui_length_valid(o.length)
    &&& mac_value_valid(o.address)
    &&& trunc_bits(o.address as nat, (48 - o.length) as nat) == o.address as nat
}

/// Prefix containment: `o` is no longer than `other` and `other`'s address,
/// truncated to `o`'s length, equals `o`'s address.
pub open spec fn oui_contains(o: Oui, other: Oui) -> bool {
    &&& o.length <= other.length
    &&& trunc_bits(other.address as nat, (48 - o.length) as nat) == o.address as nat
}

/// `o` covers the full 48-bit key `mac`.
pub open spec fn oui_matches(o: Oui, mac: u64) -> bool {
    &&& o.length <= 48
    &&& trunc_bits(mac as nat, (48 - o.length) as nat) == o.address as nat
}

/// Truncate a 48-bit value to its leading `len` bits.
fn trunc_mac(v: u64, len: u8) -> (r: u64)
    requires
        len <= 48,
        mac_value_valid(v),
    ensures
        r as nat == trunc_bits(v as nat, (48 - len) as nat),
        mac_value_valid(r),
{
    let p = pow2_u64(48 - len);
    proof {
        vstd::arithmetic::power2::lemma_pow2_pos((48 - len) as nat);
        lemma_trunc_bits_le(v as nat, (48 - len) as nat);
    }
    (v / p) * p
}

impl Oui {
    /// Does this prefix's range cover `other`'s whole range?
    pub fn contains(&self, other: &Oui) -> (r: bool)
        requires
            self.length <= 48,
            mac_value_valid(other.address),
        ensures
            r == oui_contains(*self, *other),
    {
        if self.length > other.length {
            return false;
        }
        let t = trunc_mac(other.address, self.length);
        t == self.address
    }

    /// The one-address range of a full 48-bit MAC value.
    pub fn from_addr(mac: u64) -> (r: Oui)
        requires
            mac_value_valid(mac),
        ensures
            r == (Oui { address: mac, length: 48u8 }),
            oui_wf(r),
    {
        proof {
            vstd::arithmetic::power2::lemma2_to64();
            assert(pow2(0) == 1);
            assert(mac as nat / 1 == mac as nat) by {
                vstd::arithmetic::div_mod::lemma_div_basics(mac as int);
            }
            assert((mac as nat / 1) * 1 == mac as nat);
            assert(trunc_bits(mac as nat, 0) == mac as nat);
        }
        Oui { address: mac, length: 48 }
    }
}

/// Errors from vendor-prefix text parsing.
#[derive(Debug, Clone, PartialEq, Eq)]
pub enum ParseOuiError {
    /// The MAC portion does not parse.
    MacParsing(ParseMacError),
    /// The text after `/` is not a decimal number that fits one byte; carries
    /// the whole prefix text.
    PrefixLengthParsing(String),
    /// The prefix length lies outside [24, 48]; carries the length and the
    /// prefix text.
    PrefixLengthValue(u8, String),
}

/// Position of the `/` separating MAC text from an explicit length, -1 when
/// absent.
pub open spec fn oui_slash(s: Seq<char>) -> int {
    first_index_of(s, '/')
}

/// The MAC portion of prefix text.
pub open spec fn oui_mac_text(s: Seq<char>) -> Seq<char> {
    if oui_slash(s) == -1 {
        s
    } else {
        s.take(oui_slash(s))
    }
}

/// The text after the `/`, holding the explicit length.
pub open spec fn oui_len_text(s: Seq<char>) -> Seq<char> {
    s.skip(oui_slash(s) + 1)
}

/// Whether the length portion parses: absent, or a nonempty decimal string
/// whose value fits one byte.
pub open spec fn oui_len_ok(s: Seq<char>) -> bool {
    oui_slash(s) == -1 || {
        let t = oui_len_text(s);
        t.len() > 0 && (forall|i: int| 0 <= i < t.len() ==> is_dec_digit(#[trigger] t[i]))
            && dec_value(t) <= 255
    }
}

/// The declared prefix length: explicit after `/`, else 24.
pub open spec fn oui_len_val(s: Seq<char>) -> nat {
    if oui_slash(s) == -1 {
        24
    } else {
        dec_value(oui_len_text(s))
    }
}

/// Whether prefix text parses as a whole.
pub open spec fn oui_text_ok(s: Seq<char>) -> bool {
    &&& oui_len_ok(s)
    &&& 24 <= oui_len_val(s) <= 48
    &&& mac_parse_ok(oui_mac_text(s), true)
}

/// The stored address a prefix text denotes: the zero-extended MAC value,
/// truncated to the declared length.
pub open spec fn oui_addr_val(s: Seq<char>) -> nat {
    trunc_bits(mac_parse_value(oui_mac_text(s), true), (48 - oui_len_val(s)) as nat)
}

impl Oui {
    /// Parse `MAC` or `MAC/length` as a vendor prefix. The MAC portion is
    /// zero-extended on the right; the stored address is truncated to the
    /// declared length, which defaults to 24.
    pub fn from_str(s: &str) -> (r: Result<Oui, ParseOuiError>)
        ensures
            match r {
                Ok(o) => oui_text_ok(s@) && o.length as nat == oui_len_val(s@) && o.address as nat
                    == oui_addr_val(s@) && oui_wf(o),
                Err(ParseOuiError::PrefixLengthParsing(msg)) => msg@ == s@ && oui_slash(s@) != -1
                    && !oui_len_ok(s@),
                Err(ParseOuiError::PrefixLengthValue(l, msg)) => msg@ == s@ && oui_len_ok(s@) && l
                    as nat == oui_len_val(s@) && !(24 <= oui_len_val(s@) <= 48),
                Err(ParseOuiError::MacParsing(_)) => oui_len_ok(s@) && 24 <= oui_len_val(s@) <= 48
                    && !mac_parse_ok(oui_mac_text(s@), true),
            },
            r is Ok <==> oui_text_ok(s@),
    {
        let cs = str_chars(s);
        let n = cs.len();
        let slash = crate::text::find_char(&cs, '/');
        let (mac_end, length): (usize, u8) = match slash {
            None => (n, 24u8),
            Some(k) => {
                proof {
                    lemma_first_index_of(cs@, '/');
                    assert(cs@.subrange(k + 1, n as int) =~= oui_len_text(s@));
                }
                match parse_u8_decimal(&cs, k + 1, n) {
                    None => {
                        return Err(ParseOuiError::PrefixLengthParsing(s.to_owned()));
                    },
                    Some(l) => (k, l),
                }
            },
        };
        if length < 24 || length > 48 {
            return Err(ParseOuiError::PrefixLengthValue(length, s.to_owned()));
        }
        let mut mac_chars: Vec<char> = Vec::new();
        let mut i: usize = 0;
        while i < mac_end
            invariant
                i <= mac_end <= cs@.len(),
                mac_chars@ == cs@.subrange(0, i as int),
            decreases mac_end - i,
        {
            mac_chars.push(cs[i]);
            i = i + 1;
            proof {
                assert(cs@.subrange(0, i as int) =~= cs@.subrange(0, i - 1).push(cs@[i - 1]));
            }
        }
        proof {
            if oui_slash(s@) == -1 {
                assert(mac_chars@ =~= oui_mac_text(s@));
            } else {
                assert(mac_chars@ =~= oui_mac_text(s@));
            }
        }
        let mac_string = chars_to_string(&mac_chars);
        match parse_mac_addr_extend(mac_string.as_str(), true) {
            Err(e) => Err(ParseOuiError::MacParsing(e)),
            Ok(v) => {
                let a = trunc_mac(v, length);
                proof {
                    lemma_trunc_bits_idempotent(v as nat, (48 - length) as nat);
                }
                Ok(Oui { address: a, length })
            },
        }
    }
}

/// Vendor metadata of one prefix: a required short name, an optional long
/// name, an optional comment.
#[derive(Debug, Clone, PartialEq, Eq)]
pub struct OuiMeta<S> {
    /// The short manufacturer name.
    pub short: S,
    /// The long manufacturer name, where the source gives one.
    pub long: Option<S>,
    /// Free-text comment, where the source gives one.
    pub comment: Option<S>,
}

impl<S> OuiMeta<S> {
    /// The short manufacturer name.
    pub fn manuf(&self) -> (r: &S)
        ensures
            r == self.short,
    {
        &self.short
    }

    /// The long manufacturer name, where present.
    pub fn manuf_long(&self) -> (r: Option<&S>)
        ensures
            r is Some <==> self.long is Some,
            r is Some ==> r->0 == self.long->0,
    {
        match &self.long {
            Some(v) => Some(v),
            None => None,
        }
    }

    /// The comment, where present.
    pub fn comment(&self) -> (r: Option<&S>)
        ensures
            r is Some <==> self.comment is Some,
            r is Some ==> r->0 == self.comment->0,
    {
        match &self.comment {
            Some(v) => Some(v),
            None => None,
        }
    }
}

impl<'a> OuiMeta<&'a str> {
    /// Copy borrowed metadata into owned strings.
    pub fn to_owned(&self) -> (r: OuiMeta<String>)
        ensures
            r.short@ == self.short@,
            r.long is Some <==> self.long is Some,
            r.long is Some ==> r.long->0@ == self.long->0@,
            r.comment is Some <==> self.comment is Some,
            r.comment is Some ==> r.comment->0@ == self.comment->0@,
    {
        OuiMeta {
            short: self.short.to_owned(),
            long: match self.long {
                Some(v) => Some(v.to_owned()),
                None => None,
            },
            comment: match self.comment {
                Some(v) => Some(v.to_owned()),
                None => None,
            },
        }
    }
}

impl OuiMeta<String> {
    /// Borrow owned metadata as string slices.
    pub fn as_ref(&self) -> (r: OuiMeta<&'_ str>)
        ensures
            r.short@ == self.short@,
            r.long is Some <==> self.long is Some,
            r.long is Some ==> r.long->0@ == self.long->0@,
            r.comment is Some <==> self.comment is Some,
            r.comment is Some ==> r.comment->0@ == self.comment->0@,
    {
        OuiMeta {
            short: self.short.as_str(),
            long: match &self.long {
                Some(v) => Some(v.as_str()),
                None => None,
            },
            comment: match &self.comment {
                Some(v) => Some(v.as_str()),
                None => None,
            },
        }
    }
}


/// Strict order on prefixes: by address, then by length.
pub open spec fn oui_lt(a: Oui, b: Oui) -> bool {
    a.address < b.address || (a.address == b.address && a.length < b.length)
}

/// Entries strictly ascend by (address, length): sorted, duplicate-free.
pub open spec fn db_sorted(s: Seq<(Oui, OuiMeta<String>)>) -> bool {
    forall|i: int, j: int| 0 <= i < j < s.len() ==> oui_lt(#[trigger] s[i].0, #[trigger] s[j].0)
}

/// Well-formed table: sorted and every prefix well-formed.
pub open spec fn db_wf(s: Seq<(Oui, OuiMeta<String>)>) -> bool {
    db_sorted(s) && forall|i: int| 0 <= i < s.len() ==> oui_wf(#[trigger] s[i].0)
}

/// Borrowed metadata `b` carries the same strings as owned metadata `a`.
pub open spec fn meta_view_eq(a: OuiMeta<String>, b: OuiMeta<&str>) -> bool {
    &&& a.short@ == b.short@
    &&& (a.long is Some <==> b.long is Some)
    &&& (a.long is Some ==> a.long->0@ == b.long->0@)
    &&& (a.comment is Some <==> b.comment is Some)
    &&& (a.comment is Some ==> a.comment->0@ == b.comment->0@)
}

/// A prefix that covers a key sits at or below it.
proof fn lemma_match_le(o: Oui, mac: u64)
    requires
        oui_matches(o, mac),
    ensures
        o.address <= mac,
{
    lemma_trunc_bits_le(mac as nat, (48 - o.length) as nat);
}

/// Of two prefixes covering one key, the one later in the order is the
/// longer one.
proof fn lemma_match_order(a: Oui, b: Oui, mac: u64)
    requires
        oui_matches(a, mac),
        oui_matches(b, mac),
        oui_lt(a, b),
    ensures
        a.length <= b.length,
{
    if a.length > b.length {
        lemma_trunc_bits_drop_monotone(mac as nat, (48 - a.length) as nat, (48 - b.length) as nat);
        assert(a.address >= b.address);
    }
}

/// Nothing below a non-covering top-level (24-bit) prefix covers the key:
/// walking down past such a prefix cannot find a match.
proof fn lemma_top_level_boundary(b: Oui, e: Oui, mac: u64)
    requires
        mac_value_valid(mac),
        oui_wf(b),
        oui_wf(e),
        b.length == 24,
        b.address <= mac,
        !oui_matches(b, mac),
        oui_lt(e, b),
    ensures
        !oui_matches(e, mac),
{
    if oui_matches(e, mac) {
        let t24 = trunc_bits(mac as nat, 24);
        lemma_trunc_bits_drop_monotone(mac as nat, (48 - e.length) as nat, 24);
        assert(e.address as nat >= t24);
        assert(e.address < b.address);
        lemma_trunc_bits_monotone(b.address as nat, mac as nat, 24);
        assert(trunc_bits(b.address as nat, 24) == b.address as nat);
        assert(b.address as nat <= t24);
        assert(false);
    }
}

/// The vendor-prefix table: entries sorted ascending by (address, length),
/// immutable after construction.
pub struct OuiDb {
    entries: Vec<(Oui, OuiMeta<String>)>,
}

impl View for OuiDb {
    type V = Seq<(Oui, OuiMeta<String>)>;

    closed spec fn view(&self) -> Seq<(Oui, OuiMeta<String>)> {
        self.entries@
    }
}

impl OuiDb {
    /// Find the longest stored prefix covering `mac`, with its metadata
    /// borrowed from the table.
    pub fn search_entry(&self, mac: u64) -> (r: Option<(Oui, OuiMeta<&str>)>)
        requires
            mac_value_valid(mac),
            db_wf(self@),
        ensures
            match r {
                Some(om) => {
                    &&& exists|i: int|
                        0 <= i < self@.len() && #[trigger] self@[i].0 == om.0 && meta_view_eq(
                            self@[i].1,
                            om.1,
                        )
                    &&& oui_matches(om.0, mac)
                    &&& forall|j: int|
                        0 <= j < self@.len() && oui_matches(#[trigger] self@[j].0, mac)
                            ==> self@[j].0.length <= om.0.length
                },
                None => forall|j: int|
                    0 <= j < self@.len() ==> !oui_matches(#[trigger] self@[j].0, mac),
            },
    {
        let key = Oui::from_addr(mac);
        let n = self.entries.len();
        let mut lo: usize = 0;
        let mut hi: usize = n;
        while lo < hi
            invariant
                lo <= hi <= n,
                n == self@.len(),
                db_wf(self@),
                forall|j: int| 0 <= j < lo ==> (#[trigger] self@[j].0).address <= mac,
                forall|j: int| hi <= j < n ==> (#[trigger] self@[j].0).address > mac,
            decreases hi - lo,
        {
            let mid = lo + (hi - lo) / 2;
            if self.entries[mid].0.address <= mac {
                proof {
                    assert forall|j: int| 0 <= j < mid + 1 implies (#[trigger] self@[j].0).address
                        <= mac by {
                        if j < mid {
                            assert(oui_lt(self@[j].0, self@[mid as int].0));
                        }
                    }
                }
                lo = mid + 1;
            } else {
                proof {
                    assert forall|j: int| mid <= j < n implies (#[trigger] self@[j].0).address
                        > mac by {
                        if j > mid {
                            assert(oui_lt(self@[mid as int].0, self@[j].0));
                        }
                    }
                }
                hi = mid;
            }
        }
        proof {
            assert forall|j: int| lo <= j < n implies !oui_matches(#[trigger] self@[j].0, mac) by {
                if oui_matches(self@[j].0, mac) {
                    lemma_match_le(self@[j].0, mac);
                }
            }
        }
        if lo == 0 {
            return None;
        }
        let mut i: usize = lo - 1;
        loop
            invariant
                mac_value_valid(mac),
                key == (Oui { address: mac, length: 48u8 }),
                n == self@.len(),
                db_wf(self@),
                i < lo <= n,
                forall|j: int| 0 <= j < lo ==> (#[trigger] self@[j].0).address <= mac,
                forall|j: int| i < j < n ==> !oui_matches(#[trigger] self@[j].0, mac),
            decreases i,
        {
            let hit = self.entries[i].0.contains(&key);
            proof {
                assert(oui_contains(self@[i as int].0, key) == oui_matches(self@[i as int].0, mac));
            }
            if hit {
                let o = self.entries[i].0;
                let m = self.entries[i].1.as_ref();
                proof {
                    let oi = self@[i as int].0;
                    assert(self@[i as int].0 == o && meta_view_eq(self@[i as int].1, m));
                    assert forall|j: int|
                        0 <= j < self@.len() && oui_matches(#[trigger] self@[j].0, mac) implies self@[j].0.length
                        <= o.length by {
                        if j < i {
                            assert(oui_lt(self@[j].0, oi));
                            lemma_match_order(self@[j].0, oi, mac);
                        }
                    }
                }
                return Some((o, m));
            }
            if self.entries[i].0.length <= 24 {
                proof {
                    let b = self@[i as int].0;
                    assert(b.length == 24);
                    assert forall|j: int| 0 <= j < n implies !oui_matches(
                        #[trigger] self@[j].0,
                        mac,
                    ) by {
                        if j < i {
                            assert(oui_lt(self@[j].0, b));
                            lemma_top_level_boundary(b, self@[j].0, mac);
                        }
                    }
                }
                return None;
            }
            if i == 0 {
                proof {
                    assert forall|j: int| 0 <= j < n implies !oui_matches(
                        #[trigger] self@[j].0,
                        mac,
                    ) by {}
                }
                return None;
            }
            i = i - 1;
        }
    }

    /// Every stored prefix with its metadata, in table order.
    pub fn raw_prefixes(&self) -> (r: Vec<(Oui, OuiMeta<&str>)>)
        ensures
            r@.len() == self@.len(),
            forall|i: int|
                0 <= i < r@.len() ==> (#[trigger] r@[i]).0 == self@[i].0 && meta_view_eq(
                    self@[i].1,
                    r@[i].1,
                ),
    {
        let n = self.entries.len();
        let mut r: Vec<(Oui, OuiMeta<&str>)> = Vec::new();
        let mut i: usize = 0;
        while i < n
            invariant
                i <= n,
                n == self@.len(),
                r@.len() == i,
                forall|j: int|
                    0 <= j < i ==> (#[trigger] r@[j]).0 == self@[j].0 && meta_view_eq(
                        self@[j].1,
                        r@[j].1,
                    ),
            decreases n - i,
        {
            let o = self.entries[i].0;
            let m = self.entries[i].1.as_ref();
            r.push((o, m));
            i = i + 1;
        }
        r
    }

    /// The longest covering prefix alone.
    pub fn search_prefix(&self, mac: u64) -> (r: Option<Oui>)
        requires
            mac_value_valid(mac),
            db_wf(self@),
        ensures
            match r {
                Some(o) => {
                    &&& exists|i: int| 0 <= i < self@.len() && #[trigger] self@[i].0 == o
                    &&& oui_matches(o, mac)
                    &&& forall|j: int|
                        0 <= j < self@.len() && oui_matches(#[trigger] self@[j].0, mac)
                            ==> self@[j].0.length <= o.length
                },
                None => forall|j: int|
                    0 <= j < self@.len() ==> !oui_matches(#[trigger] self@[j].0, mac),
            },
    {
        match self.search_entry(mac) {
            Some((o, _)) => Some(o),
            None => None,
        }
    }

    /// The longest covering prefix's metadata alone.
    pub fn search(&self, mac: u64) -> (r: Option<OuiMeta<&str>>)
        requires
            mac_value_valid(mac),
            db_wf(self@),
        ensures
            match r {
                Some(m) => exists|i: int|
                    0 <= i < self@.len() && oui_matches(#[trigger] self@[i].0, mac) && meta_view_eq(
                        self@[i].1,
                        m,
                    ) && forall|j: int|
                        0 <= j < self@.len() && oui_matches(#[trigger] self@[j].0, mac)
                            ==> self@[j].0.length <= self@[i].0.length,
                None => forall|j: int|
                    0 <= j < self@.len() ==> !oui_matches(#[trigger] self@[j].0, mac),
            },
    {
        match self.search_entry(mac) {
            Some((_, m)) => Some(m),
            None => None,
        }
    }
}


/// `s` without its leading `#` characters.
pub open spec fn drop_leading_hashes(s: Seq<char>) -> Seq<char>
    decreases s.len(),
{
    if s.len() > 0 && s[0] == '#' {
        drop_leading_hashes(s.skip(1))
    } else {
        s
    }
}

/// `s` without its trailing `#` characters.
pub open spec fn drop_trailing_hashes(s: Seq<char>) -> Seq<char>
    decreases s.len(),
{
    if s.len() > 0 && s.last() == '#' {
        drop_trailing_hashes(s.drop_last())
    } else {
        s
    }
}

/// A comment field cleaned up: `#` marks and whitespace trimmed from both
/// ends.
pub open spec fn strip_comment_marks(s: Seq<char>) -> Seq<char> {
    spec_trim(drop_leading_hashes(drop_trailing_hashes(s)))
}

proof fn lemma_drop_trailing_hashes_is_take(s: Seq<char>, j: int)
    requires
        0 <= j <= s.len(),
        forall|i: int| j <= i < s.len() ==> #[trigger] s[i] == '#',
        j > 0 ==> s[j - 1] != '#',
    ensures
        drop_trailing_hashes(s) == s.take(j),
    decreases s.len(),
{
    if s.len() > 0 && s.last() == '#' {
        assert(j < s.len());
        lemma_drop_trailing_hashes_is_take(s.drop_last(), j);
        assert(s.drop_last().take(j) =~= s.take(j));
    } else {
        assert(j == s.len());
        assert(s.take(j) =~= s);
    }
}

proof fn lemma_drop_leading_hashes_is_skip(s: Seq<char>, j: int)
    requires
        0 <= j <= s.len(),
        forall|i: int| 0 <= i < j ==> #[trigger] s[i] == '#',
        j < s.len() ==> s[j] != '#',
    ensures
        drop_leading_hashes(s) == s.skip(j),
    decreases j,
{
    if j > 0 {
        assert(s[0] == '#');
        assert(forall|i: int| 0 <= i < j - 1 ==> #[trigger] s.skip(1)[i] == s[i + 1]);
        lemma_drop_leading_hashes_is_skip(s.skip(1), j - 1);
        assert(s.skip(1).skip(j - 1) =~= s.skip(j));
    } else {
        if s.len() > 0 && s[0] == '#' {
            assert(false);
        }
        assert(s.skip(0) =~= s);
    }
}

/// The characters of `cs` with leading and trailing `#` marks removed.
fn trim_hashes(cs: &Vec<char>) -> (r: Vec<char>)
    ensures
        r@ == drop_leading_hashes(drop_trailing_hashes(cs@)),
{
    let n = cs.len();
    let mut end: usize = n;
    while end > 0 && cs[end - 1] == '#'
        invariant
            end <= n,
            n == cs@.len(),
            forall|i: int| end <= i < n ==> #[trigger] cs@[i] == '#',
        decreases end,
    {
        end = end - 1;
    }
    proof {
        lemma_drop_trailing_hashes_is_take(cs@, end as int);
    }
    let ghost t = cs@.take(end as int);
    let mut start: usize = 0;
    while start < end && cs[start] == '#'
        invariant
            start <= end,
            end <= n,
            n == cs@.len(),
            t == cs@.take(end as int),
            forall|i: int| 0 <= i < start ==> #[trigger] cs@[i] == '#',
        decreases end - start,
    {
        start = start + 1;
    }
    proof {
        assert(forall|i: int| 0 <= i < start ==> #[trigger] t[i] == cs@[i] && t[i] == '#');
        if start < end {
            assert(t[start as int] == cs@[start as int]);
        }
        lemma_drop_leading_hashes_is_skip(t, start as int);
    }
    let mut r: Vec<char> = Vec::new();
    let mut i: usize = start;
    while i < end
        invariant
            start <= i <= end,
            end <= cs@.len(),
            r@ == cs@.subrange(start as int, i as int),
        decreases end - i,
    {
        r.push(cs[i]);
        i = i + 1;
        proof {
            assert(cs@.subrange(start as int, i as int) =~= cs@.subrange(start as int, i - 1).push(
                cs@[i - 1],
            ));
        }
    }
    proof {
        assert(r@ =~= t.skip(start as int));
    }
    r
}

/// A row of the source, as plain values: stored address, declared length,
/// short name, optional long name, optional comment.
pub type DbRow = (nat, nat, Seq<char>, Option<Seq<char>>, Option<Seq<char>>);

/// The plain-value content of one table entry.
pub open spec fn entry_view(e: (Oui, OuiMeta<String>)) -> DbRow {
    (
        e.0.address as nat,
        e.0.length as nat,
        e.1.short@,
        match e.1.long {
            Some(s) => Some(s@),
            None => None,
        },
        match e.1.comment {
            Some(s) => Some(s@),
            None => None,
        },
    )
}

/// The plain-value contents of a sequence of entries.
pub open spec fn entry_views(s: Seq<(Oui, OuiMeta<String>)>) -> Seq<DbRow> {
    s.map_values(|e: (Oui, OuiMeta<String>)| entry_view(e))
}

/// A line matters when, trimmed, it is nonempty and no `#` comment.
pub open spec fn line_significant(l: Seq<char>) -> bool {
    let t = spec_trim(l);
    t.len() > 0 && t[0] != '#'
}

/// Tab-separated parts, each trimmed, empties dropped.
pub open spec fn fields_of(parts: Seq<Seq<char>>) -> Seq<Seq<char>>
    decreases parts.len(),
{
    if parts.len() == 0 {
        Seq::empty()
    } else if spec_trim(parts.last()).len() > 0 {
        fields_of(parts.drop_last()).push(spec_trim(parts.last()))
    } else {
        fields_of(parts.drop_last())
    }
}

/// The fields of one line: split on tabs, trimmed, empties dropped.
pub open spec fn line_fields(l: Seq<char>) -> Seq<Seq<char>> {
    fields_of(split_on(spec_trim(l), '\t'))
}

/// A significant line is well-formed: two to four fields, the first a valid
/// prefix.
pub open spec fn line_ok(l: Seq<char>) -> bool {
    let fs = line_fields(l);
    2 <= fs.len() <= 4 && oui_text_ok(fs[0])
}

/// The row a well-formed significant line denotes.
pub open spec fn line_row(l: Seq<char>) -> DbRow {
    let fs = line_fields(l);
    (
        oui_addr_val(fs[0]),
        oui_len_val(fs[0]),
        fs[1],
        if fs.len() >= 3 {
            Some(fs[2])
        } else {
            None
        },
        if fs.len() >= 4 {
            Some(strip_comment_marks(fs[3]))
        } else {
            None
        },
    )
}

/// The rows of a list of lines, in order, insignificant lines skipped.
pub open spec fn rows_of(ls: Seq<Seq<char>>) -> Seq<DbRow>
    decreases ls.len(),
{
    if ls.len() == 0 {
        Seq::empty()
    } else if line_significant(ls.last()) {
        rows_of(ls.drop_last()).push(line_row(ls.last()))
    } else {
        rows_of(ls.drop_last())
    }
}

/// The rows of whole source text.
pub open spec fn db_rows(txt: Seq<char>) -> Seq<DbRow> {
    rows_of(split_on(txt, '\n'))
}

/// Every significant line is well-formed.
pub open spec fn lines_ok(ls: Seq<Seq<char>>) -> bool {
    forall|i: int| 0 <= i < ls.len() && line_significant(#[trigger] ls[i]) ==> line_ok(ls[i])
}

/// No two rows declare the same (address, length) pair.
pub open spec fn rows_distinct(rows: Seq<DbRow>) -> bool {
    forall|i: int, j: int|
        0 <= i < j < rows.len() ==> !((#[trigger] rows[i]).0 == (#[trigger] rows[j]).0
            && rows[i].1 == rows[j].1)
}

/// Non-strict order on prefix keys.
pub open spec fn oui_key_le(a: Oui, b: Oui) -> bool {
    a.address < b.address || (a.address == b.address && a.length <= b.length)
}

/// Errors from building the table out of source text.
#[derive(Debug, Clone, PartialEq, Eq)]
pub enum DbParsingError {
    /// A record's prefix field does not parse; carries the line number, the
    /// prefix error, and the line.
    OuiParsing(usize, ParseOuiError, String),
    /// A record has fewer than two or more than four fields; carries the line
    /// number, the count, and the line.
    BadFieldCount(usize, usize, String),
    /// Two records declare the same (address, length) prefix.
    DuplicatedEntries,
}

/// A value occurring at two positions occurs at least twice.
proof fn lemma_dup_count<T>(s: Seq<T>, i: int, j: int)
    requires
        0 <= i < j < s.len(),
        s[i] == s[j],
    ensures
        s.to_multiset().count(s[i]) >= 2,
{
    broadcast use vstd::multiset::group_multiset_axioms;

    s.to_multiset_ensures();
    let s2 = s.remove(i);
    s2.to_multiset_ensures();
    assert(s2[j - 1] == s[j]);
    assert(s2.contains(s[i]));
    assert(s2.to_multiset() =~= s.to_multiset().remove(s[i]));
    assert(s2.to_multiset().count(s[i]) == s.to_multiset().count(s[i]) - 1);
}

/// A value occurring at least twice occurs at two positions.
proof fn lemma_two_indices<T>(s: Seq<T>, x: T)
    requires
        s.to_multiset().count(x) >= 2,
    ensures
        exists|i: int, j: int| 0 <= i < j < s.len() && #[trigger] s[i] == x && #[trigger] s[j] == x,
{
    broadcast use vstd::multiset::group_multiset_axioms;

    s.to_multiset_ensures();
    assert(s.contains(x));
    let i = choose|i: int| 0 <= i < s.len() && s[i] == x;
    let s2 = s.remove(i);
    s2.to_multiset_ensures();
    assert(s2.to_multiset() =~= s.to_multiset().remove(x));
    assert(s2.to_multiset().count(x) >= 1);
    assert(s2.contains(x));
    let k = choose|k: int| 0 <= k < s2.len() && s2[k] == x;
    if k < i {
        assert(s[k] == s2[k]);
        assert(s[k] == x && s[i] == x);
    } else {
        assert(s[k + 1] == s2[k]);
        assert(s[i] == x && s[k + 1] == x);
    }
}

/// Exec order test on prefix keys.
fn key_le(a: &Oui, b: &Oui) -> (r: bool)
    ensures
        r == oui_key_le(*a, *b),
{
    a.address < b.address || (a.address == b.address && a.length <= b.length)
}

/// Merge two runs sorted by (address, length), keeping the combined
/// contents.
fn merge_sorted(
    a: Vec<(Oui, OuiMeta<String>)>,
    b: Vec<(Oui, OuiMeta<String>)>,
) -> (r: Vec<(Oui, OuiMeta<String>)>)
    requires
        forall|i: int, j: int|
            0 <= i < j < a@.len() ==> oui_key_le((#[trigger] a@[i]).0, (#[trigger] a@[j]).0),
        forall|i: int, j: int|
            0 <= i < j < b@.len() ==> oui_key_le((#[trigger] b@[i]).0, (#[trigger] b@[j]).0),
    ensures
        r@.len() == a@.len() + b@.len(),
        r@.to_multiset() == a@.to_multiset().add(b@.to_multiset()),
        forall|i: int, j: int|
            0 <= i < j < r@.len() ==> oui_key_le((#[trigger] r@[i]).0, (#[trigger] r@[j]).0),
{
    let ghost oa = a@;
    let ghost ob = b@;
    let mut a = a;
    let mut b = b;
    let mut r: Vec<(Oui, OuiMeta<String>)> = Vec::new();
    proof {
        broadcast use vstd::multiset::group_multiset_axioms;

        r@.to_multiset_ensures();
        vstd::multiset::lemma_multiset_empty_len::<(Oui, OuiMeta<String>)>(r@.to_multiset());
        assert(r@.to_multiset().add(a@.to_multiset().add(b@.to_multiset()))
            =~= oa.to_multiset().add(ob.to_multiset()));
    }
    while a.len() > 0 || b.len() > 0
        invariant
            r@.len() + a@.len() + b@.len() == oa.len() + ob.len(),
            r@.to_multiset().add(a@.to_multiset().add(b@.to_multiset())) == oa.to_multiset().add(
                ob.to_multiset(),
            ),
            forall|i: int, j: int|
                0 <= i < j < a@.len() ==> oui_key_le((#[trigger] a@[i]).0, (#[trigger] a@[j]).0),
            forall|i: int, j: int|
                0 <= i < j < b@.len() ==> oui_key_le((#[trigger] b@[i]).0, (#[trigger] b@[j]).0),
            forall|i: int, j: int|
                0 <= i < j < r@.len() ==> oui_key_le((#[trigger] r@[i]).0, (#[trigger] r@[j]).0),
            forall|i: int, j: int|
                0 <= i < r@.len() && 0 <= j < a@.len() ==> oui_key_le(
                    (#[trigger] r@[i]).0,
                    (#[trigger] a@[j]).0,
                ),
            forall|i: int, j: int|
                0 <= i < r@.len() && 0 <= j < b@.len() ==> oui_key_le(
                    (#[trigger] r@[i]).0,
                    (#[trigger] b@[j]).0,
                ),
        decreases a@.len() + b@.len(),
    {
        let from_a = if b.len() == 0 {
            true
        } else if a.len() == 0 {
            false
        } else {
            key_le(&a[0].0, &b[0].0)
        };
        if from_a {
            let ghost old_a = a@;
            let ghost old_r = r@;
            let x = a.remove(0);
            r.push(x);
            proof {
                broadcast use vstd::multiset::group_multiset_axioms;

                old_a.to_multiset_ensures();
                old_r.to_multiset_ensures();
                assert(a@ =~= old_a.remove(0));
                assert(a@.to_multiset() =~= old_a.to_multiset().remove(x));
                assert(r@.to_multiset() =~= old_r.to_multiset().insert(x));
                assert(old_a.to_multiset().count(x) > 0) by {
                    assert(old_a.contains(x));
                }
                assert(r@.to_multiset().add(a@.to_multiset().add(b@.to_multiset()))
                    =~= oa.to_multiset().add(ob.to_multiset()));
                assert(forall|i: int| 0 <= i < a@.len() ==> #[trigger] a@[i] == old_a[i + 1]);
            }
        } else {
            let ghost old_b = b@;
            let ghost old_r = r@;
            let x = b.remove(0);
            r.push(x);
            proof {
                broadcast use vstd::multiset::group_multiset_axioms;

                old_b.to_multiset_ensures();
                old_r.to_multiset_ensures();
                assert(b@ =~= old_b.remove(0));
                assert(b@.to_multiset() =~= old_b.to_multiset().remove(x));
                assert(r@.to_multiset() =~= old_r.to_multiset().insert(x));
                assert(old_b.to_multiset().count(x) > 0) by {
                    assert(old_b.contains(x));
                }
                assert(r@.to_multiset().add(a@.to_multiset().add(b@.to_multiset()))
                    =~= oa.to_multiset().add(ob.to_multiset()));
                assert(forall|i: int| 0 <= i < b@.len() ==> #[trigger] b@[i] == old_b[i + 1]);
            }
        }
    }
    proof {
        broadcast use vstd::multiset::group_multiset_axioms;

        a@.to_multiset_ensures();
        b@.to_multiset_ensures();
        vstd::multiset::lemma_multiset_empty_len::<(Oui, OuiMeta<String>)>(a@.to_multiset());
        vstd::multiset::lemma_multiset_empty_len::<(Oui, OuiMeta<String>)>(b@.to_multiset());
        assert(r@.to_multiset() =~= oa.to_multiset().add(ob.to_multiset()));
    }
    r
}

/// Sort entries ascending by (address, length) with a merge sort, keeping
/// the contents.
fn sort_entries(src: Vec<(Oui, OuiMeta<String>)>) -> (r: Vec<(Oui, OuiMeta<String>)>)
    ensures
        r@.len() == src@.len(),
        r@.to_multiset() == src@.to_multiset(),
        forall|i: int, j: int|
            0 <= i < j < r@.len() ==> oui_key_le((#[trigger] r@[i]).0, (#[trigger] r@[j]).0),
    decreases src@.len(),
{
    let n = src.len();
    if n <= 1 {
        return src;
    }
    let ghost orig = src@;
    let mut left = src;
    let right = left.split_off(n / 2);
    proof {
        vstd::seq_lib::lemma_multiset_commutative(left@, right@);
        assert(left@ + right@ =~= orig);
    }
    let ls = sort_entries(left);
    let rs = sort_entries(right);
    merge_sorted(ls, rs)
}

/// Some entry of `s` carries exactly this row.
pub open spec fn row_present(s: Seq<(Oui, OuiMeta<String>)>, row: DbRow) -> bool {
    exists|i: int| 0 <= i < s.len() && entry_view(#[trigger] s[i]) == row
}

/// Two sorted neighbours with one (address, length) key witness a duplicate
/// among the parsed rows.
proof fn lemma_adjacent_dup(
    pre: Seq<(Oui, OuiMeta<String>)>,
    sorted: Seq<(Oui, OuiMeta<String>)>,
    rows: Seq<DbRow>,
    i: int,
)
    requires
        sorted.to_multiset() == pre.to_multiset(),
        entry_views(pre) == rows,
        0 <= i < sorted.len() - 1,
        sorted[i].0.address == sorted[i + 1].0.address,
        sorted[i].0.length == sorted[i + 1].0.length,
    ensures
        !rows_distinct(rows),
{
    broadcast use vstd::multiset::group_multiset_axioms;

    sorted.to_multiset_ensures();
    pre.to_multiset_ensures();
    let x = sorted[i];
    let y = sorted[i + 1];
    if x == y {
        lemma_dup_count(sorted, i, i + 1);
        assert(pre.to_multiset().count(x) >= 2);
        lemma_two_indices(pre, x);
        let (i2, j2) = choose|i2: int, j2: int|
            0 <= i2 < j2 < pre.len() && #[trigger] pre[i2] == x && #[trigger] pre[j2] == x;
        assert(rows[i2] == entry_view(pre[i2]));
        assert(rows[j2] == entry_view(pre[j2]));
        assert(!(rows_distinct(rows)));
    } else {
        assert(sorted.contains(x)) by {
            assert(sorted[i] == x);
        }
        assert(sorted.contains(y)) by {
            assert(sorted[i + 1] == y);
        }
        assert(sorted.to_multiset().count(x) > 0);
        assert(sorted.to_multiset().count(y) > 0);
        assert(pre.contains(x) && pre.contains(y));
        let i2 = choose|i2: int| 0 <= i2 < pre.len() && pre[i2] == x;
        let j2 = choose|j2: int| 0 <= j2 < pre.len() && pre[j2] == y;
        assert(i2 != j2);
        assert(rows[i2] == entry_view(pre[i2]));
        assert(rows[j2] == entry_view(pre[j2]));
        if i2 < j2 {
            assert(!(rows_distinct(rows)));
        } else {
            assert(!(rows_distinct(rows)));
        }
    }
}

/// Sorted entries without equal neighbouring keys are strictly sorted, and
/// the parsed rows carry no duplicate key at all.
proof fn lemma_no_dup_keys(
    pre: Seq<(Oui, OuiMeta<String>)>,
    sorted: Seq<(Oui, OuiMeta<String>)>,
    rows: Seq<DbRow>,
)
    requires
        sorted.to_multiset() == pre.to_multiset(),
        sorted.len() == pre.len(),
        entry_views(pre) == rows,
        forall|i: int, j: int|
            0 <= i < j < sorted.len() ==> oui_key_le((#[trigger] sorted[i]).0, (#[trigger] sorted[j]).0),
        forall|i: int|
            0 <= i < sorted.len() - 1 ==> !((#[trigger] sorted[i]).0.address == (
            #[trigger] sorted[i + 1]).0.address && sorted[i].0.length == sorted[i + 1].0.length),
    ensures
        db_sorted(sorted),
        rows_distinct(rows),
{
    broadcast use vstd::multiset::group_multiset_axioms;

    sorted.to_multiset_ensures();
    pre.to_multiset_ensures();
    assert forall|i: int, j: int| 0 <= i < j < sorted.len() implies oui_lt(
        (#[trigger] sorted[i]).0,
        (#[trigger] sorted[j]).0,
    ) by {
        if !oui_lt(sorted[i].0, sorted[j].0) {
            assert(oui_key_le(sorted[i].0, sorted[j].0));
            assert(sorted[i].0.address == sorted[j].0.address && sorted[i].0.length
                == sorted[j].0.length);
            assert(oui_key_le(sorted[i].0, sorted[i + 1].0));
            if i + 1 < j {
                assert(oui_key_le(sorted[i + 1].0, sorted[j].0));
            }
            assert(sorted[i].0.address == sorted[i + 1].0.address && sorted[i].0.length
                == sorted[i + 1].0.length);
            assert(false);
        }
    }
    assert forall|i2: int, j2: int| 0 <= i2 < j2 < rows.len() implies !((#[trigger] rows[i2]).0
        == (#[trigger] rows[j2]).0 && rows[i2].1 == rows[j2].1) by {
        if rows[i2].0 == rows[j2].0 && rows[i2].1 == rows[j2].1 {
            let x = pre[i2];
            let y = pre[j2];
            assert(rows[i2] == entry_view(x) && rows[j2] == entry_view(y));
            assert(x.0.address == y.0.address && x.0.length == y.0.length);
            if x == y {
                lemma_dup_count(pre, i2, j2);
                assert(sorted.to_multiset().count(x) >= 2);
                lemma_two_indices(sorted, x);
                let (p, q) = choose|p: int, q: int|
                    0 <= p < q < sorted.len() && #[trigger] sorted[p] == x && #[trigger] sorted[q]
                        == x;
                assert(oui_lt(sorted[p].0, sorted[q].0));
                assert(false);
            } else {
                assert(pre.contains(x)) by {
                    assert(pre[i2] == x);
                }
                assert(pre.contains(y)) by {
                    assert(pre[j2] == y);
                }
                assert(pre.to_multiset().count(x) > 0);
                assert(pre.to_multiset().count(y) > 0);
                assert(sorted.contains(x) && sorted.contains(y));
                let p = choose|p: int| 0 <= p < sorted.len() && sorted[p] == x;
                let q = choose|q: int| 0 <= q < sorted.len() && sorted[q] == y;
                assert(p != q);
                if p < q {
                    assert(oui_lt(sorted[p].0, sorted[q].0));
                } else {
                    assert(oui_lt(sorted[q].0, sorted[p].0));
                }
                assert(false);
            }
        }
    }
}

/// After sorting, a duplicate-free parse is a well-formed table carrying
/// exactly the parsed rows.
proof fn lemma_sorted_entries_ok(
    pre: Seq<(Oui, OuiMeta<String>)>,
    sorted: Seq<(Oui, OuiMeta<String>)>,
    rows: Seq<DbRow>,
)
    requires
        sorted.to_multiset() == pre.to_multiset(),
        sorted.len() == pre.len(),
        forall|i: int, j: int|
            0 <= i < j < sorted.len() ==> oui_key_le((#[trigger] sorted[i]).0, (#[trigger] sorted[j]).0),
        entry_views(pre) == rows,
        rows_distinct(rows),
        forall|i: int| 0 <= i < pre.len() ==> oui_wf((#[trigger] pre[i]).0),
    ensures
        db_sorted(sorted),
        forall|i: int| 0 <= i < sorted.len() ==> oui_wf((#[trigger] sorted[i]).0),
        forall|i: int| 0 <= i < sorted.len() ==> rows.contains(entry_view(#[trigger] sorted[i])),
        forall|j: int| 0 <= j < rows.len() ==> row_present(sorted, #[trigger] rows[j]),
{
    broadcast use vstd::multiset::group_multiset_axioms;

    sorted.to_multiset_ensures();
    pre.to_multiset_ensures();
    assert forall|i: int| 0 <= i < sorted.len() implies exists|j: int|
        0 <= j < pre.len() && pre[j] == #[trigger] sorted[i] by {
        assert(sorted.contains(sorted[i]));
        assert(sorted.to_multiset().count(sorted[i]) > 0);
        assert(pre.contains(sorted[i]));
    }
    assert forall|j: int| 0 <= j < pre.len() implies exists|i: int|
        0 <= i < sorted.len() && sorted[i] == #[trigger] pre[j] by {
        assert(pre.contains(pre[j]));
        assert(pre.to_multiset().count(pre[j]) > 0);
        assert(sorted.contains(pre[j]));
    }
    assert forall|i: int, j: int| 0 <= i < j < sorted.len() implies oui_lt(
        (#[trigger] sorted[i]).0,
        (#[trigger] sorted[j]).0,
    ) by {
        let x = sorted[i];
        let y = sorted[j];
        assert(oui_key_le(x.0, y.0));
        if !oui_lt(x.0, y.0) {
            assert(x.0.address == y.0.address && x.0.length == y.0.length);
            if x == y {
                lemma_dup_count(sorted, i, j);
                assert(pre.to_multiset().count(x) >= 2);
                lemma_two_indices(pre, x);
                let (i2, j2) = choose|i2: int, j2: int|
                    0 <= i2 < j2 < pre.len() && #[trigger] pre[i2] == x && #[trigger] pre[j2] == x;
                assert(rows[i2] == entry_view(pre[i2]));
                assert(rows[j2] == entry_view(pre[j2]));
                assert(false);
            } else {
                assert(sorted.contains(x) && sorted.contains(y));
                assert(pre.contains(x) && pre.contains(y));
                let i2 = choose|i2: int| 0 <= i2 < pre.len() && pre[i2] == x;
                let j2 = choose|j2: int| 0 <= j2 < pre.len() && pre[j2] == y;
                assert(i2 != j2);
                assert(rows[i2] == entry_view(pre[i2]));
                assert(rows[j2] == entry_view(pre[j2]));
                if i2 < j2 {
                    assert(!(rows[i2].0 == rows[j2].0 && rows[i2].1 == rows[j2].1));
                } else {
                    assert(!(rows[j2].0 == rows[i2].0 && rows[j2].1 == rows[i2].1));
                }
                assert(false);
            }
        }
    }
    assert forall|i: int| 0 <= i < sorted.len() implies oui_wf((#[trigger] sorted[i]).0) by {
        let j = choose|j: int| 0 <= j < pre.len() && pre[j] == sorted[i];
        assert(oui_wf(pre[j].0));
    }
    assert forall|i: int| 0 <= i < sorted.len() implies rows.contains(
        entry_view(#[trigger] sorted[i]),
    ) by {
        let j = choose|j: int| 0 <= j < pre.len() && pre[j] == sorted[i];
        assert(rows[j] == entry_view(pre[j]));
    }
    assert forall|j: int| 0 <= j < rows.len() implies row_present(sorted, #[trigger] rows[j]) by {
        let i = choose|i: int| 0 <= i < sorted.len() && sorted[i] == pre[j];
        assert(rows[j] == entry_view(pre[j]));
        assert(entry_view(sorted[i]) == rows[j]);
    }
}

/// The vendor-prefix table builder and its lookup API.
impl OuiDb {
    /// Build a table from tab-separated source text: `#`-comment and blank
    /// lines skipped, each record a prefix plus two to four fields, entries
    /// sorted ascending, duplicate (address, length) pairs rejected.
    #[verifier::rlimit(100)]
    pub fn parse_from_string(txt: &str) -> (r: Result<OuiDb, DbParsingError>)
        ensures
            match r {
                Ok(db) => {
                    let rows = db_rows(txt@);
                    &&& lines_ok(split_on(txt@, '\n'))
                    &&& rows_distinct(rows)
                    &&& db_wf(db@)
                    &&& db@.len() == rows.len()
                    &&& forall|i: int|
                        0 <= i < db@.len() ==> rows.contains(entry_view(#[trigger] db@[i]))
                    &&& forall|j: int| 0 <= j < rows.len() ==> row_present(db@, #[trigger] rows[j])
                },
                Err(DbParsingError::BadFieldCount(lnum, cnt, l)) => {
                    let ls = split_on(txt@, '\n');
                    &&& 0 <= (lnum as int) < ls.len()
                    &&& line_significant(ls[lnum as int])
                    &&& l@ == spec_trim(ls[lnum as int])
                    &&& cnt as int == line_fields(ls[lnum as int]).len()
                    &&& !(2 <= cnt <= 4)
                },
                Err(DbParsingError::OuiParsing(lnum, _, l)) => {
                    let ls = split_on(txt@, '\n');
                    &&& 0 <= (lnum as int) < ls.len()
                    &&& line_significant(ls[lnum as int])
                    &&& l@ == spec_trim(ls[lnum as int])
                    &&& 2 <= line_fields(ls[lnum as int]).len() <= 4
                    &&& !oui_text_ok(line_fields(ls[lnum as int])[0])
                },
                Err(DbParsingError::DuplicatedEntries) => {
                    &&& lines_ok(split_on(txt@, '\n'))
                    &&& !rows_distinct(db_rows(txt@))
                },
            },
            r is Ok <==> (lines_ok(split_on(txt@, '\n')) && rows_distinct(db_rows(txt@))),
    {
        let cs = str_chars(txt);
        let lines = split_chars(&cs, '\n');
        let ghost lv = views_of(lines@);
        let nl = lines.len();
        let mut parsed: Vec<(Oui, OuiMeta<String>)> = Vec::new();
        let mut lnum: usize = 0;
        proof {
            assert(lv.take(0) =~= Seq::<Seq<char>>::empty());
            assert(entry_views(parsed@) =~= rows_of(lv.take(0)));
        }
        while lnum < nl
            invariant
                lnum <= nl,
                nl == lines@.len(),
                lv == views_of(lines@),
                lv == split_on(cs@, '\n'),
                cs@ == txt@,
                entry_views(parsed@) == rows_of(lv.take(lnum as int)),
                forall|i: int|
                    0 <= i < lnum && line_significant(#[trigger] lv[i]) ==> line_ok(lv[i]),
                forall|i: int| 0 <= i < parsed@.len() ==> oui_wf((#[trigger] parsed@[i]).0),
            decreases nl - lnum,
        {
            proof {
                assert(lv.take(lnum + 1).drop_last() =~= lv.take(lnum as int));
                assert(lv.take(lnum + 1).last() == lv[lnum as int]);
                assert(lines@[lnum as int]@ == lv[lnum as int]);
            }
            let t = trim_spaces(&lines[lnum]);
            let significant = t.len() > 0 && !(t[0] == '#');
            proof {
                assert(significant == line_significant(lv[lnum as int]));
            }
            if significant {
                let parts = split_chars(&t, '\t');
                let ghost pv = views_of(parts@);
                let mut fields: Vec<Vec<char>> = Vec::new();
                let mut pi: usize = 0;
                proof {
                    assert(pv.take(0) =~= Seq::<Seq<char>>::empty());
                    assert(views_of(fields@) =~= fields_of(pv.take(0)));
                }
                while pi < parts.len()
                    invariant
                        pi <= parts@.len(),
                        pv == views_of(parts@),
                        views_of(fields@) == fields_of(pv.take(pi as int)),
                    decreases parts@.len() - pi,
                {
                    proof {
                        assert(pv.take(pi + 1).drop_last() =~= pv.take(pi as int));
                        assert(pv.take(pi + 1).last() == pv[pi as int]);
                        assert(parts@[pi as int]@ == pv[pi as int]);
                    }
                    let f = trim_spaces(&parts[pi]);
                    if f.len() > 0 {
                        let ghost old_fields = views_of(fields@);
                        fields.push(f);
                        proof {
                            assert(views_of(fields@) =~= old_fields.push(f@));
                        }
                    }
                    proof {
                        assert(views_of(fields@) =~= fields_of(pv.take(pi + 1)));
                    }
                    pi = pi + 1;
                }
                proof {
                    assert(pv.take(parts@.len() as int) =~= pv);
                    assert(views_of(fields@) == line_fields(lv[lnum as int]));
                }
                let nf = fields.len();
                proof {
                    assert(fields@.len() == views_of(fields@).len());
                }
                if nf < 2 || nf > 4 {
                    return Err(DbParsingError::BadFieldCount(lnum, nf, chars_to_string(&t)));
                }
                proof {
                    assert(fields@[0]@ == line_fields(lv[lnum as int])[0]);
                    assert(fields@[1]@ == line_fields(lv[lnum as int])[1]);
                }
                let f0 = chars_to_string(&fields[0]);
                let oui = match Oui::from_str(f0.as_str()) {
                    Err(e) => {
                        return Err(DbParsingError::OuiParsing(lnum, e, chars_to_string(&t)));
                    },
                    Ok(o) => o,
                };
                let short = chars_to_string(&fields[1]);
                let long = if nf >= 3 {
                    proof {
                        assert(fields@[2]@ == line_fields(lv[lnum as int])[2]);
                    }
                    Some(chars_to_string(&fields[2]))
                } else {
                    None
                };
                let comment = if nf >= 4 {
                    proof {
                        assert(fields@[3]@ == line_fields(lv[lnum as int])[3]);
                    }
                    let h = trim_hashes(&fields[3]);
                    let h2 = trim_spaces(&h);
                    Some(chars_to_string(&h2))
                } else {
                    None
                };
                let ghost old_views = entry_views(parsed@);
                parsed.push((oui, OuiMeta { short, long, comment }));
                proof {
                    assert(entry_view(parsed@.last()) == line_row(lv[lnum as int]));
                    assert(entry_views(parsed@) =~= old_views.push(line_row(lv[lnum as int])));
                    assert(entry_views(parsed@) =~= rows_of(lv.take(lnum + 1)));
                }
            } else {
                proof {
                    assert(rows_of(lv.take(lnum + 1)) == rows_of(lv.take(lnum as int)));
                }
            }
            lnum = lnum + 1;
        }
        proof {
            assert(lv.take(nl as int) =~= lv);
        }
        let ghost rows = db_rows(txt@);
        proof {
            assert(entry_views(parsed@) == rows);
            assert(parsed@.len() == rows.len());
        }

        let ghost pre_sort = parsed@;
        let sorted = sort_entries(parsed);
        // Neighbouring entries with one key witness a duplicate record.
        let ns = sorted.len();
        let mut di: usize = 1;
        while di < ns
            invariant
                1 <= di,
                di <= ns || ns == 0,
                ns == sorted@.len(),
                ns == pre_sort.len(),
                sorted@.to_multiset() == pre_sort.to_multiset(),
                rows == entry_views(pre_sort),
                rows == db_rows(txt@),
                lv == split_on(txt@, '\n'),
                lines_ok(lv),
                forall|i: int, j: int|
                    0 <= i < j < sorted@.len() ==> oui_key_le(
                        (#[trigger] sorted@[i]).0,
                        (#[trigger] sorted@[j]).0,
                    ),
                forall|i: int| 0 <= i < pre_sort.len() ==> oui_wf((#[trigger] pre_sort[i]).0),
                forall|i: int|
                    0 <= i < di - 1 ==> !((#[trigger] sorted@[i]).0.address == (
                    #[trigger] sorted@[i + 1]).0.address && sorted@[i].0.length == sorted@[i
                        + 1].0.length),
            decreases ns - di,
        {
            if sorted[di - 1].0.address == sorted[di].0.address && sorted[di - 1].0.length
                == sorted[di].0.length {
                proof {
                    lemma_adjacent_dup(pre_sort, sorted@, rows, di - 1);
                }
                return Err(DbParsingError::DuplicatedEntries);
            }
            di = di + 1;
        }
        proof {
            lemma_no_dup_keys(pre_sort, sorted@, rows);
            assert(rows_distinct(rows));
            lemma_sorted_entries_ok(pre_sort, sorted@, rows);
        }
        let db = OuiDb { entries: sorted };
        proof {
            assert(db@ == sorted@);
            assert(rows == db_rows(txt@));
            assert(db@.len() == rows.len());
            assert forall|j: int| 0 <= j < db_rows(txt@).len() implies row_present(
                db@,
                #[trigger] db_rows(txt@)[j],
            ) by {
                assert(db_rows(txt@)[j] == rows[j]);
                assert(row_present(db@, rows[j]));
            }
            assert forall|i: int| 0 <= i < db@.len() implies db_rows(txt@).contains(
                entry_view(#[trigger] db@[i]),
            ) by {
                assert(rows.contains(entry_view(db@[i])));
            }
        }
        Ok(db)
    }
}

} // verus!
