//! Host-facing MAC operations: tolerant formatting with a style specifier and
//! handling flags, and vendor lookups against a prefix table.

use vstd::prelude::*;

use crate::mac::{format_chars, grouped, group_join, mac_digit_chars, mac_parse_ok,
    mac_parse_value, parse_mac_addr, MacStyle, ParseMacError};
use crate::oui::{db_wf, meta_view_eq, oui_matches, oui_wf, Oui, OuiDb, OuiMeta};
use crate::text::{chars_eq_str, chars_to_string, dec_chars, format_u8_decimal, str_chars};

verus! {

/// Errors of the host-facing MAC formatter.
#[derive(Debug, Clone, PartialEq, Eq)]
pub enum MacFormatError {
    /// The format specifier mixes upper and lower case; case picks the output
    /// casing, so it must be uniform.
    MixedCaseFmtSpecifier,
    /// The format specifier names no known style; carries it.
    BadFmtSpecifier(String),
    /// The MAC text does not parse.
    MacParsing(ParseMacError),
}

/// The specifier with its leading `~` and `?` flags removed.
pub open spec fn strip_flags(f: Seq<char>) -> Seq<char>
    decreases f.len(),
{
    if f.len() > 0 && (f[0] == '~' || f[0] == '?') {
        strip_flags(f.skip(1))
    } else {
        f
    }
}

/// Whether the leading flags hold a `~`: fall back to the default style on an
/// unknown specifier.
pub open spec fn flag_tilde(f: Seq<char>) -> bool
    decreases f.len(),
{
    if f.len() > 0 && f[0] == '~' {
        true
    } else if f.len() > 0 && f[0] == '?' {
        flag_tilde(f.skip(1))
    } else {
        false
    }
}

/// Whether the leading flags hold a `?`: yield null on a bad MAC address.
pub open spec fn flag_question(f: Seq<char>) -> bool
    decreases f.len(),
{
    if f.len() > 0 && f[0] == '?' {
        true
    } else if f.len() > 0 && f[0] == '~' {
        flag_question(f.skip(1))
    } else {
        false
    }
}

/// An ASCII uppercase letter.
pub open spec fn is_upper(c: char) -> bool {
    65 <= c as u32 && c as u32 <= 90
}

/// An ASCII lowercase letter.
pub open spec fn is_lower(c: char) -> bool {
    97 <= c as u32 && c as u32 <= 122
}

/// The character lowercased, ASCII only.
pub open spec fn lower_char(c: char) -> char {
    if is_upper(c) {
        (((c as u32) + 32) as u8) as char
    } else {
        c
    }
}

/// The specifier lowercased.
pub open spec fn lower_seq(f: Seq<char>) -> Seq<char> {
    f.map_values(|c: char| lower_char(c))
}

/// The style a lowercased specifier names.
pub open spec fn spec_style_of(f: Seq<char>) -> Option<MacStyle> {
    if f == Seq::<char>::empty() || f == "hex"@ || f == "hexstring"@ || f == "colon"@ {
        Some(MacStyle::Colon)
    } else if f == "hexadecimal"@ {
        Some(MacStyle::Prefixed)
    } else if f == "bare"@ {
        Some(MacStyle::Plain)
    } else if f == "dot"@ {
        Some(MacStyle::Dots)
    } else if f == "dash"@ || f == "canonical"@ {
        Some(MacStyle::Dashed)
    } else if f == "interface-id"@ {
        Some(MacStyle::InterfaceId)
    } else if f == "link-local"@ {
        Some(MacStyle::LinkLocal)
    } else {
        None
    }
}

/// The style the whole specifier resolves to, falling back to the default
/// under the `~` flag.
pub open spec fn resolved_style(f: Seq<char>) -> Option<MacStyle> {
    match spec_style_of(lower_seq(strip_flags(f))) {
        Some(s) => Some(s),
        None => if flag_tilde(f) {
            Some(MacStyle::Colon)
        } else {
            None
        },
    }
}

/// Whether the stripped specifier holds an uppercase letter: the output is
/// then uppercase.
pub open spec fn fmt_upper(f: Seq<char>) -> bool {
    exists|i: int| 0 <= i < strip_flags(f).len() && is_upper(#[trigger] strip_flags(f)[i])
}

/// Whether the stripped specifier holds a lowercase letter.
pub open spec fn fmt_lower(f: Seq<char>) -> bool {
    exists|i: int| 0 <= i < strip_flags(f).len() && is_lower(#[trigger] strip_flags(f)[i])
}

/// Exec mirror of [`lower_char`].
fn lower_char_exec(c: char) -> (r: char)
    ensures
        r == lower_char(c),
{
    let u = c as u32;
    if 65 <= u && u <= 90 {
        proof {
            assert(((u + 32) as u8) as u32 == u + 32) by (bit_vector)
                requires
                    65 <= u && u <= 90,
            ;
        }
        ((u + 32) as u8) as char
    } else {
        c
    }
}

/// The view of an optional specifier: its characters, or empty.
pub open spec fn fmt_view(fmt: Option<&str>) -> Seq<char> {
    match fmt {
        Some(t) => t@,
        None => Seq::empty(),
    }
}

/// Resolve a host format specifier: strip the `~`/`?` flags, reject mixed
/// case, map the lowercased name to a style. Yields the style, the `?` flag,
/// and whether output is uppercase.
#[verifier::rlimit(60)]
fn resolve_specifier(fmt: Option<&str>) -> (r: Result<(MacStyle, bool, bool), MacFormatError>)
    ensures
        ({
            let f = fmt_view(fmt);
            match r {
                Ok((style, question, upper)) => {
                    &&& !(fmt_upper(f) && fmt_lower(f) && !flag_tilde(f))
                    &&& resolved_style(f) == Some(style)
                    &&& question == flag_question(f)
                    &&& upper == fmt_upper(f)
                },
                Err(MacFormatError::MixedCaseFmtSpecifier) => fmt is Some && fmt_upper(f)
                    && fmt_lower(f) && !flag_tilde(f),
                Err(MacFormatError::BadFmtSpecifier(t)) => fmt is Some && !(fmt_upper(f)
                    && fmt_lower(f)) && resolved_style(f) is None && t@ == strip_flags(f),
                Err(MacFormatError::MacParsing(_)) => false,
            }
        }),
{
    let ghost f = fmt_view(fmt);
    let fc: Vec<char> = match fmt {
        Some(ft) => str_chars(ft),
        None => Vec::new(),
    };
    proof {
        assert(fc@ == f);
    }
    // Strip the leading flags.
    let n = fc.len();
    let mut st: usize = 0;
    let mut tilde = false;
    let mut question = false;
    proof {
        assert(fc@.skip(0) =~= fc@);
    }
    while st < n && (fc[st] == '~' || fc[st] == '?')
        invariant
            st <= n,
            n == fc@.len(),
            strip_flags(fc@) == strip_flags(fc@.skip(st as int)),
            flag_tilde(fc@) == (tilde || flag_tilde(fc@.skip(st as int))),
            flag_question(fc@) == (question || flag_question(fc@.skip(st as int))),
        decreases n - st,
    {
        proof {
            assert(fc@.skip(st as int).skip(1) =~= fc@.skip(st + 1));
            assert(fc@.skip(st as int)[0] == fc@[st as int]);
        }
        if fc[st] == '~' {
            tilde = true;
        } else {
            question = true;
        }
        st = st + 1;
    }
    proof {
        if st < n {
            assert(fc@.skip(st as int)[0] == fc@[st as int]);
        }
        assert(strip_flags(fc@.skip(st as int)) == fc@.skip(st as int));
        assert(flag_tilde(fc@.skip(st as int)) == false);
        assert(flag_question(fc@.skip(st as int)) == false);
    }
    let ghost core = strip_flags(f);
    // Case of the specifier.
    let mut has_upper = false;
    let mut has_lower = false;
    let mut i: usize = st;
    while i < n
        invariant
            st <= i <= n,
            n == fc@.len(),
            core == fc@.skip(st as int),
            has_upper == exists|j: int| st <= j < i && is_upper(#[trigger] fc@[j]),
            has_lower == exists|j: int| st <= j < i && is_lower(#[trigger] fc@[j]),
        decreases n - i,
    {
        let u = fc[i] as u32;
        if 65 <= u && u <= 90 {
            has_upper = true;
        }
        if 97 <= u && u <= 122 {
            has_lower = true;
        }
        i = i + 1;
    }
    proof {
        assert(fmt_upper(f) == has_upper && fmt_lower(f) == has_lower) by {
            assert(forall|j: int| 0 <= j < core.len() ==> #[trigger] core[j] == fc@[j + st]);
            if has_upper {
                let j = choose|j: int| st <= j < n && is_upper(#[trigger] fc@[j]);
                assert(is_upper(core[j - st]));
            }
            if fmt_upper(f) {
                let j = choose|j: int| 0 <= j < core.len() && is_upper(#[trigger] core[j]);
                assert(is_upper(fc@[j + st]));
            }
            if has_lower {
                let j = choose|j: int| st <= j < n && is_lower(#[trigger] fc@[j]);
                assert(is_lower(core[j - st]));
            }
            if fmt_lower(f) {
                let j = choose|j: int| 0 <= j < core.len() && is_lower(#[trigger] core[j]);
                assert(is_lower(fc@[j + st]));
            }
        }
    }
    if has_upper && has_lower && !tilde {
        return Err(MacFormatError::MixedCaseFmtSpecifier);
    }
    // Lowercase the specifier and resolve the style.
    let mut lowered: Vec<char> = Vec::new();
    let mut k: usize = st;
    proof {
        assert(lowered@ =~= lower_seq(core.take(0)));
    }
    while k < n
        invariant
            st <= k <= n,
            n == fc@.len(),
            core == fc@.skip(st as int),
            lowered@ == lower_seq(core.take(k - st)),
        decreases n - k,
    {
        lowered.push(lower_char_exec(fc[k]));
        k = k + 1;
        proof {
            assert(core.take(k - st)[k - st - 1] == fc@[k - 1]);
            assert(lowered@ =~= lower_seq(core.take(k - st)));
        }
    }
    proof {
        assert(core.take(core.len() as int) =~= core);
    }
    let style: Option<MacStyle> = if lowered.len() == 0 || chars_eq_str(&lowered, "hex")
        || chars_eq_str(&lowered, "hexstring") || chars_eq_str(&lowered, "colon") {
        proof {
            if lowered@.len() == 0 {
                assert(lowered@ =~= Seq::<char>::empty());
            }
        }
        Some(MacStyle::Colon)
    } else if chars_eq_str(&lowered, "hexadecimal") {
        Some(MacStyle::Prefixed)
    } else if chars_eq_str(&lowered, "bare") {
        Some(MacStyle::Plain)
    } else if chars_eq_str(&lowered, "dot") {
        Some(MacStyle::Dots)
    } else if chars_eq_str(&lowered, "dash") || chars_eq_str(&lowered, "canonical") {
        Some(MacStyle::Dashed)
    } else if chars_eq_str(&lowered, "interface-id") {
        Some(MacStyle::InterfaceId)
    } else if chars_eq_str(&lowered, "link-local") {
        Some(MacStyle::LinkLocal)
    } else {
        None
    };
    let style = match style {
        Some(s) => s,
        None => {
            if tilde {
                MacStyle::Colon
            } else {
                let mut core_text: Vec<char> = Vec::new();
                let mut ci: usize = st;
                while ci < n
                    invariant
                        st <= ci <= n,
                        n == fc@.len(),
                        core_text@ == fc@.subrange(st as int, ci as int),
                    decreases n - ci,
                {
                    core_text.push(fc[ci]);
                    ci = ci + 1;
                    proof {
                        assert(fc@.subrange(st as int, ci as int) =~= fc@.subrange(
                            st as int,
                            ci - 1,
                        ).push(fc@[ci - 1]));
                    }
                }
                proof {
                    assert(core_text@ =~= core);
                }
                return Err(MacFormatError::BadFmtSpecifier(chars_to_string(&core_text)));
            }
        },
    };
    proof {
        assert(Some(style) == resolved_style(f));
    }
    Ok((style, question, has_upper))
}

/// Format MAC text under a host-style specifier: flags `~` (default style on
/// a bad specifier) and `?` (null on a bad MAC) first, then a case-uniform
/// style name; the specifier's case picks the output case.
pub fn format(mac_text: &str, fmt: Option<&str>) -> (r: Result<Option<String>, MacFormatError>)
    ensures
        ({
            let f = fmt_view(fmt);
            let style = resolved_style(f);
            match r {
                Err(MacFormatError::MixedCaseFmtSpecifier) => fmt is Some && fmt_upper(f)
                    && fmt_lower(f) && !flag_tilde(f),
                Err(MacFormatError::BadFmtSpecifier(t)) => fmt is Some && !(fmt_upper(f)
                    && fmt_lower(f)) && style is None && t@ == strip_flags(f),
                Err(MacFormatError::MacParsing(_)) => !(fmt_upper(f) && fmt_lower(f) && !flag_tilde(
                    f,
                )) && style is Some && !flag_question(f) && !mac_parse_ok(mac_text@, false),
                Ok(None) => !(fmt_upper(f) && fmt_lower(f) && !flag_tilde(f)) && style is Some
                    && flag_question(f) && !mac_parse_ok(mac_text@, false),
                Ok(Some(t)) => !(fmt_upper(f) && fmt_lower(f) && !flag_tilde(f)) && style is Some
                    && mac_parse_ok(mac_text@, false) && exists|v: u64|
                    v as nat == mac_parse_value(mac_text@, false) && t@ == #[trigger] format_chars(
                        resolved_style(fmt_view(fmt))->0,
                        v,
                        fmt_upper(fmt_view(fmt)),
                    ),
            }
        }),
{
    let (style, question, upper) = match resolve_specifier(fmt) {
        Ok(x) => x,
        Err(e) => {
            return Err(e);
        },
    };
    let v = match parse_mac_addr(mac_text) {
        Ok(v) => v,
        Err(e) => {
            if question {
                return Ok(None);
            }
            return Err(MacFormatError::MacParsing(e));
        },
    };
    let ghost f = fmt_view(fmt);
    let t = style.format(v, upper);
    proof {
        assert(resolved_style(f) == Some(style));
        assert(t@ == format_chars(resolved_style(f)->0, v, fmt_upper(f)));
        assert(v as nat == mac_parse_value(mac_text@, false));
        assert(!(fmt_upper(f) && fmt_lower(f) && !flag_tilde(f)));
        assert(resolved_style(f) is Some);
        assert(mac_parse_ok(mac_text@, false));
        assert(exists|v2: u64|
            v2 as nat == mac_parse_value(mac_text@, false) && t@ == #[trigger] format_chars(
                resolved_style(f)->0,
                v2,
                fmt_upper(f),
            ));
    }
    Ok(Some(t))
}

/// No stored prefix covers the key.
pub open spec fn no_match_for(db: Seq<(Oui, OuiMeta<String>)>, v: u64) -> bool {
    forall|j: int| 0 <= j < db.len() ==> !oui_matches(#[trigger] db[j].0, v)
}

/// Every stored prefix covering the key is at most `len` bits long.
pub open spec fn longest_match(db: Seq<(Oui, OuiMeta<String>)>, v: u64, len: u8) -> bool {
    forall|j: int| 0 <= j < db.len() && oui_matches(#[trigger] db[j].0, v) ==> db[j].0.length <= len
}

/// Look a MAC address up in the table: empty text is null, bad text an error,
/// otherwise the longest matching prefix entry, or null when none matches.
pub fn find_mac<'a>(db: &'a OuiDb, mac_text: &str) -> (r: Result<
    Option<(Oui, OuiMeta<&'a str>)>,
    ParseMacError,
>)
    requires
        db_wf(db@),
    ensures
        match r {
            Ok(Some(om)) => {
                &&& mac_text@.len() > 0
                &&& mac_parse_ok(mac_text@, false)
                &&& exists|v: u64, i: int|
                    {
                        &&& v as nat == mac_parse_value(mac_text@, false)
                        &&& 0 <= i < db@.len()
                        &&& db@[i].0 == om.0
                        &&& meta_view_eq(db@[i].1, om.1)
                        &&& #[trigger] oui_matches(db@[i].0, v)
                        &&& longest_match(db@, v, om.0.length)
                    }
            },
            Ok(None) => mac_text@.len() == 0 || (mac_parse_ok(mac_text@, false) && exists|v: u64|
                v as nat == mac_parse_value(mac_text@, false) && #[trigger] no_match_for(db@, v)),
            Err(_) => mac_text@.len() > 0 && !mac_parse_ok(mac_text@, false),
        },
        r is Ok <==> (mac_text@.len() == 0 || mac_parse_ok(mac_text@, false)),
{
    if mac_text.unicode_len() == 0 {
        return Ok(None);
    }
    let v = match parse_mac_addr(mac_text) {
        Ok(v) => v,
        Err(e) => {
            return Err(e);
        },
    };
    let res = db.search_entry(v);
    proof {
        if res is Some {
            let om = res->0;
            let i = choose|i: int|
                0 <= i < db@.len() && #[trigger] db@[i].0 == om.0 && meta_view_eq(db@[i].1, om.1);
            assert(oui_matches(db@[i].0, v));
            assert(longest_match(db@, v, om.0.length)) by {
                assert forall|j: int|
                    0 <= j < db@.len() && oui_matches(#[trigger] db@[j].0, v) implies db@[j].0.length
                    <= om.0.length by {}
            }
        } else {
            assert(no_match_for(db@, v));
        }
    }
    Ok(res)
}

/// The text of a vendor prefix: three octets for a 24-bit prefix, otherwise
/// the full six octets and `/length`.
pub open spec fn oui_chars(o: Oui) -> Seq<char> {
    if o.length == 24 {
        grouped(crate::mac::mac_nibble_chars(o.address, false).take(6), ':', 2)
    } else {
        grouped(crate::mac::mac_nibble_chars(o.address, false), ':', 2) + seq!['/'] + dec_chars(
            o.length as nat,
        )
    }
}

impl Oui {
    /// This prefix as text.
    pub fn to_text(&self) -> (r: String)
        requires
            oui_wf(*self),
        ensures
            r@ == oui_chars(*self),
    {
        let d = mac_digit_chars(self.address, false);
        if self.length == 24 {
            let mut top: Vec<char> = Vec::new();
            let mut i: usize = 0;
            while i < 6
                invariant
                    i <= 6,
                    d@.len() == 12,
                    top@ == d@.subrange(0, i as int),
                decreases 6 - i,
            {
                top.push(d[i]);
                i = i + 1;
                proof {
                    assert(d@.subrange(0, i as int) =~= d@.subrange(0, i - 1).push(d@[i - 1]));
                }
            }
            proof {
                assert(top@ =~= d@.take(6));
            }
            let cs = group_join(&top, ':', 2);
            chars_to_string(&cs)
        } else {
            let mut cs = group_join(&d, ':', 2);
            cs.push('/');
            let dec = format_u8_decimal(self.length);
            let mut i: usize = 0;
            let ghost before = cs@;
            while i < dec.len()
                invariant
                    i <= dec@.len(),
                    cs@ == before + dec@.subrange(0, i as int),
                decreases dec@.len() - i,
            {
                cs.push(dec[i]);
                i = i + 1;
                proof {
                    assert(before + dec@.subrange(0, i as int) =~= (before + dec@.subrange(
                        0,
                        i - 1,
                    )).push(dec@[i - 1]));
                }
            }
            proof {
                assert(dec@.subrange(0, dec@.len() as int) =~= dec@);
                assert(cs@ =~= oui_chars(*self));
            }
            chars_to_string(&cs)
        }
    }
}

/// The matched prefix's text: the longest covering prefix's rendering, null
/// for empty input or no match, an error for bad MAC text.
pub fn prefix(db: &OuiDb, mac_text: &str) -> (r: Result<Option<String>, ParseMacError>)
    requires
        db_wf(db@),
    ensures
        match r {
            Ok(Some(t)) => mac_text@.len() > 0 && mac_parse_ok(mac_text@, false) && exists|
                v: u64,
                i: int,
            |
                {
                    &&& v as nat == mac_parse_value(mac_text@, false)
                    &&& 0 <= i < db@.len()
                    &&& #[trigger] oui_matches(db@[i].0, v)
                    &&& longest_match(db@, v, db@[i].0.length)
                    &&& t@ == oui_chars(db@[i].0)
                },
            Ok(None) => mac_text@.len() == 0 || (mac_parse_ok(mac_text@, false) && exists|v: u64|
                v as nat == mac_parse_value(mac_text@, false) && #[trigger] no_match_for(db@, v)),
            Err(_) => mac_text@.len() > 0 && !mac_parse_ok(mac_text@, false),
        },
        r is Ok <==> (mac_text@.len() == 0 || mac_parse_ok(mac_text@, false)),
{
    match find_mac(db, mac_text) {
        Ok(Some((o, m))) => {
            proof {
                let (v, i) = choose|v: u64, i: int|
                    {
                        &&& v as nat == mac_parse_value(mac_text@, false)
                        &&& 0 <= i < db@.len()
                        &&& db@[i].0 == o
                        &&& meta_view_eq(db@[i].1, m)
                        &&& #[trigger] oui_matches(db@[i].0, v)
                        &&& longest_match(db@, v, o.length)
                    };
                assert(oui_wf(db@[i].0));
            }
            Ok(Some(o.to_text()))
        },
        Ok(None) => Ok(None),
        Err(e) => Err(e),
    }
}

/// The matched vendor's short name: the longest covering prefix's, null for
/// empty input or no match, an error for bad MAC text.
pub fn manuf<'a>(db: &'a OuiDb, mac_text: &str) -> (r: Result<Option<&'a str>, ParseMacError>)
    requires
        db_wf(db@),
    ensures
        match r {
            Ok(Some(t)) => mac_text@.len() > 0 && mac_parse_ok(mac_text@, false) && exists|
                v: u64,
                i: int,
            |
                {
                    &&& v as nat == mac_parse_value(mac_text@, false)
                    &&& 0 <= i < db@.len()
                    &&& #[trigger] oui_matches(db@[i].0, v)
                    &&& longest_match(db@, v, db@[i].0.length)
                    &&& t@ == db@[i].1.short@
                },
            Ok(None) => mac_text@.len() == 0 || (mac_parse_ok(mac_text@, false) && exists|v: u64|
                v as nat == mac_parse_value(mac_text@, false) && #[trigger] no_match_for(db@, v)),
            Err(_) => mac_text@.len() > 0 && !mac_parse_ok(mac_text@, false),
        },
        r is Ok <==> (mac_text@.len() == 0 || mac_parse_ok(mac_text@, false)),
{
    match find_mac(db, mac_text) {
        Ok(Some((_, m))) => Ok(Some(m.short)),
        Ok(None) => Ok(None),
        Err(e) => Err(e),
    }
}

/// The matched vendor's long name: the longest covering prefix's, null for
/// empty input, no match, or a match without one; an error for bad MAC text.
pub fn manuf_long<'a>(db: &'a OuiDb, mac_text: &str) -> (r: Result<Option<&'a str>, ParseMacError>)
    requires
        db_wf(db@),
    ensures
        match r {
            Ok(Some(t)) => mac_text@.len() > 0 && mac_parse_ok(mac_text@, false) && exists|
                v: u64,
                i: int,
            |
                {
                    &&& v as nat == mac_parse_value(mac_text@, false)
                    &&& 0 <= i < db@.len()
                    &&& #[trigger] oui_matches(db@[i].0, v)
                    &&& longest_match(db@, v, db@[i].0.length)
                    &&& db@[i].1.long is Some
                    &&& t@ == db@[i].1.long->0@
                },
            Ok(None) => mac_text@.len() == 0 || (mac_parse_ok(mac_text@, false) && (exists|v: u64|
                v as nat == mac_parse_value(mac_text@, false) && #[trigger] no_match_for(db@, v))
                || (exists|v: u64, i: int|
                {
                    &&& v as nat == mac_parse_value(mac_text@, false)
                    &&& 0 <= i < db@.len()
                    &&& #[trigger] oui_matches(db@[i].0, v)
                    &&& longest_match(db@, v, db@[i].0.length)
                    &&& db@[i].1.long is None
                })),
            Err(_) => mac_text@.len() > 0 && !mac_parse_ok(mac_text@, false),
        },
        r is Ok <==> (mac_text@.len() == 0 || mac_parse_ok(mac_text@, false)),
{
    match find_mac(db, mac_text) {
        Ok(Some((_, m))) => match m.long {
            Some(t) => Ok(Some(t)),
            None => Ok(None),
        },
        Ok(None) => Ok(None),
        Err(e) => Err(e),
    }
}

/// The matched prefix's comment: the longest covering prefix's, null for
/// empty input, no match, or a match without one; an error for bad MAC text.
pub fn comment<'a>(db: &'a OuiDb, mac_text: &str) -> (r: Result<Option<&'a str>, ParseMacError>)
    requires
        db_wf(db@),
    ensures
        match r {
            Ok(Some(t)) => mac_text@.len() > 0 && mac_parse_ok(mac_text@, false) && exists|
                v: u64,
                i: int,
            |
                {
                    &&& v as nat == mac_parse_value(mac_text@, false)
                    &&& 0 <= i < db@.len()
                    &&& #[trigger] oui_matches(db@[i].0, v)
                    &&& longest_match(db@, v, db@[i].0.length)
                    &&& db@[i].1.comment is Some
                    &&& t@ == db@[i].1.comment->0@
                },
            Ok(None) => mac_text@.len() == 0 || (mac_parse_ok(mac_text@, false) && (exists|v: u64|
                v as nat == mac_parse_value(mac_text@, false) && #[trigger] no_match_for(db@, v))
                || (exists|v: u64, i: int|
                {
                    &&& v as nat == mac_parse_value(mac_text@, false)
                    &&& 0 <= i < db@.len()
                    &&& #[trigger] oui_matches(db@[i].0, v)
                    &&& longest_match(db@, v, db@[i].0.length)
                    &&& db@[i].1.comment is None
                })),
            Err(_) => mac_text@.len() > 0 && !mac_parse_ok(mac_text@, false),
        },
        r is Ok <==> (mac_text@.len() == 0 || mac_parse_ok(mac_text@, false)),
{
    match find_mac(db, mac_text) {
        Ok(Some((_, m))) => match m.comment {
            Some(t) => Ok(Some(t)),
            None => Ok(None),
        },
        Ok(None) => Ok(None),
        Err(e) => Err(e),
    }
}

/// Is the address a unicast one? Null in, null out; empty likewise; bad MAC
/// text is an error.
pub fn is_unicast(mac_text: Option<&str>) -> (r: Result<Option<bool>, ParseMacError>)
    ensures
        match r {
            Ok(None) => mac_text is None || mac_text->0@.len() == 0,
            Ok(Some(b)) => mac_text is Some && mac_parse_ok(mac_text->0@, false) && exists|v: u64|
                v as nat == mac_parse_value(mac_text->0@, false) && b == #[trigger] crate::mac::spec_is_unicast(v),
            Err(_) => mac_text is Some && mac_text->0@.len() > 0 && !mac_parse_ok(
                mac_text->0@,
                false,
            ),
        },
        r is Ok <==> (mac_text is None || mac_text->0@.len() == 0 || mac_parse_ok(
            mac_text->0@,
            false,
        )),
{
    match parse_mac_value(mac_text) {
        Ok(None) => Ok(None),
        Ok(Some(v)) => Ok(Some(crate::mac::is_unicast(v))),
        Err(e) => Err(e),
    }
}

/// Is the address a multicast (group) one? Null in, null out; empty likewise;
/// bad MAC text is an error.
pub fn is_multicast(mac_text: Option<&str>) -> (r: Result<Option<bool>, ParseMacError>)
    ensures
        match r {
            Ok(None) => mac_text is None || mac_text->0@.len() == 0,
            Ok(Some(b)) => mac_text is Some && mac_parse_ok(mac_text->0@, false) && exists|v: u64|
                v as nat == mac_parse_value(mac_text->0@, false) && b == !#[trigger] crate::mac::spec_is_unicast(v),
            Err(_) => mac_text is Some && mac_text->0@.len() > 0 && !mac_parse_ok(
                mac_text->0@,
                false,
            ),
        },
        r is Ok <==> (mac_text is None || mac_text->0@.len() == 0 || mac_parse_ok(
            mac_text->0@,
            false,
        )),
{
    match parse_mac_value(mac_text) {
        Ok(None) => Ok(None),
        Ok(Some(v)) => Ok(Some(crate::mac::is_multicast(v))),
        Err(e) => Err(e),
    }
}

/// Is the address globally assigned? Null in, null out; empty likewise; bad
/// MAC text is an error.
pub fn is_universal(mac_text: Option<&str>) -> (r: Result<Option<bool>, ParseMacError>)
    ensures
        match r {
            Ok(None) => mac_text is None || mac_text->0@.len() == 0,
            Ok(Some(b)) => mac_text is Some && mac_parse_ok(mac_text->0@, false) && exists|v: u64|
                v as nat == mac_parse_value(mac_text->0@, false) && b == #[trigger] crate::mac::spec_is_universal(v),
            Err(_) => mac_text is Some && mac_text->0@.len() > 0 && !mac_parse_ok(
                mac_text->0@,
                false,
            ),
        },
        r is Ok <==> (mac_text is None || mac_text->0@.len() == 0 || mac_parse_ok(
            mac_text->0@,
            false,
        )),
{
    match parse_mac_value(mac_text) {
        Ok(None) => Ok(None),
        Ok(Some(v)) => Ok(Some(crate::mac::is_universal(v))),
        Err(e) => Err(e),
    }
}

/// Is the address locally administered? Null in, null out; empty likewise;
/// bad MAC text is an error.
pub fn is_local(mac_text: Option<&str>) -> (r: Result<Option<bool>, ParseMacError>)
    ensures
        match r {
            Ok(None) => mac_text is None || mac_text->0@.len() == 0,
            Ok(Some(b)) => mac_text is Some && mac_parse_ok(mac_text->0@, false) && exists|v: u64|
                v as nat == mac_parse_value(mac_text->0@, false) && b == !#[trigger] crate::mac::spec_is_universal(v),
            Err(_) => mac_text is Some && mac_text->0@.len() > 0 && !mac_parse_ok(
                mac_text->0@,
                false,
            ),
        },
        r is Ok <==> (mac_text is None || mac_text->0@.len() == 0 || mac_parse_ok(
            mac_text->0@,
            false,
        )),
{
    match parse_mac_value(mac_text) {
        Ok(None) => Ok(None),
        Ok(Some(v)) => Ok(Some(crate::mac::is_local(v))),
        Err(e) => Err(e),
    }
}

/// Shared front of the address-bit calls: null or empty text is null, bad
/// text an error, else the canonical value.
fn parse_mac_value(mac_text: Option<&str>) -> (r: Result<Option<u64>, ParseMacError>)
    ensures
        match r {
            Ok(None) => mac_text is None || mac_text->0@.len() == 0,
            Ok(Some(v)) => mac_text is Some && mac_parse_ok(mac_text->0@, false) && v as nat
                == mac_parse_value(mac_text->0@, false) && crate::mac::mac_value_valid(v),
            Err(_) => mac_text is Some && mac_text->0@.len() > 0 && !mac_parse_ok(
                mac_text->0@,
                false,
            ),
        },
        r is Ok <==> (mac_text is None || mac_text->0@.len() == 0 || mac_parse_ok(
            mac_text->0@,
            false,
        )),
{
    let t = match mac_text {
        None => {
            return Ok(None);
        },
        Some(t) => t,
    };
    if t.unicode_len() == 0 {
        return Ok(None);
    }
    match parse_mac_addr(t) {
        Ok(v) => Ok(Some(v)),
        Err(e) => Err(e),
    }
}

} // verus!
