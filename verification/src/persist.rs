//! The persisted state document: a JSON rendering of the tracked-package
//! map, with a parser for it and a proof that reading a written document
//! gives the map back.
//!
//! The document is `{"package_status":{<name>:<record>,…}}`; a record is
//! `{"url":…,"is_dependency":…,"dependencies":[…],"build":…}` with `null`
//! for an absent URL or build. Strings escape the quote, the backslash and
//! control characters; everything else stands as itself.

use vstd::prelude::*;
use crate::numbers::{
    all_digits, digit_char, digit_val, int_to_str, is_digit, lemma_nat_round_trip,
    lemma_nat_to_str_digits, nat_to_str, str_to_nat,
};
use crate::state::{PackageInfo, PackageInfoView, State};

verus! {

pub open spec fn hex_char(d: int) -> char
    recommends
        0 <= d < 16,
{
    if d <= 9 {
        digit_char(d)
    } else {
        ((d - 10) + ('a' as int)) as char
    }
}

pub open spec fn is_hex(c: char) -> bool {
    is_digit(c) || ('a' <= c && c <= 'f')
}

pub open spec fn hex_val(c: char) -> int {
    if is_digit(c) {
        digit_val(c)
    } else {
        c as int - 'a' as int + 10
    }
}

/// How one character is written inside a JSON string.
pub open spec fn esc_char(c: char) -> Seq<char> {
    if c == '"' {
        seq!['\\', '"']
    } else if c == '\\' {
        seq!['\\', '\\']
    } else if 0 <= (c as int) && (c as int) < 32 {
        seq!['\\', 'u', '0', '0', hex_char(c as int / 16), hex_char(c as int % 16)]
    } else {
        seq![c]
    }
}

pub open spec fn escape(s: Seq<char>) -> Seq<char>
    decreases s.len(),
{
    if s.len() == 0 {
        Seq::empty()
    } else {
        esc_char(s[0]) + escape(s.drop_first())
    }
}

/// A JSON string: quote, escaped contents, quote.
pub open spec fn ser_string(s: Seq<char>) -> Seq<char> {
    seq!['"'] + escape(s) + seq!['"']
}

pub open spec fn ser_bool(b: bool) -> Seq<char> {
    if b {
        seq!['t', 'r', 'u', 'e']
    } else {
        seq!['f', 'a', 'l', 's', 'e']
    }
}

pub open spec fn null_str() -> Seq<char> {
    seq!['n', 'u', 'l', 'l']
}

pub open spec fn ser_opt_string(u: Option<Seq<char>>) -> Seq<char> {
    match u {
        Some(s) => ser_string(s),
        None => null_str(),
    }
}

pub open spec fn ser_string_items(l: Seq<Seq<char>>) -> Seq<char>
    decreases l.len(),
{
    if l.len() == 0 {
        Seq::empty()
    } else if l.len() == 1 {
        ser_string(l[0])
    } else {
        ser_string(l[0]) + seq![','] + ser_string_items(l.drop_first())
    }
}

/// A JSON array of strings.
pub open spec fn ser_string_list(l: Seq<Seq<char>>) -> Seq<char> {
    seq!['['] + ser_string_items(l) + seq![']']
}

/// The build record: `null` or `{"time":<int>,"files":[…]}`.
pub open spec fn ser_build(b: Option<crate::state::BuildView>) -> Seq<char> {
    match b {
        None => null_str(),
        Some(bv) => "{\"time\":"@ + int_to_str(bv.time) + ",\"files\":"@ + ser_string_list(
            bv.files,
        ) + seq!['}'],
    }
}

/// One package record.
pub open spec fn ser_info(i: PackageInfoView) -> Seq<char> {
    "{\"url\":"@ + ser_opt_string(i.url) + ",\"is_dependency\":"@ + ser_bool(i.is_dependency)
        + ",\"dependencies\":"@ + ser_string_list(i.dependencies) + ",\"build\":"@ + ser_build(
        i.build,
    ) + seq!['}']
}

pub open spec fn ser_entry(e: (Seq<char>, PackageInfoView)) -> Seq<char> {
    ser_string(e.0) + seq![':'] + ser_info(e.1)
}

pub open spec fn ser_entries(entries: Seq<(Seq<char>, PackageInfoView)>) -> Seq<char>
    decreases entries.len(),
{
    if entries.len() == 0 {
        Seq::empty()
    } else if entries.len() == 1 {
        ser_entry(entries[0])
    } else {
        ser_entry(entries[0]) + seq![','] + ser_entries(entries.drop_first())
    }
}

/// The whole state document.
pub open spec fn ser_state(entries: Seq<(Seq<char>, PackageInfoView)>) -> Seq<char> {
    "{\"package_status\":{"@ + ser_entries(entries) + seq!['}'] + seq!['}']
}

// ---------------------------------------------------------------------------
// The parser, consuming from the front and returning what remains.

/// Consumes an exact token.
pub open spec fn parse_literal(s: Seq<char>, lit: Seq<char>) -> Option<Seq<char>> {
    if s.len() >= lit.len() && s.take(lit.len() as int) == lit {
        Some(s.skip(lit.len() as int))
    } else {
        None
    }
}

/// Consumes the body of a string after the opening quote, through the
/// closing quote.
pub open spec fn parse_string_body(s: Seq<char>) -> Option<(Seq<char>, Seq<char>)>
    decreases s.len(),
{
    if s.len() == 0 {
        None
    } else if s[0] == '"' {
        Some((Seq::empty(), s.skip(1)))
    } else if s[0] == '\\' {
        if s.len() >= 2 && (s[1] == '"' || s[1] == '\\') {
            match parse_string_body(s.skip(2)) {
                Some((v, r)) => Some((seq![s[1]] + v, r)),
                None => None,
            }
        } else if s.len() >= 6 && s[1] == 'u' && s[2] == '0' && s[3] == '0' && is_hex(s[4])
            && is_hex(s[5]) {
            match parse_string_body(s.skip(6)) {
                Some((v, r)) => Some(
                    (seq![((hex_val(s[4]) * 16 + hex_val(s[5])) as char)] + v, r),
                ),
                None => None,
            }
        } else {
            None
        }
    } else {
        match parse_string_body(s.skip(1)) {
            Some((v, r)) => Some((seq![s[0]] + v, r)),
            None => None,
        }
    }
}

pub open spec fn parse_string(s: Seq<char>) -> Option<(Seq<char>, Seq<char>)> {
    if s.len() >= 1 && s[0] == '"' {
        parse_string_body(s.skip(1))
    } else {
        None
    }
}

/// The longest digit prefix, and what follows it.
pub open spec fn take_digits(s: Seq<char>) -> (Seq<char>, Seq<char>)
    decreases s.len(),
{
    if s.len() > 0 && is_digit(s[0]) {
        let (d, r) = take_digits(s.drop_first());
        (seq![s[0]] + d, r)
    } else {
        (Seq::empty(), s)
    }
}

/// Consumes a decimal integer with optional sign.
pub open spec fn parse_int(s: Seq<char>) -> Option<(int, Seq<char>)> {
    if s.len() >= 1 && s[0] == '-' {
        let (d, r) = take_digits(s.skip(1));
        if d.len() > 0 {
            Some((-str_to_nat(d), r))
        } else {
            None
        }
    } else {
        let (d, r) = take_digits(s);
        if d.len() > 0 {
            Some((str_to_nat(d), r))
        } else {
            None
        }
    }
}

pub open spec fn parse_bool(s: Seq<char>) -> Option<(bool, Seq<char>)> {
    if parse_literal(s, ser_bool(true)) is Some {
        Some((true, parse_literal(s, ser_bool(true))->0))
    } else if parse_literal(s, ser_bool(false)) is Some {
        Some((false, parse_literal(s, ser_bool(false))->0))
    } else {
        None
    }
}

#[via_fn]
proof fn parse_string_items_decreases(s: Seq<char>)
{
    if s.len() >= 1 && s[0] != ']' {
        match parse_string(s) {
            Some((v, r)) => {
                lemma_parse_string_shrinks(s);
            },
            None => {},
        }
    }
}

/// Consumes `"a","b",…]` after the opening bracket: the remaining items of
/// a string array, through the closing bracket.
pub open spec fn parse_string_items(s: Seq<char>) -> Option<(Seq<Seq<char>>, Seq<char>)>
    decreases s.len(),
        via parse_string_items_decreases
{
    if s.len() >= 1 && s[0] == ']' {
        Some((Seq::empty(), s.skip(1)))
    } else {
        match parse_string(s) {
            Some((v, r)) => if r.len() >= 1 && r[0] == ',' {
                match parse_string_items(r.skip(1)) {
                    Some((vs, r2)) => Some((seq![v] + vs, r2)),
                    None => None,
                }
            } else if r.len() >= 1 && r[0] == ']' {
                Some((seq![v], r.skip(1)))
            } else {
                None
            },
            None => None,
        }
    }
}

pub open spec fn parse_string_list(s: Seq<char>) -> Option<(Seq<Seq<char>>, Seq<char>)> {
    if s.len() >= 1 && s[0] == '[' {
        parse_string_items(s.skip(1))
    } else {
        None
    }
}

pub open spec fn parse_opt_string(s: Seq<char>) -> Option<(Option<Seq<char>>, Seq<char>)> {
    if parse_literal(s, null_str()) is Some {
        Some((None, parse_literal(s, null_str())->0))
    } else {
        match parse_string(s) {
            Some((v, r)) => Some((Some(v), r)),
            None => None,
        }
    }
}

/// Consumes a build record.
pub open spec fn parse_build(s: Seq<char>) -> Option<
    (Option<crate::state::BuildView>, Seq<char>),
> {
    if parse_literal(s, null_str()) is Some {
        Some((None, parse_literal(s, null_str())->0))
    } else {
        match parse_literal(s, "{\"time\":"@) {
            Some(r1) => match parse_int(r1) {
                Some((t, r2)) => match parse_literal(r2, ",\"files\":"@) {
                    Some(r3) => match parse_string_list(r3) {
                        Some((fs, r4)) => if r4.len() >= 1 && r4[0] == '}' {
                            Some(
                                (
                                    Some(crate::state::BuildView { time: t, files: fs }),
                                    r4.skip(1),
                                ),
                            )
                        } else {
                            None
                        },
                        None => None,
                    },
                    None => None,
                },
                None => None,
            },
            None => None,
        }
    }
}

/// Consumes one package record.
pub open spec fn parse_info(s: Seq<char>) -> Option<(PackageInfoView, Seq<char>)> {
    match parse_literal(s, "{\"url\":"@) {
        Some(r1) => match parse_opt_string(r1) {
            Some((url, r2)) => match parse_literal(r2, ",\"is_dependency\":"@) {
                Some(r3) => match parse_bool(r3) {
                    Some((dep, r4)) => match parse_literal(r4, ",\"dependencies\":"@) {
                        Some(r5) => match parse_string_list(r5) {
                            Some((deps, r6)) => match parse_literal(r6, ",\"build\":"@) {
                                Some(r7) => match parse_build(r7) {
                                    Some((b, r8)) => if r8.len() >= 1 && r8[0] == '}' {
                                        Some(
                                            (
                                                PackageInfoView {
                                                    url: url,
                                                    is_dependency: dep,
                                                    dependencies: deps,
                                                    build: b,
                                                },
                                                r8.skip(1),
                                            ),
                                        )
                                    } else {
                                        None
                                    },
                                    None => None,
                                },
                                None => None,
                            },
                            None => None,
                        },
                        None => None,
                    },
                    None => None,
                },
                None => None,
            },
            None => None,
        },
        None => None,
    }
}

pub open spec fn parse_entry(s: Seq<char>) -> Option<((Seq<char>, PackageInfoView), Seq<char>)> {
    match parse_string(s) {
        Some((name, r1)) => if r1.len() >= 1 && r1[0] == ':' {
            match parse_info(r1.skip(1)) {
                Some((info, r2)) => Some(((name, info), r2)),
                None => None,
            }
        } else {
            None
        },
        None => None,
    }
}

#[via_fn]
proof fn parse_entries_rest_decreases(s: Seq<char>)
{
    if s.len() >= 1 && s[0] != '}' {
        match parse_entry(s) {
            Some((e, r)) => {
                lemma_parse_entry_shrinks(s);
            },
            None => {},
        }
    }
}

/// Consumes the entries of the inner map, through its closing brace.
pub open spec fn parse_entries_rest(s: Seq<char>) -> Option<
    (Seq<(Seq<char>, PackageInfoView)>, Seq<char>),
>
    decreases s.len(),
        via parse_entries_rest_decreases
{
    if s.len() >= 1 && s[0] == '}' {
        Some((Seq::empty(), s.skip(1)))
    } else {
        match parse_entry(s) {
            Some((e, r)) => if r.len() >= 1 && r[0] == ',' {
                match parse_entries_rest(r.skip(1)) {
                    Some((es, r2)) => Some((seq![e] + es, r2)),
                    None => None,
                }
            } else if r.len() >= 1 && r[0] == '}' {
                Some((seq![e], r.skip(1)))
            } else {
                None
            },
            None => None,
        }
    }
}

/// Reads a whole state document: it must be consumed entirely.
pub open spec fn parse_state(s: Seq<char>) -> Option<Seq<(Seq<char>, PackageInfoView)>> {
    match parse_literal(s, "{\"package_status\":{"@) {
        Some(r1) => match parse_entries_rest(r1) {
            Some((es, r2)) => if r2 == seq!['}'] {
                Some(es)
            } else {
                None
            },
            None => None,
        },
        None => None,
    }
}

// ---------------------------------------------------------------------------
// Shrinking lemmas (the recursions above consume at least one character).

proof fn lemma_parse_string_body_shrinks(s: Seq<char>)
    ensures
        parse_string_body(s) matches Some(p) ==> p.1.len() < s.len(),
    decreases s.len(),
{
    if s.len() == 0 {
    } else if s[0] == '"' {
    } else if s[0] == '\\' {
        if s.len() >= 2 && (s[1] == '"' || s[1] == '\\') {
            lemma_parse_string_body_shrinks(s.skip(2));
        } else if s.len() >= 6 && s[1] == 'u' && s[2] == '0' && s[3] == '0' && is_hex(s[4])
            && is_hex(s[5]) {
            lemma_parse_string_body_shrinks(s.skip(6));
        }
    } else {
        lemma_parse_string_body_shrinks(s.skip(1));
    }
}

proof fn lemma_parse_string_shrinks(s: Seq<char>)
    ensures
        parse_string(s) matches Some(p) ==> p.1.len() < s.len(),
{
    if s.len() >= 1 && s[0] == '"' {
        lemma_parse_string_body_shrinks(s.skip(1));
    }
}

proof fn lemma_parse_int_shrinks(s: Seq<char>)
    ensures
        parse_int(s) matches Some(p) ==> p.1.len() < s.len(),
{
    if s.len() >= 1 && s[0] == '-' {
        let (d, r) = take_digits(s.skip(1));
        lemma_take_digits_len(s.skip(1));
    } else {
        lemma_take_digits_len(s);
    }
}

/// The digits taken plus the rest make up the input.
proof fn lemma_take_digits_len(s: Seq<char>)
    ensures
        take_digits(s).0.len() + take_digits(s).1.len() == s.len(),
        take_digits(s).1 == s.skip(take_digits(s).0.len() as int),
        take_digits(s).0 == s.take(take_digits(s).0.len() as int),
        all_digits(take_digits(s).0),
    decreases s.len(),
{
    if s.len() > 0 && is_digit(s[0]) {
        lemma_take_digits_len(s.drop_first());
        let (d, r) = take_digits(s.drop_first());
        assert(s.drop_first().skip(d.len() as int) =~= s.skip(d.len() as int + 1));
        let full = take_digits(s).0;
        assert(full =~= seq![s[0]] + d);
        assert(all_digits(full)) by {
            assert(forall|i: int| 1 <= i < full.len() ==> full[i] == d[i - 1]);
            assert(forall|i: int| 0 <= i < full.len() ==> is_digit(#[trigger] full[i]));
        }
        assert(d == s.drop_first().take(d.len() as int));
        assert(full =~= s.take(full.len() as int));
    } else {
        assert(s.skip(0) =~= s);
        assert(take_digits(s).0 =~= s.take(0));
    }
}

proof fn lemma_parse_string_list_shrinks(s: Seq<char>)
    ensures
        parse_string_list(s) matches Some(p) ==> p.1.len() < s.len(),
    decreases s.len(),
{
    if s.len() >= 1 && s[0] == '[' {
        lemma_parse_string_items_shrinks(s.skip(1));
    }
}

proof fn lemma_parse_string_items_shrinks(s: Seq<char>)
    ensures
        parse_string_items(s) matches Some(p) ==> p.1.len() <= s.len(),
    decreases s.len(),
{
    if s.len() >= 1 && s[0] == ']' {
    } else {
        match parse_string(s) {
            Some((v, r)) => {
                lemma_parse_string_shrinks(s);
                if r.len() >= 1 && r[0] == ',' {
                    lemma_parse_string_items_shrinks(r.skip(1));
                }
            },
            None => {},
        }
    }
}

proof fn lemma_parse_build_shrinks(s: Seq<char>)
    ensures
        parse_build(s) matches Some(p) ==> p.1.len() < s.len(),
{
    if parse_literal(s, null_str()) is Some {
    } else {
        match parse_literal(s, "{\"time\":"@) {
            Some(r1) => {
                reveal_strlit("{\"time\":");
                match parse_int(r1) {
                    Some((t, r2)) => {
                        lemma_parse_int_shrinks(r1);
                        match parse_literal(r2, ",\"files\":"@) {
                            Some(r3) => {
                                reveal_strlit(",\"files\":");
                                lemma_parse_string_list_shrinks(r3);
                            },
                            None => {},
                        }
                    },
                    None => {},
                }
            },
            None => {},
        }
    }
}

proof fn lemma_parse_info_shrinks(s: Seq<char>)
    ensures
        parse_info(s) matches Some(p) ==> p.1.len() < s.len(),
{
    match parse_literal(s, "{\"url\":"@) {
        Some(r1) => {
            reveal_strlit("{\"url\":");
            match parse_opt_string(r1) {
                Some((url, r2)) => {
                    lemma_parse_opt_string_shrinks(r1);
                    match parse_literal(r2, ",\"is_dependency\":"@) {
                        Some(r3) => {
                            reveal_strlit(",\"is_dependency\":");
                            match parse_bool(r3) {
                                Some((b, r4)) => {
                                    lemma_parse_bool_shrinks(r3);
                                    match parse_literal(r4, ",\"dependencies\":"@) {
                                        Some(r5) => {
                                            reveal_strlit(",\"dependencies\":");
                                            match parse_string_list(r5) {
                                                Some((ds, r6)) => {
                                                    lemma_parse_string_list_shrinks(r5);
                                                    match parse_literal(r6, ",\"build\":"@) {
                                                        Some(r7) => {
                                                            reveal_strlit(",\"build\":");
                                                            lemma_parse_build_shrinks(r7);
                                                        },
                                                        None => {},
                                                    }
                                                },
                                                None => {},
                                            }
                                        },
                                        None => {},
                                    }
                                },
                                None => {},
                            }
                        },
                        None => {},
                    }
                },
                None => {},
            }
        },
        None => {},
    }
}

proof fn lemma_parse_opt_string_shrinks(s: Seq<char>)
    ensures
        parse_opt_string(s) matches Some(p) ==> p.1.len() < s.len(),
{
    if parse_literal(s, null_str()) is Some {
    } else {
        lemma_parse_string_shrinks(s);
    }
}

proof fn lemma_parse_bool_shrinks(s: Seq<char>)
    ensures
        parse_bool(s) matches Some(p) ==> p.1.len() < s.len(),
{
}

proof fn lemma_parse_entry_shrinks(s: Seq<char>)
    ensures
        parse_entry(s) matches Some(p) ==> p.1.len() < s.len(),
{
    match parse_string(s) {
        Some((name, r1)) => {
            lemma_parse_string_shrinks(s);
            if r1.len() >= 1 && r1[0] == ':' {
                lemma_parse_info_shrinks(r1.skip(1));
            }
        },
        None => {},
    }
}


// ---------------------------------------------------------------------------
// Round trip: reading a written document gives the value back.

proof fn lemma_parse_literal(lit: Seq<char>, t: Seq<char>)
    ensures
        parse_literal(lit + t, lit) == Some(t),
{
    assert((lit + t).take(lit.len() as int) =~= lit);
    assert((lit + t).skip(lit.len() as int) =~= t);
}

proof fn lemma_hex_round(d: int)
    requires
        0 <= d < 16,
    ensures
        is_hex(hex_char(d)),
        hex_val(hex_char(d)) == d,
{
    if d <= 9 {
        assert(hex_char(d) == ((d + 48) as char));
        assert(((d + 48) as char) as int == d + 48);
    } else {
        assert(hex_char(d) == ((d + 87) as char));
        assert(((d + 87) as char) as int == d + 87);
    }
}

proof fn lemma_escape_body_round(x: Seq<char>, t: Seq<char>)
    ensures
        parse_string_body(escape(x) + seq!['"'] + t) == Some((x, t)),
    decreases x.len(),
{
    let s = escape(x) + seq!['"'] + t;
    if x.len() == 0 {
        assert(escape(x) =~= Seq::<char>::empty());
        assert(s[0] == '"');
        assert(s.skip(1) =~= t);
        assert(parse_string_body(s) == Some((Seq::<char>::empty(), t)));
        assert(x =~= Seq::<char>::empty());
    } else {
        let c = x[0];
        let rest = x.drop_first();
        assert(escape(x) == esc_char(c) + escape(rest));
        lemma_escape_body_round(rest, t);
        if c == '"' {
            assert(s[0] == '\\');
            assert(s[1] == '"');
            assert(s.skip(2) =~= escape(rest) + seq!['"'] + t);
            assert(seq![s[1]] + rest =~= x);
        } else if c == '\\' {
            assert(s[0] == '\\');
            assert(s[1] == '\\');
            assert(s.skip(2) =~= escape(rest) + seq!['"'] + t);
            assert(seq![s[1]] + rest =~= x);
        } else if 0 <= (c as int) && (c as int) < 32 {
            let hi = c as int / 16;
            let lo = c as int % 16;
            assert(0 <= hi < 16);
            assert(0 <= lo < 16);
            assert(s[0] == '\\');
            assert(s[1] == 'u');
            assert(s[2] == '0');
            assert(s[3] == '0');
            assert(s[4] == hex_char(hi));
            assert(s[5] == hex_char(lo));
            lemma_hex_round(hi);
            lemma_hex_round(lo);
            assert(s.len() >= 6);
            assert(s.skip(6) =~= escape(rest) + seq!['"'] + t);
            assert(hex_val(s[4]) * 16 + hex_val(s[5]) == c as int);
            assert(((c as int) as char) == c);
            assert(seq![((hex_val(s[4]) * 16 + hex_val(s[5])) as char)] + rest =~= x);
        } else {
            assert(s[0] == c);
            assert(c != '"' && c != '\\');
            assert(s.skip(1) =~= escape(rest) + seq!['"'] + t);
            assert(seq![s[0]] + rest =~= x);
        }
    }
}

proof fn lemma_parse_string_round(x: Seq<char>, t: Seq<char>)
    ensures
        parse_string(ser_string(x) + t) == Some((x, t)),
{
    let s = ser_string(x) + t;
    assert(s[0] == '"');
    assert(s.skip(1) =~= escape(x) + seq!['"'] + t);
    lemma_escape_body_round(x, t);
}

proof fn lemma_take_digits_all(d: Seq<char>, t: Seq<char>)
    requires
        all_digits(d),
        t.len() == 0 || !is_digit(t[0]),
    ensures
        take_digits(d + t) == (d, t),
    decreases d.len(),
{
    let s = d + t;
    if d.len() == 0 {
        assert(s =~= t);
        if t.len() > 0 {
            assert(!is_digit(s[0]));
        }
        assert(take_digits(s) == (Seq::<char>::empty(), s));
        assert(d =~= Seq::<char>::empty());
    } else {
        assert(s[0] == d[0]);
        assert(is_digit(s[0]));
        assert(s.drop_first() =~= d.drop_first() + t);
        assert(all_digits(d.drop_first()));
        lemma_take_digits_all(d.drop_first(), t);
        assert(seq![s[0]] + d.drop_first() =~= d);
    }
}

proof fn lemma_parse_int_round(n: int, t: Seq<char>)
    requires
        t.len() > 0,
        !is_digit(t[0]),
    ensures
        parse_int(int_to_str(n) + t) == Some((n, t)),
{
    let s = int_to_str(n) + t;
    if n < 0 {
        lemma_nat_to_str_digits(-n);
        assert(s[0] == '-');
        assert(s.skip(1) =~= nat_to_str(-n) + t);
        lemma_take_digits_all(nat_to_str(-n), t);
        lemma_nat_round_trip(-n);
    } else {
        lemma_nat_to_str_digits(n);
        assert(s[0] == nat_to_str(n)[0]);
        assert(is_digit(s[0]));
        assert(s[0] != '-');
        assert(s =~= nat_to_str(n) + t);
        lemma_take_digits_all(nat_to_str(n), t);
        lemma_nat_round_trip(n);
    }
}

proof fn lemma_parse_items_round(l: Seq<Seq<char>>, t: Seq<char>)
    ensures
        parse_string_items(ser_string_items(l) + seq![']'] + t) == Some((l, t)),
    decreases l.len(),
{
    let s = ser_string_items(l) + seq![']'] + t;
    if l.len() == 0 {
        assert(ser_string_items(l) =~= Seq::<char>::empty());
        assert(s[0] == ']');
        assert(s.skip(1) =~= t);
        assert(l =~= Seq::<Seq<char>>::empty());
    } else if l.len() == 1 {
        assert(ser_string_items(l) == ser_string(l[0]));
        assert(s =~= ser_string(l[0]) + (seq![']'] + t));
        lemma_parse_string_round(l[0], seq![']'] + t);
        assert(s[0] == '"');
        assert(s[0] != ']');
        let r = (seq![']'] + t);
        assert(r[0] == ']');
        assert(r.skip(1) =~= t);
        assert(seq![l[0]] =~= l);
    } else {
        let rest = l.drop_first();
        assert(ser_string_items(l) == ser_string(l[0]) + seq![','] + ser_string_items(rest));
        let tail = seq![','] + ser_string_items(rest) + seq![']'] + t;
        assert(s =~= ser_string(l[0]) + tail);
        lemma_parse_string_round(l[0], tail);
        assert(s[0] == '"');
        assert(s[0] != ']');
        assert(tail[0] == ',');
        assert(tail.skip(1) =~= ser_string_items(rest) + seq![']'] + t);
        lemma_parse_items_round(rest, t);
        assert(seq![l[0]] + rest =~= l);
    }
}

proof fn lemma_parse_list_round(l: Seq<Seq<char>>, t: Seq<char>)
    ensures
        parse_string_list(ser_string_list(l) + t) == Some((l, t)),
{
    let s = ser_string_list(l) + t;
    assert(s[0] == '[');
    assert(s.skip(1) =~= ser_string_items(l) + seq![']'] + t);
    lemma_parse_items_round(l, t);
}

proof fn lemma_parse_opt_string_round(u: Option<Seq<char>>, t: Seq<char>)
    ensures
        parse_opt_string(ser_opt_string(u) + t) == Some((u, t)),
{
    let s = ser_opt_string(u) + t;
    match u {
        None => {
            assert(s =~= null_str() + t);
            lemma_parse_literal(null_str(), t);
        },
        Some(x) => {
            assert(s[0] == '"');
            if parse_literal(s, null_str()) is Some {
                assert(s.take(4)[0] == '"');
                assert(null_str()[0] == 'n');
                assert(false);
            }
            lemma_parse_string_round(x, t);
        },
    }
}

proof fn lemma_parse_bool_round(b: bool, t: Seq<char>)
    ensures
        parse_bool(ser_bool(b) + t) == Some((b, t)),
{
    let s = ser_bool(b) + t;
    if b {
        lemma_parse_literal(ser_bool(true), t);
    } else {
        lemma_parse_literal(ser_bool(false), t);
        if parse_literal(s, ser_bool(true)) is Some {
            assert(s.take(4)[0] == 'f');
            assert(ser_bool(true)[0] == 't');
            assert(false);
        }
    }
}

#[verifier::rlimit(100)]
#[verifier::spinoff_prover]
proof fn lemma_parse_build_round(b: Option<crate::state::BuildView>, t: Seq<char>)
    ensures
        parse_build(ser_build(b) + t) == Some((b, t)),
{
    let s = ser_build(b) + t;
    match b {
        None => {
            assert(s =~= null_str() + t);
            lemma_parse_literal(null_str(), t);
        },
        Some(bv) => {
            reveal_strlit("{\"time\":");
            reveal_strlit(",\"files\":");
            let key1 = "{\"time\":"@;
            let key2 = ",\"files\":"@;
            assert(s[0] == '{');
            if parse_literal(s, null_str()) is Some {
                assert(s.take(4)[0] == '{');
                assert(null_str()[0] == 'n');
                assert(false);
            }
            let tail1 = int_to_str(bv.time) + key2 + ser_string_list(bv.files) + seq!['}'] + t;
            assert(s =~= key1 + tail1);
            lemma_parse_literal(key1, tail1);
            let tail2 = key2 + ser_string_list(bv.files) + seq!['}'] + t;
            assert(tail1 =~= int_to_str(bv.time) + tail2);
            assert(tail2[0] == ',');
            assert(!is_digit(tail2[0]));
            lemma_parse_int_round(bv.time, tail2);
            let tail3 = ser_string_list(bv.files) + seq!['}'] + t;
            assert(tail2 =~= key2 + tail3);
            lemma_parse_literal(key2, tail3);
            let tail4 = seq!['}'] + t;
            assert(tail3 =~= ser_string_list(bv.files) + tail4);
            lemma_parse_list_round(bv.files, tail4);
            assert(tail4[0] == '}');
            assert(tail4.skip(1) =~= t);
        },
    }
}

proof fn seq_assoc(a: Seq<char>, b: Seq<char>, c: Seq<char>)
    ensures
        (a + b) + c == a + (b + c),
{
    assert((a + b) + c =~= a + (b + c));
}

#[verifier::rlimit(100)]
#[verifier::spinoff_prover]
proof fn lemma_parse_info_round(i: PackageInfoView, t: Seq<char>)
    ensures
        parse_info(ser_info(i) + t) == Some((i, t)),
{
    reveal_strlit("{\"url\":");
    reveal_strlit(",\"is_dependency\":");
    reveal_strlit(",\"dependencies\":");
    reveal_strlit(",\"build\":");
    let k1 = "{\"url\":"@;
    let k2 = ",\"is_dependency\":"@;
    let k3 = ",\"dependencies\":"@;
    let k4 = ",\"build\":"@;
    let u = ser_opt_string(i.url);
    let b = ser_bool(i.is_dependency);
    let d = ser_string_list(i.dependencies);
    let bu = ser_build(i.build);
    // Reassociate the serialized record so each parse step peels one piece.
    let x1 = k1;
    let x2 = x1 + u;
    let x3 = x2 + k2;
    let x4 = x3 + b;
    let x5 = x4 + k3;
    let x6 = x5 + d;
    let x7 = x6 + k4;
    let x8 = x7 + bu;
    assert(ser_info(i) == x8 + seq!['}']);
    let t0 = seq!['}'] + t;
    seq_assoc(x8, seq!['}'], t);
    let t1 = bu + t0;
    seq_assoc(x7, bu, t0);
    let t2 = k4 + t1;
    seq_assoc(x6, k4, t1);
    let t3 = d + t2;
    seq_assoc(x5, d, t2);
    let t4 = k3 + t3;
    seq_assoc(x4, k3, t3);
    let t5 = b + t4;
    seq_assoc(x3, b, t4);
    let t6 = k2 + t5;
    seq_assoc(x2, k2, t5);
    let t7 = u + t6;
    seq_assoc(x1, u, t6);
    assert(ser_info(i) + t == k1 + t7);
    lemma_parse_literal(k1, t7);
    lemma_parse_opt_string_round(i.url, t6);
    lemma_parse_literal(k2, t5);
    lemma_parse_bool_round(i.is_dependency, t4);
    lemma_parse_literal(k3, t3);
    lemma_parse_list_round(i.dependencies, t2);
    lemma_parse_literal(k4, t1);
    lemma_parse_build_round(i.build, t0);
    assert(t0[0] == '}');
    assert(t0.skip(1) =~= t);
    assert(PackageInfoView {
        url: i.url,
        is_dependency: i.is_dependency,
        dependencies: i.dependencies,
        build: i.build,
    } == i);
}

proof fn lemma_parse_entry_round(e: (Seq<char>, PackageInfoView), t: Seq<char>)
    ensures
        parse_entry(ser_entry(e) + t) == Some((e, t)),
{
    let s = ser_entry(e) + t;
    let tail1 = seq![':'] + ser_info(e.1) + t;
    assert(s =~= ser_string(e.0) + tail1);
    lemma_parse_string_round(e.0, tail1);
    assert(tail1[0] == ':');
    let tail2 = ser_info(e.1) + t;
    assert(tail1.skip(1) =~= tail2);
    lemma_parse_info_round(e.1, t);
    assert((e.0, e.1) == e);
}

#[verifier::rlimit(100)]
proof fn lemma_parse_entries_round(es: Seq<(Seq<char>, PackageInfoView)>, t: Seq<char>)
    ensures
        parse_entries_rest(ser_entries(es) + seq!['}'] + t) == Some((es, t)),
    decreases es.len(),
{
    let s = ser_entries(es) + seq!['}'] + t;
    if es.len() == 0 {
        assert(ser_entries(es) =~= Seq::<char>::empty());
        assert(s[0] == '}');
        assert(s.skip(1) =~= t);
        assert(es =~= Seq::<(Seq<char>, PackageInfoView)>::empty());
    } else if es.len() == 1 {
        assert(ser_entries(es) == ser_entry(es[0]));
        let tail = seq!['}'] + t;
        assert(s =~= ser_entry(es[0]) + tail);
        lemma_parse_entry_round(es[0], tail);
        assert(s[0] == '"');
        assert(s[0] != '}');
        assert(tail[0] == '}');
        assert(tail.skip(1) =~= t);
        assert(seq![es[0]] =~= es);
    } else {
        let rest = es.drop_first();
        assert(ser_entries(es) == ser_entry(es[0]) + seq![','] + ser_entries(rest));
        let tail = seq![','] + ser_entries(rest) + seq!['}'] + t;
        assert(s =~= ser_entry(es[0]) + tail);
        lemma_parse_entry_round(es[0], tail);
        assert(s[0] == '"');
        assert(s[0] != '}');
        assert(tail[0] == ',');
        assert(tail.skip(1) =~= ser_entries(rest) + seq!['}'] + t);
        lemma_parse_entries_round(rest, t);
        assert(seq![es[0]] + rest =~= es);
    }
}

/// Persistence round trip: reading a written state document yields the same
/// entry sequence (and so the same map).
pub proof fn lemma_state_round_trip(entries: Seq<(Seq<char>, PackageInfoView)>)
    ensures
        parse_state(ser_state(entries)) == Some(entries),
{
    reveal_strlit("{\"package_status\":{");
    let key = "{\"package_status\":{"@;
    let s = ser_state(entries);
    let tail1 = ser_entries(entries) + seq!['}'] + seq!['}'];
    assert(s =~= key + tail1);
    lemma_parse_literal(key, tail1);
    assert(tail1 =~= ser_entries(entries) + seq!['}'] + seq!['}']);
    lemma_parse_entries_round(entries, seq!['}']);
}


// ---------------------------------------------------------------------------
// The executable writer.

/// The name/record views of the entry list, in order.
pub open spec fn entries_view(s: Seq<(String, PackageInfo)>) -> Seq<
    (Seq<char>, PackageInfoView),
>
    decreases s.len(),
{
    if s.len() == 0 {
        Seq::empty()
    } else {
        entries_view(s.drop_last()).push((s.last().0@, s.last().1@))
    }
}

proof fn lemma_escape_push(a: Seq<char>, c: char)
    ensures
        escape(a.push(c)) == escape(a) + esc_char(c),
    decreases a.len(),
{
    if a.len() == 0 {
        assert(a.push(c)[0] == c);
        assert(a.push(c).drop_first() =~= Seq::<char>::empty());
        assert(escape(Seq::<char>::empty()) =~= Seq::<char>::empty());
        assert(escape(a.push(c)) == esc_char(c) + escape(a.push(c).drop_first()));
        assert(escape(a.push(c)) =~= esc_char(c) + Seq::<char>::empty());
        assert(escape(a) + esc_char(c) =~= esc_char(c));
        assert(escape(a.push(c)) =~= escape(a) + esc_char(c));
    } else {
        assert(a.push(c)[0] == a[0]);
        assert(a.push(c).drop_first() =~= a.drop_first().push(c));
        lemma_escape_push(a.drop_first(), c);
        assert(escape(a.push(c)) == esc_char(a[0]) + (escape(a.drop_first()) + esc_char(c)));
        assert(esc_char(a[0]) + (escape(a.drop_first()) + esc_char(c)) =~= (esc_char(a[0])
            + escape(a.drop_first())) + esc_char(c));
    }
}

proof fn lemma_items_push(l: Seq<Seq<char>>, x: Seq<char>)
    ensures
        l.len() == 0 ==> ser_string_items(l.push(x)) == ser_string(x),
        l.len() > 0 ==> ser_string_items(l.push(x)) == ser_string_items(l) + seq![',']
            + ser_string(x),
    decreases l.len(),
{
    let p = l.push(x);
    if l.len() == 0 {
        assert(p.len() == 1);
        assert(p[0] == x);
    } else {
        assert(p[0] == l[0]);
        assert(p.drop_first() =~= l.drop_first().push(x));
        lemma_items_push(l.drop_first(), x);
        if l.len() == 1 {
            assert(ser_string_items(p) == ser_string(l[0]) + seq![','] + ser_string(x));
        } else {
            assert(ser_string_items(p) == ser_string(p[0]) + seq![','] + ser_string_items(
                p.drop_first(),
            ));
            assert(ser_string(l[0]) + seq![','] + (ser_string_items(l.drop_first()) + seq![',']
                + ser_string(x)) =~= (ser_string(l[0]) + seq![','] + ser_string_items(
                l.drop_first(),
            )) + seq![','] + ser_string(x));
        }
    }
}

proof fn lemma_entries_push(l: Seq<(Seq<char>, PackageInfoView)>, x: (Seq<char>, PackageInfoView))
    ensures
        l.len() == 0 ==> ser_entries(l.push(x)) == ser_entry(x),
        l.len() > 0 ==> ser_entries(l.push(x)) == ser_entries(l) + seq![','] + ser_entry(x),
    decreases l.len(),
{
    let p = l.push(x);
    if l.len() == 0 {
        assert(p.len() == 1);
        assert(p[0] == x);
    } else {
        assert(p[0] == l[0]);
        assert(p.drop_first() =~= l.drop_first().push(x));
        lemma_entries_push(l.drop_first(), x);
        if l.len() == 1 {
            assert(ser_entries(p) == ser_entry(l[0]) + seq![','] + ser_entry(x));
        } else {
            assert(ser_entries(p) == ser_entry(p[0]) + seq![','] + ser_entries(p.drop_first()));
            assert(ser_entry(l[0]) + seq![','] + (ser_entries(l.drop_first()) + seq![',']
                + ser_entry(x)) =~= (ser_entry(l[0]) + seq![','] + ser_entries(l.drop_first()))
                + seq![','] + ser_entry(x));
        }
    }
}

/// Appends the characters of a string slice.
fn push_str_chars(out: &mut Vec<char>, s: &str)
    ensures
        final(out)@ == old(out)@ + s@,
{
    let chars = crate::strutil::str_to_chars(s);
    let n = chars.len();
    let mut i: usize = 0;
    while i < n
        invariant
            i <= n,
            n == s@.len(),
            chars@ == s@,
            out@ =~= old(out)@ + s@.take(i as int),
        decreases n - i,
    {
        out.push(chars[i]);
        proof {
            assert(out@ =~= old(out)@ + s@.take(i + 1));
        }
        i += 1;
    }
    proof {
        assert(s@.take(n as int) =~= s@);
        assert(out@ =~= old(out)@ + s@);
    }
}

/// Appends one escaped character.
fn push_escaped_char(out: &mut Vec<char>, c: char)
    ensures
        final(out)@ == old(out)@ + esc_char(c),
{
    if c == '"' {
        out.push('\\');
        out.push('"');
        proof {
            assert(out@ =~= old(out)@ + esc_char(c));
        }
    } else if c == '\\' {
        out.push('\\');
        out.push('\\');
        proof {
            assert(out@ =~= old(out)@ + esc_char(c));
        }
    } else if (c as u32) < 32 {
        let d = c as u32;
        let hi = d / 16;
        let lo = d % 16;
        let hc: char = if hi <= 9 {
            ((48 + hi as u8) as char)
        } else {
            ((87 + hi as u8) as char)
        };
        let lc: char = if lo <= 9 {
            ((48 + lo as u8) as char)
        } else {
            ((87 + lo as u8) as char)
        };
        out.push('\\');
        out.push('u');
        out.push('0');
        out.push('0');
        out.push(hc);
        out.push(lc);
        proof {
            assert(c as int == d as int);
            assert(hc == hex_char(c as int / 16));
            assert(lc == hex_char(c as int % 16));
            assert(out@ =~= old(out)@ + esc_char(c));
        }
    } else {
        out.push(c);
        proof {
            assert(c as int >= 32);
            assert(out@ =~= old(out)@ + esc_char(c));
        }
    }
}

/// Appends a JSON string.
fn push_json_string(out: &mut Vec<char>, s: &String)
    ensures
        final(out)@ == old(out)@ + ser_string(s@),
{
    out.push('"');
    let chars = crate::strutil::str_to_chars(s.as_str());
    let n = chars.len();
    let mut i: usize = 0;
    while i < n
        invariant
            i <= n,
            n == s@.len(),
            chars@ == s@,
            out@ =~= old(out)@ + seq!['"'] + escape(s@.take(i as int)),
        decreases n - i,
    {
        push_escaped_char(out, chars[i]);
        proof {
            assert(s@.take(i + 1) =~= s@.take(i as int).push(s@[i as int]));
            lemma_escape_push(s@.take(i as int), s@[i as int]);
            assert(out@ =~= old(out)@ + seq!['"'] + escape(s@.take(i + 1)));
        }
        i += 1;
    }
    out.push('"');
    proof {
        assert(s@.take(n as int) =~= s@);
        assert(out@ =~= old(out)@ + ser_string(s@));
    }
}

/// Appends a JSON array of strings.
fn push_string_list(out: &mut Vec<char>, l: &Vec<String>)
    ensures
        final(out)@ == old(out)@ + ser_string_list(l.deep_view()),
{
    out.push('[');
    let n = l.len();
    let mut i: usize = 0;
    while i < n
        invariant
            i <= n,
            n == l@.len(),
            out@ =~= old(out)@ + seq!['['] + ser_string_items(l.deep_view().take(i as int)),
        decreases n - i,
    {
        if i > 0 {
            out.push(',');
        }
        push_json_string(out, &l[i]);
        proof {
            assert(l.deep_view().take(i + 1) =~= l.deep_view().take(i as int).push(
                l.deep_view()[i as int],
            ));
            lemma_items_push(l.deep_view().take(i as int), l.deep_view()[i as int]);
            assert(l.deep_view()[i as int] == l@[i as int]@);
            assert(out@ =~= old(out)@ + seq!['['] + ser_string_items(l.deep_view().take(i + 1)));
        }
        i += 1;
    }
    out.push(']');
    proof {
        assert(l.deep_view().take(n as int) =~= l.deep_view());
        assert(out@ =~= old(out)@ + ser_string_list(l.deep_view()));
    }
}

/// Appends one package record.
#[verifier::rlimit(100)]
#[verifier::spinoff_prover]
fn push_info(out: &mut Vec<char>, info: &PackageInfo)
    ensures
        final(out)@ == old(out)@ + ser_info(info@),
{
    push_str_chars(out, "{\"url\":");
    match &info.url {
        Some(u) => {
            push_json_string(out, u);
        },
        None => {
            push_str_chars(out, "null");
            proof {
                reveal_strlit("null");
                assert("null"@ =~= null_str());
            }
        },
    }
    push_str_chars(out, ",\"is_dependency\":");
    if info.is_dependency {
        push_str_chars(out, "true");
        proof {
            reveal_strlit("true");
            assert("true"@ =~= ser_bool(true));
        }
    } else {
        push_str_chars(out, "false");
        proof {
            reveal_strlit("false");
            assert("false"@ =~= ser_bool(false));
        }
    }
    push_str_chars(out, ",\"dependencies\":");
    push_string_list(out, &info.dependencies);
    push_str_chars(out, ",\"build\":");
    match &info.build {
        Some(b) => {
            push_str_chars(out, "{\"time\":");
            let mut digits = crate::numbers::i64_to_string(b.time);
            out.append(&mut digits);
            push_str_chars(out, ",\"files\":");
            push_string_list(out, &b.files);
            out.push('}');
        },
        None => {
            push_str_chars(out, "null");
            proof {
                reveal_strlit("null");
                assert("null"@ =~= null_str());
            }
        },
    }
    out.push('}');
    proof {
        assert(out@ =~= old(out)@ + ser_info(info@));
    }
}

/// Writes the whole state document.
pub fn serialize_state(state: &State) -> (r: String)
    ensures
        r@ == ser_state(entries_view(state.entries@)),
{
    let mut out: Vec<char> = Vec::new();
    push_str_chars(&mut out, "{\"package_status\":{");
    let n = state.entries.len();
    let mut i: usize = 0;
    while i < n
        invariant
            i <= n,
            n == state.entries@.len(),
            out@ =~= "{\"package_status\":{"@ + ser_entries(
                entries_view(state.entries@.take(i as int)),
            ),
        decreases n - i,
    {
        if i > 0 {
            out.push(',');
        }
        push_json_string(&mut out, &state.entries[i].0);
        out.push(':');
        push_info(&mut out, &state.entries[i].1);
        proof {
            assert(state.entries@.take(i + 1).drop_last() =~= state.entries@.take(i as int));
            assert(state.entries@.take(i + 1).last() == state.entries@[i as int]);
            assert(entries_view(state.entries@.take(i + 1)) =~= entries_view(
                state.entries@.take(i as int),
            ).push((state.entries@[i as int].0@, state.entries@[i as int].1@)));
            lemma_entries_push(
                entries_view(state.entries@.take(i as int)),
                (state.entries@[i as int].0@, state.entries@[i as int].1@),
            );
            assert(out@ =~= "{\"package_status\":{"@ + ser_entries(
                entries_view(state.entries@.take(i + 1)),
            ));
        }
        i += 1;
    }
    out.push('}');
    out.push('}');
    proof {
        assert(state.entries@.take(n as int) =~= state.entries@);
        assert(out@ =~= ser_state(entries_view(state.entries@)));
    }
    crate::strutil::chars_to_string(&out)
}


// ---------------------------------------------------------------------------
// The executable reader.

/// Everything the reader refuses: a document the parser cannot consume, a
/// build time outside the machine's integer range, or a duplicate name.
#[derive(Debug)]
pub enum Error {
    Malformed,
}

pub open spec fn build_time_ok(b: Option<crate::state::BuildView>) -> bool {
    match b {
        Some(bv) => i64::MIN <= bv.time <= i64::MAX,
        None => true,
    }
}

pub open spec fn entries_times_ok(es: Seq<(Seq<char>, PackageInfoView)>) -> bool {
    forall|k: int| 0 <= k < es.len() ==> build_time_ok((#[trigger] es[k]).1.build)
}

pub open spec fn view_names_unique(es: Seq<(Seq<char>, PackageInfoView)>) -> bool {
    forall|i: int, j: int| 0 <= i < j < es.len() ==> es[i].0 != es[j].0
}

/// A state document that loading accepts.
pub open spec fn loadable(s: Seq<char>) -> bool {
    match parse_state(s) {
        Some(es) => entries_times_ok(es) && view_names_unique(es),
        None => false,
    }
}

fn p_literal(v: &Vec<char>, pos: usize, lit: &str) -> (r: Option<usize>)
    requires
        pos <= v@.len(),
    ensures
        match r {
            Some(np) => pos <= np <= v@.len() && parse_literal(v@.skip(pos as int), lit@)
                == Some(v@.skip(np as int)),
            None => parse_literal(v@.skip(pos as int), lit@) is None,
        },
{
    let lchars = crate::strutil::str_to_chars(lit);
    let m = lchars.len();
    let n = v.len();
    if n - pos < m {
        return None;
    }
    let mut i: usize = 0;
    while i < m
        invariant
            i <= m,
            n == v@.len(),
            pos <= n,
            m <= n - pos,
            m == lit@.len(),
            lchars@ == lit@,
            forall|j: int| 0 <= j < i ==> v@[pos + j] == lit@[j],
        decreases m - i,
    {
        if v[pos + i] != lchars[i] {
            proof {
                assert(v@.skip(pos as int).take(lit@.len() as int)[i as int] != lit@[i as int]);
            }
            return None;
        }
        i += 1;
    }
    proof {
        assert(v@.skip(pos as int).take(lit@.len() as int) =~= lit@);
        assert(v@.skip(pos as int).skip(lit@.len() as int) =~= v@.skip(pos + m));
    }
    Some(pos + m)
}

fn hex_digit_val(c: char) -> (r: Option<u32>)
    ensures
        match r {
            Some(d) => is_hex(c) && d == hex_val(c) && d < 16,
            None => !is_hex(c),
        },
{
    if '0' <= c && c <= '9' {
        Some(c as u32 - 48)
    } else if 'a' <= c && c <= 'f' {
        Some(c as u32 - 87)
    } else {
        None
    }
}

fn p_string_body(v: &Vec<char>, pos: usize) -> (r: Option<(Vec<char>, usize)>)
    requires
        pos <= v@.len(),
    ensures
        match r {
            Some(p) => pos <= p.1 <= v@.len() && parse_string_body(v@.skip(pos as int))
                == Some((p.0@, v@.skip(p.1 as int))),
            None => parse_string_body(v@.skip(pos as int)) is None,
        },
    decreases v@.len() - pos,
{
    let ghost s = v@.skip(pos as int);
    if pos == v.len() {
        return None;
    }
    let c = v[pos];
    proof {
        assert(s[0] == c);
    }
    if c == '"' {
        proof {
            assert(s.skip(1) =~= v@.skip(pos + 1));
        }
        return Some((Vec::new(), pos + 1));
    }
    if c == '\\' {
        if v.len() - pos >= 2 && (v[pos + 1] == '"' || v[pos + 1] == '\\') {
            proof {
                assert(s[1] == v@[pos + 1]);
                assert(s.skip(2) =~= v@.skip(pos + 2));
            }
            match p_string_body(v, pos + 2) {
                Some((mut val, np)) => {
                    let e = v[pos + 1];
                    val.insert(0, e);
                    proof {
                        assert(val@ =~= seq![s[1]] + val@.skip(1));
                    }
                    return Some((val, np));
                },
                None => {
                    return None;
                },
            }
        }
        if v.len() - pos >= 6 && v[pos + 1] == 'u' && v[pos + 2] == '0' && v[pos + 3] == '0' {
            proof {
                assert(s[1] == v@[pos + 1]);
                assert(s[2] == v@[pos + 2]);
                assert(s[3] == v@[pos + 3]);
                assert(s[4] == v@[pos + 4]);
                assert(s[5] == v@[pos + 5]);
            }
            let h1 = hex_digit_val(v[pos + 4]);
            let h2 = hex_digit_val(v[pos + 5]);
            match (h1, h2) {
                (Some(d1), Some(d2)) => {
                    proof {
                        assert(s.skip(6) =~= v@.skip(pos + 6));
                    }
                    match p_string_body(v, pos + 6) {
                        Some((mut val, np)) => {
                            let code: u32 = d1 * 16 + d2;
                            let ch: char = (code as u8) as char;
                            proof {
                                assert(code < 256);
                                assert(ch == ((hex_val(s[4]) * 16 + hex_val(s[5])) as char));
                            }
                            val.insert(0, ch);
                            proof {
                                assert(val@ =~= seq![
                                    ((hex_val(s[4]) * 16 + hex_val(s[5])) as char),
                                ] + val@.skip(1));
                            }
                            return Some((val, np));
                        },
                        None => {
                            return None;
                        },
                    }
                },
                _ => {
                    return None;
                },
            }
        }
        return None;
    }
    proof {
        assert(s.skip(1) =~= v@.skip(pos + 1));
    }
    match p_string_body(v, pos + 1) {
        Some((mut val, np)) => {
            val.insert(0, c);
            proof {
                assert(val@ =~= seq![s[0]] + val@.skip(1));
            }
            Some((val, np))
        },
        None => None,
    }
}

fn p_string(v: &Vec<char>, pos: usize) -> (r: Option<(Vec<char>, usize)>)
    requires
        pos <= v@.len(),
    ensures
        match r {
            Some(p) => pos < p.1 <= v@.len() && parse_string(v@.skip(pos as int))
                == Some((p.0@, v@.skip(p.1 as int))),
            None => parse_string(v@.skip(pos as int)) is None,
        },
{
    if pos < v.len() && v[pos] == '"' {
        proof {
            assert(v@.skip(pos as int)[0] == v@[pos as int]);
            assert(v@.skip(pos as int).skip(1) =~= v@.skip(pos + 1));
        }
        let r = p_string_body(v, pos + 1);
        proof {
            lemma_parse_string_body_shrinks_pub(v@.skip(pos + 1));
        }
        r
    } else {
        None
    }
}

fn p_int(v: &Vec<char>, pos: usize) -> (r: Option<(i64, usize)>)
    requires
        pos <= v@.len(),
    ensures
        match r {
            Some(p) => pos <= p.1 <= v@.len() && parse_int(v@.skip(pos as int))
                == Some((p.0 as int, v@.skip(p.1 as int))),
            None => match parse_int(v@.skip(pos as int)) {
                Some(q) => !(i64::MIN <= q.0 <= i64::MAX),
                None => true,
            },
        },
{
    let ghost s = v@.skip(pos as int);
    let len = v.len();
    if pos == len {
        return None;
    }
    let neg = v[pos] == '-';
    proof {
        assert(s[0] == v@[pos as int]);
    }
    let start: usize = if neg {
        pos + 1
    } else {
        pos
    };
    let ghost d_all = if neg { s.skip(1) } else { s };
    proof {
        if neg {
            assert(d_all =~= v@.skip(start as int));
        } else {
            assert(d_all =~= v@.skip(start as int));
        }
    }
    let limit: u64 = if neg {
        9223372036854775808
    } else {
        9223372036854775807
    };
    let mut acc: u64 = 0;
    let mut i: usize = start;
    while i < len && is_digit_exec(v[i])
        invariant
            start <= i <= len,
            len == v@.len(),
            pos <= start <= len,
            pos < len,
            s == v@.skip(pos as int),
            s.len() >= 1,
            neg == (s[0] == '-'),
            start == if neg { pos + 1int } else { pos as int },
            d_all == if neg { s.skip(1) } else { s },
            d_all == v@.skip(start as int),
            forall|j: int| 0 <= j < i - start ==> is_digit(#[trigger] d_all[j]),
            acc == str_to_nat(d_all.take(i - start)),
            acc <= limit,
            limit == if neg { 9223372036854775808u64 } else { 9223372036854775807u64 },
        decreases len - i,
    {
        let c = v[i];
        proof {
            assert(d_all[i - start] == v@[i as int]);
        }
        let dv: u64 = (c as u32 - 48) as u64;
        proof {
            assert(dv == digit_val(c));
            assert(d_all.take(i - start + 1).drop_last() =~= d_all.take(i - start));
            assert(d_all.take(i - start + 1).last() == d_all[i - start]);
        }
        if acc > (limit - dv) / 10 {
            proof {
                assert(acc * 10 + dv > limit) by (nonlinear_arith)
                    requires
                        acc > (limit - dv) / 10,
                        0 <= dv <= 9,
                        acc >= 0,
                        limit >= 9,
                ;
                lemma_int_overflow(d_all, i - start + 1, limit as int, neg, s, v@, pos as int);
            }
            return None;
        }
        proof {
            assert(acc * 10 + dv <= limit) by (nonlinear_arith)
                requires
                    acc <= (limit - dv) / 10,
                    0 <= dv <= 9,
                    acc >= 0,
                    limit >= 9,
            ;
        }
        acc = acc * 10 + dv;
        i += 1;
    }
    let ghost d = d_all.take(i - start);
    proof {
        assert(all_digits(d)) by {
            assert(forall|j: int| 0 <= j < d.len() ==> is_digit(#[trigger] d[j]));
        }
        if i < len {
            assert(d_all[i - start] == v@[i as int]);
            assert(!is_digit(d_all[i - start]));
        }
        assert(d_all =~= d + d_all.skip(i - start));
        assert(d_all.skip(i - start) =~= v@.skip(i as int));
        if d_all.skip(i - start).len() > 0 {
            assert(d_all.skip(i - start)[0] == d_all[i - start]);
        }
        lemma_take_digits_all(d, d_all.skip(i - start));
    }
    if i == start {
        proof {
            assert(d.len() == 0);
        }
        return None;
    }
    if neg {
        if acc == 9223372036854775808 {
            return Some((i64::MIN, i));
        }
        Some((-(acc as i64), i))
    } else {
        Some((acc as i64, i))
    }
}

fn is_digit_exec(c: char) -> (r: bool)
    ensures
        r == is_digit(c),
{
    '0' <= c && c <= '9'
}

/// When a digit prefix already exceeds the magnitude limit, the full parsed
/// value does too.
proof fn lemma_int_overflow(
    d_all: Seq<char>,
    upto: int,
    limit: int,
    neg: bool,
    s: Seq<char>,
    whole: Seq<char>,
    pos: int,
)
    requires
        0 <= upto <= d_all.len(),
        forall|j: int| 0 <= j < upto ==> is_digit(#[trigger] d_all[j]),
        str_to_nat(d_all.take(upto)) > limit,
        limit == if neg { 9223372036854775808int } else { 9223372036854775807int },
        0 <= pos <= whole.len(),
        s == whole.skip(pos),
        s.len() >= 1,
        neg == (s[0] == '-'),
        d_all == if neg { s.skip(1) } else { s },
    ensures
        match parse_int(whole.skip(pos)) {
            Some(q) => !(i64::MIN <= q.0 <= i64::MAX),
            None => true,
        },
{
    match parse_int(s) {
        Some((value, rest)) => {
            let (dd, rr) = if neg {
                take_digits(s.skip(1))
            } else {
                take_digits(s)
            };
            lemma_take_digits_len(if neg { s.skip(1) } else { s });
            // The scanned digits are a prefix of the taken digits.
            assert(dd =~= d_all.take(dd.len() as int));
            if dd.len() < upto {
                // d_all[dd.len()] is a digit, contradicting maximality.
                assert(is_digit(d_all[dd.len() as int]));
                assert(rr == d_all.skip(dd.len() as int));
                assert(rr[0] == d_all[dd.len() as int]);
                lemma_take_digits_first_not_digit(if neg { s.skip(1) } else { s });
                assert(false);
            }
            crate::numbers::lemma_str_to_nat_monotone(dd, upto);
            assert(dd.take(upto) =~= d_all.take(upto));
            assert(str_to_nat(dd) >= str_to_nat(dd.take(upto)));
            assert(str_to_nat(dd) > limit);
            if neg {
                assert(value == -str_to_nat(dd));
            } else {
                assert(value == str_to_nat(dd));
            }
        },
        None => {},
    }
}

/// What follows the taken digits does not start with a digit.
proof fn lemma_take_digits_first_not_digit(s: Seq<char>)
    ensures
        take_digits(s).1.len() > 0 ==> !is_digit(take_digits(s).1[0]),
    decreases s.len(),
{
    if s.len() > 0 && is_digit(s[0]) {
        lemma_take_digits_first_not_digit(s.drop_first());
    }
}

/// Public face of the body-shrink lemma for use in exec proofs.
proof fn lemma_parse_string_body_shrinks_pub(s: Seq<char>)
    ensures
        parse_string_body(s) matches Some(p) ==> p.1.len() < s.len(),
{
    lemma_parse_string_body_shrinks(s);
}

fn p_bool(v: &Vec<char>, pos: usize) -> (r: Option<(bool, usize)>)
    requires
        pos <= v@.len(),
    ensures
        match r {
            Some(p) => pos <= p.1 <= v@.len() && parse_bool(v@.skip(pos as int))
                == Some((p.0, v@.skip(p.1 as int))),
            None => parse_bool(v@.skip(pos as int)) is None,
        },
{
    proof {
        reveal_strlit("true");
        reveal_strlit("false");
        assert("true"@ =~= ser_bool(true));
        assert("false"@ =~= ser_bool(false));
    }
    match p_literal(v, pos, "true") {
        Some(np) => Some((true, np)),
        None => match p_literal(v, pos, "false") {
            Some(np) => Some((false, np)),
            None => None,
        },
    }
}

fn p_opt_string(v: &Vec<char>, pos: usize) -> (r: Option<(Option<String>, usize)>)
    requires
        pos <= v@.len(),
    ensures
        match r {
            Some(p) => pos <= p.1 <= v@.len() && parse_opt_string(v@.skip(pos as int)) == Some(
                (
                    match p.0 {
                        Some(u) => Some(u@),
                        None => None,
                    },
                    v@.skip(p.1 as int),
                ),
            ),
            None => parse_opt_string(v@.skip(pos as int)) is None,
        },
{
    proof {
        reveal_strlit("null");
        assert("null"@ =~= null_str());
    }
    match p_literal(v, pos, "null") {
        Some(np) => Some((None, np)),
        None => match p_string(v, pos) {
            Some((val, np)) => Some((Some(crate::strutil::chars_to_string(&val)), np)),
            None => None,
        },
    }
}

fn p_string_items(v: &Vec<char>, pos: usize) -> (r: Option<(Vec<String>, usize)>)
    requires
        pos <= v@.len(),
    ensures
        match r {
            Some(p) => pos <= p.1 <= v@.len() && parse_string_items(v@.skip(pos as int))
                == Some((p.0.deep_view(), v@.skip(p.1 as int))),
            None => parse_string_items(v@.skip(pos as int)) is None,
        },
    decreases v@.len() - pos,
{
    let ghost s = v@.skip(pos as int);
    if pos < v.len() && v[pos] == ']' {
        let empty_vec: Vec<String> = Vec::new();
        proof {
            assert(s[0] == v@[pos as int]);
            assert(s.skip(1) =~= v@.skip(pos + 1));
            assert(empty_vec.deep_view() =~= Seq::<Seq<char>>::empty());
        }
        return Some((empty_vec, pos + 1));
    }
    proof {
        if s.len() >= 1 {
            assert(s[0] == v@[pos as int]);
        }
    }
    match p_string(v, pos) {
        Some((val, np)) => {
            let value = crate::strutil::chars_to_string(&val);
            if np < v.len() && v[np] == ',' {
                proof {
                    assert(v@.skip(np as int)[0] == v@[np as int]);
                    assert(v@.skip(np as int).skip(1) =~= v@.skip(np + 1));
                }
                match p_string_items(v, np + 1) {
                    Some((mut vs, np2)) => {
                        vs.insert(0, value);
                        proof {
                            assert(vs.deep_view() =~~= seq![val@] + vs.deep_view().skip(1));
                        }
                        Some((vs, np2))
                    },
                    None => None,
                }
            } else if np < v.len() && v[np] == ']' {
                proof {
                    assert(v@.skip(np as int)[0] == v@[np as int]);
                    assert(v@.skip(np as int).skip(1) =~= v@.skip(np + 1));
                }
                let mut vs: Vec<String> = Vec::new();
                vs.push(value);
                proof {
                    assert(vs.deep_view() =~~= seq![val@]);
                }
                Some((vs, np + 1))
            } else {
                proof {
                    let rest = v@.skip(np as int);
                    if rest.len() >= 1 {
                        assert(rest[0] == v@[np as int]);
                    }
                }
                None
            }
        },
        None => None,
    }
}

fn p_string_list(v: &Vec<char>, pos: usize) -> (r: Option<(Vec<String>, usize)>)
    requires
        pos <= v@.len(),
    ensures
        match r {
            Some(p) => pos <= p.1 <= v@.len() && parse_string_list(v@.skip(pos as int))
                == Some((p.0.deep_view(), v@.skip(p.1 as int))),
            None => parse_string_list(v@.skip(pos as int)) is None,
        },
{
    if pos < v.len() && v[pos] == '[' {
        proof {
            assert(v@.skip(pos as int)[0] == v@[pos as int]);
            assert(v@.skip(pos as int).skip(1) =~= v@.skip(pos + 1));
        }
        p_string_items(v, pos + 1)
    } else {
        None
    }
}

fn p_build(v: &Vec<char>, pos: usize) -> (r: Option<(Option<crate::state::Build>, usize)>)
    requires
        pos <= v@.len(),
    ensures
        match r {
            Some(p) => pos <= p.1 <= v@.len() && parse_build(v@.skip(pos as int)) == Some(
                (
                    match p.0 {
                        Some(b) => Some(b@),
                        None => None,
                    },
                    v@.skip(p.1 as int),
                ),
            ),
            None => !(parse_build(v@.skip(pos as int)) matches Some(q) && build_time_ok(q.0)),
        },
{
    proof {
        reveal_strlit("null");
        assert("null"@ =~= null_str());
    }
    match p_literal(v, pos, "null") {
        Some(np) => Some((None, np)),
        None => {
            match p_literal(v, pos, "{\"time\":") {
                Some(r1) => match p_int(v, r1) {
                    Some((t, r2)) => match p_literal(v, r2, ",\"files\":") {
                        Some(r3) => match p_string_list(v, r3) {
                            Some((fs, r4)) => {
                                if r4 < v.len() && v[r4] == '}' {
                                    proof {
                                        assert(v@.skip(r4 as int)[0] == v@[r4 as int]);
                                        assert(v@.skip(r4 as int).skip(1) =~= v@.skip(r4 + 1));
                                    }
                                    let b = crate::state::Build { time: t, files: fs };
                                    Some((Some(b), r4 + 1))
                                } else {
                                    proof {
                                        let rest = v@.skip(r4 as int);
                                        if rest.len() >= 1 {
                                            assert(rest[0] == v@[r4 as int]);
                                        }
                                    }
                                    None
                                }
                            },
                            None => None,
                        },
                        None => None,
                    },
                    None => None,
                },
                None => None,
            }
        },
    }
}

#[verifier::rlimit(100)]
#[verifier::spinoff_prover]
fn p_info(v: &Vec<char>, pos: usize) -> (r: Option<(PackageInfo, usize)>)
    requires
        pos <= v@.len(),
    ensures
        match r {
            Some(p) => pos <= p.1 <= v@.len() && parse_info(v@.skip(pos as int))
                == Some((p.0@, v@.skip(p.1 as int))),
            None => !(parse_info(v@.skip(pos as int)) matches Some(q) && build_time_ok(
                q.0.build,
            )),
        },
{
    match p_literal(v, pos, "{\"url\":") {
        Some(r1) => match p_opt_string(v, r1) {
            Some((url, r2)) => match p_literal(v, r2, ",\"is_dependency\":") {
                Some(r3) => match p_bool(v, r3) {
                    Some((dep, r4)) => match p_literal(v, r4, ",\"dependencies\":") {
                        Some(r5) => match p_string_list(v, r5) {
                            Some((deps, r6)) => match p_literal(v, r6, ",\"build\":") {
                                Some(r7) => match p_build(v, r7) {
                                    Some((b, r8)) => {
                                        if r8 < v.len() && v[r8] == '}' {
                                            proof {
                                                assert(v@.skip(r8 as int)[0] == v@[r8 as int]);
                                                assert(v@.skip(r8 as int).skip(1) =~= v@.skip(
                                                    r8 + 1,
                                                ));
                                            }
                                            let info = PackageInfo {
                                                url: url,
                                                is_dependency: dep,
                                                dependencies: deps,
                                                build: b,
                                            };
                                            Some((info, r8 + 1))
                                        } else {
                                            proof {
                                                let rest = v@.skip(r8 as int);
                                                if rest.len() >= 1 {
                                                    assert(rest[0] == v@[r8 as int]);
                                                }
                                            }
                                            None
                                        }
                                    },
                                    None => None,
                                },
                                None => None,
                            },
                            None => None,
                        },
                        None => None,
                    },
                    None => None,
                },
                None => None,
            },
            None => None,
        },
        None => None,
    }
}

fn p_entry(v: &Vec<char>, pos: usize) -> (r: Option<((String, PackageInfo), usize)>)
    requires
        pos <= v@.len(),
    ensures
        match r {
            Some(p) => pos <= p.1 <= v@.len() && parse_entry(v@.skip(pos as int))
                == Some(((p.0.0@, p.0.1@), v@.skip(p.1 as int))),
            None => !(parse_entry(v@.skip(pos as int)) matches Some(q) && build_time_ok(
                q.0.1.build,
            )),
        },
{
    match p_string(v, pos) {
        Some((name, r1)) => {
            if r1 < v.len() && v[r1] == ':' {
                proof {
                    assert(v@.skip(r1 as int)[0] == v@[r1 as int]);
                    assert(v@.skip(r1 as int).skip(1) =~= v@.skip(r1 + 1));
                }
                match p_info(v, r1 + 1) {
                    Some((info, r2)) => Some(
                        ((crate::strutil::chars_to_string(&name), info), r2),
                    ),
                    None => None,
                }
            } else {
                proof {
                    let rest = v@.skip(r1 as int);
                    if rest.len() >= 1 {
                        assert(rest[0] == v@[r1 as int]);
                    }
                }
                None
            }
        },
        None => None,
    }
}

proof fn lemma_entries_view_index(s: Seq<(String, PackageInfo)>, k: int)
    requires
        0 <= k < s.len(),
    ensures
        entries_view(s).len() == s.len(),
        entries_view(s)[k] == (s[k].0@, s[k].1@),
    decreases s.len(),
{
    if k < s.len() - 1 {
        assert(s.drop_last()[k] == s[k]);
        lemma_entries_view_index(s.drop_last(), k);
    } else {
        lemma_entries_view_len(s.drop_last());
    }
}

proof fn lemma_entries_view_len(s: Seq<(String, PackageInfo)>)
    ensures
        entries_view(s).len() == s.len(),
    decreases s.len(),
{
    if s.len() > 0 {
        lemma_entries_view_len(s.drop_last());
    }
}

#[verifier::rlimit(100)]
#[verifier::spinoff_prover]
fn p_entries_rest(v: &Vec<char>, pos: usize) -> (r: Option<(Vec<(String, PackageInfo)>, usize)>)
    requires
        pos <= v@.len(),
    ensures
        match r {
            Some(p) => pos <= p.1 <= v@.len() && parse_entries_rest(v@.skip(pos as int))
                == Some((entries_view(p.0@), v@.skip(p.1 as int))),
            None => !(parse_entries_rest(v@.skip(pos as int)) matches Some(q)
                && entries_times_ok(q.0)),
        },
    decreases v@.len() - pos,
{
    let ghost s = v@.skip(pos as int);
    if pos < v.len() && v[pos] == '}' {
        let empty_vec: Vec<(String, PackageInfo)> = Vec::new();
        proof {
            assert(s[0] == v@[pos as int]);
            assert(s.skip(1) =~= v@.skip(pos + 1));
            assert(entries_view(empty_vec@) =~= Seq::<(Seq<char>, PackageInfoView)>::empty());
        }
        return Some((empty_vec, pos + 1));
    }
    proof {
        if s.len() >= 1 {
            assert(s[0] == v@[pos as int]);
        }
    }
    match p_entry(v, pos) {
        Some((e, np)) => {
            proof {
                lemma_parse_entry_shrinks_pub(s);
            }
            if np < v.len() && v[np] == ',' {
                proof {
                    assert(v@.skip(np as int)[0] == v@[np as int]);
                    assert(v@.skip(np as int).skip(1) =~= v@.skip(np + 1));
                }
                match p_entries_rest(v, np + 1) {
                    Some((mut es, np2)) => {
                        let ghost oldes = es@;
                        let ghost eview = (e.0@, e.1@);
                        es.insert(0, e);
                        proof {
                            assert(es@.drop_first() =~= oldes);
                            assert(es@[0] == e);
                            lemma_entries_view_prepend(es@, oldes, eview);
                        }
                        Some((es, np2))
                    },
                    None => {
                        proof {
                            lemma_entries_cons_not_ok(s, v@.skip(np as int));
                        }
                        None
                    },
                }
            } else if np < v.len() && v[np] == '}' {
                proof {
                    assert(v@.skip(np as int)[0] == v@[np as int]);
                    assert(v@.skip(np as int).skip(1) =~= v@.skip(np + 1));
                }
                let mut es: Vec<(String, PackageInfo)> = Vec::new();
                let ghost eview = (e.0@, e.1@);
                es.push(e);
                proof {
                    assert(es@.drop_last().len() == 0);
                    assert(entries_view(es@.drop_last())
                        =~= Seq::<(Seq<char>, PackageInfoView)>::empty());
                    assert(es@.last().0@ == eview.0 && es@.last().1@ == eview.1);
                    assert(entries_view(es@) == entries_view(es@.drop_last()).push(
                        (es@.last().0@, es@.last().1@),
                    ));
                    assert(entries_view(es@) =~= seq![eview]);
                }
                Some((es, np + 1))
            } else {
                proof {
                    let rest = v@.skip(np as int);
                    if rest.len() >= 1 {
                        assert(rest[0] == v@[np as int]);
                    }
                }
                None
            }
        },
        None => {
            proof {
                match parse_entry(s) {
                    Some((ev, r)) => {
                        assert(!build_time_ok(ev.1.build));
                        if r.len() >= 1 && r[0] == ',' {
                            match parse_entries_rest(r.skip(1)) {
                                Some((es2, rr)) => {
                                    let whole = seq![ev] + es2;
                                    assert(whole[0] == ev);
                                    assert(parse_entries_rest(s) == Some((whole, rr)));
                                    if entries_times_ok(whole) {
                                        assert(build_time_ok(whole[0].1.build));
                                        assert(false);
                                    }
                                },
                                None => {},
                            }
                        } else if r.len() >= 1 && r[0] == '}' {
                            let whole = seq![ev];
                            assert(whole[0] == ev);
                            assert(parse_entries_rest(s) == Some((whole, r.skip(1))));
                            if entries_times_ok(whole) {
                                assert(build_time_ok(whole[0].1.build));
                                assert(false);
                            }
                        }
                    },
                    None => {},
                }
            }
            None
        },
    }
}

/// Prepending an entry prepends its view.
proof fn lemma_entries_view_prepend(
    full: Seq<(String, PackageInfo)>,
    rest: Seq<(String, PackageInfo)>,
    eview: (Seq<char>, PackageInfoView),
)
    requires
        full.len() == rest.len() + 1,
        full.drop_first() == rest,
        eview == (full[0].0@, full[0].1@),
    ensures
        entries_view(full) == seq![eview] + entries_view(rest),
    decreases full.len(),
{
    if rest.len() == 0 {
        assert(full.drop_last().len() == 0);
        assert(entries_view(full.drop_last()) =~= Seq::<(Seq<char>, PackageInfoView)>::empty());
        assert(full.last() == full[0]);
        assert(entries_view(full) == entries_view(full.drop_last()).push(
            (full.last().0@, full.last().1@),
        ));
        assert(entries_view(full) =~= seq![eview]);
        assert(entries_view(rest) =~= Seq::<(Seq<char>, PackageInfoView)>::empty());
        assert(seq![eview] + entries_view(rest) =~= seq![eview]);
    } else {
        assert(full.drop_last().drop_first() =~= rest.drop_last());
        assert(full.drop_last()[0] == full[0]);
        lemma_entries_view_prepend(full.drop_last(), rest.drop_last(), eview);
        assert(full.last() == rest.last());
        assert(entries_view(full) == entries_view(full.drop_last()).push(
            (full.last().0@, full.last().1@),
        ));
        assert((seq![eview] + entries_view(rest.drop_last())).push(
            (rest.last().0@, rest.last().1@),
        ) =~= seq![eview] + entries_view(rest));
    }
}

/// If the tail entries fail the time check, so does the whole list.
proof fn lemma_entries_cons_not_ok(s: Seq<char>, r: Seq<char>)
    requires
        s.len() >= 1,
        s[0] != '}',
        parse_entry(s) is Some,
        r == (parse_entry(s)->0).1,
        r.len() >= 1,
        r[0] == ',',
        !(parse_entries_rest(r.skip(1)) matches Some(q) && entries_times_ok(q.0)),
        build_time_ok((parse_entry(s)->0).0.1.build),
    ensures
        !(parse_entries_rest(s) matches Some(q) && entries_times_ok(q.0)),
{
    match parse_entries_rest(r.skip(1)) {
        Some((es, r2)) => {
            let e = (parse_entry(s)->0).0;
            assert(parse_entries_rest(s) == Some((seq![e] + es, r2)));
            if entries_times_ok(seq![e] + es) {
                assert forall|k: int| 0 <= k < es.len() implies build_time_ok(
                    (#[trigger] es[k]).1.build,
                ) by {
                    assert((seq![e] + es)[k + 1] == es[k]);
                }
                assert(false);
            }
        },
        None => {},
    }
}

proof fn lemma_parse_entry_shrinks_pub(s: Seq<char>)
    ensures
        parse_entry(s) matches Some(p) ==> p.1.len() < s.len(),
{
    lemma_parse_entry_shrinks(s);
}

/// Whether two entries share a name.
fn find_duplicate_name(entries: &Vec<(String, PackageInfo)>) -> (r: bool)
    ensures
        r == exists|a: int, b: int|
            0 <= a < b < entries@.len() && (#[trigger] entries@[a]).0@
                == (#[trigger] entries@[b]).0@,
{
    let n = entries.len();
    let mut i: usize = 0;
    while i < n
        invariant
            i <= n,
            n == entries@.len(),
            forall|a: int, b: int| 0 <= a < b < entries@.len() && b < i
                ==> (#[trigger] entries@[a]).0@ != (#[trigger] entries@[b]).0@,
        decreases n - i,
    {
        let mut j: usize = 0;
        while j < i
            invariant
                j <= i,
                i < n,
                n == entries@.len(),
                forall|b: int| 0 <= b < j ==> (#[trigger] entries@[b]).0@
                    != entries@[i as int].0@,
            decreases i - j,
        {
            if crate::state::string_eq(&entries[j].0, &entries[i].0) {
                return true;
            }
            j += 1;
        }
        i += 1;
    }
    proof {
        if exists|a: int, b: int| 0 <= a < b < entries@.len() && (#[trigger] entries@[a]).0@
            == (#[trigger] entries@[b]).0@ {
            let (a, b) = choose|a: int, b: int|
                0 <= a < b < entries@.len() && (#[trigger] entries@[a]).0@
                    == (#[trigger] entries@[b]).0@;
            assert(entries@[a].0@ != entries@[b].0@);
        }
    }
    false
}

/// Reads a state document. Loading succeeds exactly on documents that parse,
/// whose build times the machine can hold, and whose names are unique; the
/// loaded state's entries are the parsed ones.
pub fn load_state(text: &str) -> (r: Result<State, Error>)
    ensures
        match r {
            Ok(st) => st.wf() && loadable(text@) && parse_state(text@) == Some(
                entries_view(st.entries@),
            ),
            Err(e) => !loadable(text@) && e is Malformed,
        },
{
    let v = crate::strutil::str_to_chars(text);
    proof {
        assert(v@.skip(0) =~= text@);
    }
    let r1 = match p_literal(&v, 0, "{\"package_status\":{") {
        Some(r1) => r1,
        None => {
            return Err(Error::Malformed);
        },
    };
    let (entries, r2) = match p_entries_rest(&v, r1) {
        Some(p) => p,
        None => {
            proof {
                match parse_entries_rest(v@.skip(r1 as int)) {
                    Some(q) => {
                        assert(!entries_times_ok(q.0));
                    },
                    None => {},
                }
            }
            return Err(Error::Malformed);
        },
    };
    let tail_ok = v.len() - r2 == 1 && v[r2] == '}';
    if !tail_ok {
        proof {
            let rest = v@.skip(r2 as int);
            if rest == seq!['}'] {
                assert(rest.len() == 1);
                assert(rest[0] == v@[r2 as int]);
                assert(false);
            }
        }
        return Err(Error::Malformed);
    }
    proof {
        assert(v@.skip(r2 as int) =~= seq!['}']);
    }
    // Names must be unique for the entry list to stand for a map.
    if find_duplicate_name(&entries) {
        proof {
            let (a, b) = choose|a: int, b: int|
                0 <= a < b < entries@.len() && (#[trigger] entries@[a]).0@
                    == (#[trigger] entries@[b]).0@;
            lemma_entries_view_index(entries@, a);
            lemma_entries_view_index(entries@, b);
            assert(!view_names_unique(entries_view(entries@)));
        }
        return Err(Error::Malformed);
    }
    let st = State { entries };
    proof {
        assert forall|a: int, b: int| 0 <= a < b < st.entries@.len()
            implies st.entries@[a].0@ != st.entries@[b].0@ by {
        }
        assert(st.wf());
        let es = entries_view(st.entries@);
        assert(entries_times_ok(es)) by {
            assert forall|k: int| 0 <= k < es.len() implies build_time_ok(
                (#[trigger] es[k]).1.build,
            ) by {
                lemma_entries_view_len(st.entries@);
                lemma_entries_view_index(st.entries@, k);
            }
        }
        assert(view_names_unique(es)) by {
            assert forall|a: int, b: int| 0 <= a < b < es.len() implies es[a].0 != es[b].0 by {
                lemma_entries_view_len(st.entries@);
                lemma_entries_view_index(st.entries@, a);
                lemma_entries_view_index(st.entries@, b);
            }
        }
    }
    Ok(st)
}

/// A document written from a well-formed state always loads: its names are
/// unique and its times fit the machine integers.
pub proof fn lemma_saved_state_loads(st: State)
    requires
        st.wf(),
    ensures
        loadable(ser_state(entries_view(st.entries@))),
        parse_state(ser_state(entries_view(st.entries@))) == Some(entries_view(st.entries@)),
{
    let es = entries_view(st.entries@);
    lemma_state_round_trip(es);
    lemma_entries_view_len(st.entries@);
    assert(entries_times_ok(es)) by {
        assert forall|k: int| 0 <= k < es.len() implies build_time_ok(
            (#[trigger] es[k]).1.build,
        ) by {
            lemma_entries_view_index(st.entries@, k);
        }
    }
    assert(view_names_unique(es)) by {
        assert forall|a: int, b: int| 0 <= a < b < es.len() implies es[a].0 != es[b].0 by {
            lemma_entries_view_index(st.entries@, a);
            lemma_entries_view_index(st.entries@, b);
        }
    }
}

} // verus!
