//! The durable snapshot format: a JSON array of professor objects, each
//! with its nested paper array, laid out in one fixed (pretty-printed)
//! shape.
//!
//! The format is defined twice over: [`spec_encode`] gives the exact
//! text written for a collection, and [`spec_decode`] reads such text
//! back.  [`lemma_decode_encode`] proves the round trip: decoding an
//! encoded collection yields the collection unchanged.  The encoder
//! writes one canonical text — string bodies escaped as JSON string
//! literals, control characters never raw; the decoder additionally
//! accepts every standard JSON string escape (`\/`, `\b`, `\f`, `\n`,
//! `\r`, `\t`, `\uXXXX`), and rejects as malformed anything outside the
//! fixed layout: unknown escapes, surrogate code points, raw control
//! characters.
use vstd::prelude::*;

use crate::records::{Paper, PaperView, Professor, ProfessorView};
use vstd::string::{StrSliceExecFns, StringExecFns};

verus! {

pub open spec fn is_digit(c: char) -> bool {
    c == '0' || c == '1' || c == '2' || c == '3' || c == '4' || c == '5' || c == '6' || c == '7'
        || c == '8' || c == '9'
}

pub open spec fn digit_val(c: char) -> int {
    if c == '0' {
        0
    } else if c == '1' {
        1
    } else if c == '2' {
        2
    } else if c == '3' {
        3
    } else if c == '4' {
        4
    } else if c == '5' {
        5
    } else if c == '6' {
        6
    } else if c == '7' {
        7
    } else if c == '8' {
        8
    } else {
        9
    }
}

pub open spec fn digit_char(d: int) -> char {
    if d == 0 {
        '0'
    } else if d == 1 {
        '1'
    } else if d == 2 {
        '2'
    } else if d == 3 {
        '3'
    } else if d == 4 {
        '4'
    } else if d == 5 {
        '5'
    } else if d == 6 {
        '6'
    } else if d == 7 {
        '7'
    } else if d == 8 {
        '8'
    } else {
        '9'
    }
}

/// The decimal digits of `n`, most significant first.
pub open spec fn dec_digits(n: nat) -> Seq<char>
    decreases n,
{
    if n < 10 {
        seq![digit_char(n as int)]
    } else {
        dec_digits(n / 10).push(digit_char((n % 10) as int))
    }
}

pub open spec fn is_hex(c: char) -> bool {
    is_digit(c) || c == 'a' || c == 'b' || c == 'c' || c == 'd' || c == 'e' || c == 'f' || c == 'A'
        || c == 'B' || c == 'C' || c == 'D' || c == 'E' || c == 'F'
}

pub open spec fn hex_val(c: char) -> int {
    if is_digit(c) {
        digit_val(c)
    } else if c == 'a' || c == 'A' {
        10
    } else if c == 'b' || c == 'B' {
        11
    } else if c == 'c' || c == 'C' {
        12
    } else if c == 'd' || c == 'D' {
        13
    } else if c == 'e' || c == 'E' {
        14
    } else {
        15
    }
}

pub open spec fn hex_digit(d: int) -> char {
    if d < 10 {
        digit_char(d)
    } else if d == 10 {
        'a'
    } else if d == 11 {
        'b'
    } else if d == 12 {
        'c'
    } else if d == 13 {
        'd'
    } else if d == 14 {
        'e'
    } else {
        'f'
    }
}

/// A string body escaped as a JSON string literal: quote and backslash
/// with a backslash, the common control characters with their short
/// escapes, the remaining control characters in `\u00..` form.
pub open spec fn esc_char(c: char) -> Seq<char> {
    if c == '"' || c == '\\' {
        seq!['\\', c]
    } else if c == '\u{8}' {
        seq!['\\', 'b']
    } else if c == '\t' {
        seq!['\\', 't']
    } else if c == '\n' {
        seq!['\\', 'n']
    } else if c == '\u{c}' {
        seq!['\\', 'f']
    } else if c == '\r' {
        seq!['\\', 'r']
    } else if (c as u32) < 0x20 {
        seq!['\\', 'u', '0', '0', hex_digit((c as u32) as int / 16), hex_digit(
            (c as u32) as int % 16,
        )]
    } else {
        seq![c]
    }
}

pub open spec fn esc(s: Seq<char>) -> Seq<char>
    decreases s.len(),
{
    if s.len() == 0 {
        Seq::empty()
    } else {
        esc_char(s[0]) + esc(s.drop_first())
    }
}

/// A quoted, escaped string.
pub open spec fn enc_str(s: Seq<char>) -> Seq<char> {
    seq!['"'] + esc(s) + seq!['"']
}

pub open spec fn enc_paper(p: PaperView) -> Seq<char> {
    "      {\n        \"id\": "@ + dec_digits(p.id as nat) + ",\n        \"title\": "@ + enc_str(
        p.title,
    ) + "\n      }"@
}

pub open spec fn enc_papers_tail(ps: Seq<PaperView>) -> Seq<char>
    decreases ps.len(),
{
    if ps.len() == 0 {
        "\n    ]"@
    } else {
        ",\n"@ + enc_paper(ps[0]) + enc_papers_tail(ps.drop_first())
    }
}

pub open spec fn enc_papers(ps: Seq<PaperView>) -> Seq<char> {
    if ps.len() == 0 {
        "[]"@
    } else {
        "[\n"@ + enc_paper(ps[0]) + enc_papers_tail(ps.drop_first())
    }
}

pub open spec fn enc_prof(p: ProfessorView) -> Seq<char> {
    "  {\n    \"id\": "@ + dec_digits(p.id as nat) + ",\n    \"name\": "@ + enc_str(p.name)
        + ",\n    \"dept\": "@ + enc_str(p.dept) + ",\n    \"desc\": "@ + enc_str(p.desc)
        + ",\n    \"papers\": "@ + enc_papers(p.papers) + "\n  }"@
}

pub open spec fn enc_profs_tail(s: Seq<ProfessorView>) -> Seq<char>
    decreases s.len(),
{
    if s.len() == 0 {
        "\n]"@
    } else {
        ",\n"@ + enc_prof(s[0]) + enc_profs_tail(s.drop_first())
    }
}

/// The full snapshot text for a collection.
pub open spec fn spec_encode(s: Seq<ProfessorView>) -> Seq<char> {
    if s.len() == 0 {
        "[]"@
    } else {
        "[\n"@ + enc_prof(s[0]) + enc_profs_tail(s.drop_first())
    }
}

/// Consumes an exact token from the front of the input.
pub open spec fn expect(s: Seq<char>, tok: Seq<char>) -> Option<Seq<char>> {
    if tok.len() <= s.len() && s.take(tok.len() as int) == tok {
        Some(s.skip(tok.len() as int))
    } else {
        None
    }
}

/// Folds leading digits into a value, most significant first.
pub open spec fn parse_digits(s: Seq<char>, acc: nat) -> (nat, Seq<char>)
    decreases s.len(),
{
    if s.len() > 0 && is_digit(s[0]) {
        parse_digits(s.drop_first(), (acc * 10 + digit_val(s[0])) as nat)
    } else {
        (acc, s)
    }
}

pub open spec fn parse_num(s: Seq<char>) -> Option<(nat, Seq<char>)> {
    if s.len() > 0 && is_digit(s[0]) {
        Some(parse_digits(s, 0))
    } else {
        None
    }
}

/// The character a short escape stands for, if the letter is one.
pub open spec fn short_escape(e: char) -> Option<char> {
    if e == '"' || e == '\\' || e == '/' {
        Some(e)
    } else if e == 'b' {
        Some('\u{8}')
    } else if e == 't' {
        Some('\t')
    } else if e == 'n' {
        Some('\n')
    } else if e == 'f' {
        Some('\u{c}')
    } else if e == 'r' {
        Some('\r')
    } else {
        None
    }
}

/// Reads a string body up to its closing quote, undoing the JSON
/// escapes.  A raw control character, an unknown escape, or a `\u`
/// escape naming a surrogate makes the text malformed.
pub open spec fn parse_str_chars(s: Seq<char>, acc: Seq<char>) -> Option<(Seq<char>, Seq<char>)>
    decreases s.len(),
{
    if s.len() == 0 {
        None
    } else if s[0] == '"' {
        Some((acc, s.drop_first()))
    } else if s[0] == '\\' {
        if s.len() >= 2 && short_escape(s[1]) is Some {
            parse_str_chars(s.skip(2), acc.push(short_escape(s[1])->0))
        } else if s.len() >= 6 && s[1] == 'u' && is_hex(s[2]) && is_hex(s[3]) && is_hex(s[4])
            && is_hex(s[5]) {
            let code = hex_val(s[2]) * 4096 + hex_val(s[3]) * 256 + hex_val(s[4]) * 16 + hex_val(
                s[5],
            );
            if code < 0xD800 || code >= 0xE000 {
                parse_str_chars(s.skip(6), acc.push((code as u32) as char))
            } else {
                None
            }
        } else {
            None
        }
    } else if (s[0] as u32) < 0x20 {
        None
    } else {
        parse_str_chars(s.drop_first(), acc.push(s[0]))
    }
}

pub open spec fn parse_string(s: Seq<char>) -> Option<(Seq<char>, Seq<char>)> {
    if s.len() > 0 && s[0] == '"' {
        parse_str_chars(s.drop_first(), Seq::empty())
    } else {
        None
    }
}

pub open spec fn parse_paper(s: Seq<char>) -> Option<(PaperView, Seq<char>)> {
    match expect(s, "      {\n        \"id\": "@) {
        Some(s1) => match parse_num(s1) {
            Some((n, s2)) => if n <= u32::MAX {
                match expect(s2, ",\n        \"title\": "@) {
                    Some(s3) => match parse_string(s3) {
                        Some((t, s4)) => match expect(s4, "\n      }"@) {
                            Some(s5) => Some((PaperView { id: n as u32, title: t }, s5)),
                            None => None,
                        },
                        None => None,
                    },
                    None => None,
                }
            } else {
                None
            },
            None => None,
        },
        None => None,
    }
}

pub open spec fn parse_papers_tail(s: Seq<char>, acc: Seq<PaperView>) -> Option<
    (Seq<PaperView>, Seq<char>),
>
    decreases s.len(),
{
    match expect(s, "\n    ]"@) {
        Some(r) => Some((acc, r)),
        None => match expect(s, ",\n"@) {
            Some(s1) => match parse_paper(s1) {
                Some((p, s2)) => if s2.len() < s.len() {
                    parse_papers_tail(s2, acc.push(p))
                } else {
                    None
                },
                None => None,
            },
            None => None,
        },
    }
}

pub open spec fn parse_papers(s: Seq<char>) -> Option<(Seq<PaperView>, Seq<char>)> {
    match expect(s, "[]"@) {
        Some(r) => Some((Seq::empty(), r)),
        None => match expect(s, "[\n"@) {
            Some(s1) => match parse_paper(s1) {
                Some((p, s2)) => parse_papers_tail(s2, seq![p]),
                None => None,
            },
            None => None,
        },
    }
}

pub open spec fn parse_prof(s: Seq<char>) -> Option<(ProfessorView, Seq<char>)> {
    match expect(s, "  {\n    \"id\": "@) {
        Some(s1) => match parse_num(s1) {
            Some((n, s2)) => if n <= u32::MAX {
                match expect(s2, ",\n    \"name\": "@) {
                    Some(s3) => match parse_string(s3) {
                        Some((name, s4)) => match expect(s4, ",\n    \"dept\": "@) {
                            Some(s5) => match parse_string(s5) {
                                Some((dept, s6)) => match expect(s6, ",\n    \"desc\": "@) {
                                    Some(s7) => match parse_string(s7) {
                                        Some((desc, s8)) => match expect(
                                            s8,
                                            ",\n    \"papers\": "@,
                                        ) {
                                            Some(s9) => match parse_papers(s9) {
                                                Some((papers, s10)) => match expect(
                                                    s10,
                                                    "\n  }"@,
                                                ) {
                                                    Some(s11) => Some(
                                                        (
                                                            ProfessorView {
                                                                id: n as u32,
                                                                name,
                                                                dept,
                                                                desc,
                                                                papers,
                                                            },
                                                            s11,
                                                        ),
                                                    ),
                                                    None => None,
                                                },
                                                None => None,
                                            },
                                            None => None,
                                        },
                                        None => None,
                                    },
                                    None => None,
                                },
                                None => None,
                            },
                            None => None,
                        },
                        None => None,
                    },
                    None => None,
                }
            } else {
                None
            },
            None => None,
        },
        None => None,
    }
}

pub open spec fn parse_profs_tail(s: Seq<char>, acc: Seq<ProfessorView>) -> Option<
    (Seq<ProfessorView>, Seq<char>),
>
    decreases s.len(),
{
    match expect(s, "\n]"@) {
        Some(r) => Some((acc, r)),
        None => match expect(s, ",\n"@) {
            Some(s1) => match parse_prof(s1) {
                Some((p, s2)) => if s2.len() < s.len() {
                    parse_profs_tail(s2, acc.push(p))
                } else {
                    None
                },
                None => None,
            },
            None => None,
        },
    }
}

pub open spec fn parse_profs(s: Seq<char>) -> Option<(Seq<ProfessorView>, Seq<char>)> {
    match expect(s, "[]"@) {
        Some(r) => Some((Seq::empty(), r)),
        None => match expect(s, "[\n"@) {
            Some(s1) => match parse_prof(s1) {
                Some((p, s2)) => parse_profs_tail(s2, seq![p]),
                None => None,
            },
            None => None,
        },
    }
}

/// Reads a whole snapshot text; trailing characters make it malformed.
pub open spec fn spec_decode(s: Seq<char>) -> Option<Seq<ProfessorView>> {
    match parse_profs(s) {
        Some((v, r)) => if r.len() == 0 {
            Some(v)
        } else {
            None
        },
        None => None,
    }
}

proof fn lemma_expect(tok: Seq<char>, rest: Seq<char>)
    ensures
        expect(tok + rest, tok) == Some(rest),
{
    let s = tok + rest;
    assert(s.take(tok.len() as int) =~= tok);
    assert(s.skip(tok.len() as int) =~= rest);
}

/// The value of a digit string folded onto an accumulator, most
/// significant digit first.
pub open spec fn digits_val(ds: Seq<char>, acc: nat) -> nat
    decreases ds.len(),
{
    if ds.len() == 0 {
        acc
    } else {
        digits_val(ds.drop_first(), (acc * 10 + digit_val(ds[0])) as nat)
    }
}

proof fn lemma_digits_val_push(ds: Seq<char>, c: char, acc: nat)
    ensures
        digits_val(ds.push(c), acc) == digits_val(ds, acc) * 10 + digit_val(c),
    decreases ds.len(),
{
    let s1 = ds.push(c);
    assert(digit_val(c) >= 0);
    if ds.len() == 0 {
        assert(s1[0] == c);
        assert(s1.drop_first() =~= Seq::<char>::empty());
        assert(digits_val(s1, acc) == digits_val(s1.drop_first(), (acc * 10 + digit_val(c)) as nat));
        assert(digits_val(s1.drop_first(), (acc * 10 + digit_val(c)) as nat) == (acc * 10
            + digit_val(c)) as nat);
    } else {
        assert(s1[0] == ds[0]);
        assert(s1.drop_first() =~= ds.drop_first().push(c));
        let acc1 = (acc * 10 + digit_val(ds[0])) as nat;
        lemma_digits_val_push(ds.drop_first(), c, acc1);
        assert(digits_val(s1, acc) == digits_val(ds.drop_first().push(c), acc1));
        assert(digits_val(ds, acc) == digits_val(ds.drop_first(), acc1));
    }
}

proof fn lemma_dec_digits_shape(n: nat)
    ensures
        dec_digits(n).len() >= 1,
        forall|i: int| 0 <= i < dec_digits(n).len() ==> is_digit(#[trigger] dec_digits(n)[i]),
    decreases n,
{
    if n < 10 {
    } else {
        lemma_dec_digits_shape(n / 10);
        vstd::arithmetic::div_mod::lemma_mod_bound(n as int, 10);
        assert forall|i: int| 0 <= i < dec_digits(n).len() implies is_digit(
            #[trigger] dec_digits(n)[i],
        ) by {
            if i < dec_digits(n).len() - 1 {
                assert(dec_digits(n)[i] == dec_digits(n / 10)[i]);
            }
        }
    }
}

proof fn lemma_dec_digits_val(n: nat)
    ensures
        digits_val(dec_digits(n), 0) == n,
    decreases n,
{
    if n < 10 {
        let s1 = dec_digits(n);
        assert(s1 == seq![digit_char(n as int)]);
        assert(s1[0] == digit_char(n as int));
        assert(digit_val(digit_char(n as int)) == n);
        assert(s1.drop_first() =~= Seq::<char>::empty());
        assert(digits_val(s1, 0) == digits_val(s1.drop_first(), (0 * 10 + digit_val(s1[0])) as nat));
    } else {
        lemma_dec_digits_val(n / 10);
        vstd::arithmetic::div_mod::lemma_mod_bound(n as int, 10);
        assert(digit_val(digit_char((n % 10) as int)) == n % 10);
        lemma_digits_val_push(dec_digits(n / 10), digit_char((n % 10) as int), 0);
        assert(digits_val(dec_digits(n), 0) == (n / 10) * 10 + n % 10);
        vstd::arithmetic::div_mod::lemma_fundamental_div_mod(n as int, 10);
        assert(n == 10 * (n / 10) + n % 10);
    }
}

proof fn lemma_parse_digits(ds: Seq<char>, r: Seq<char>, acc: nat)
    requires
        forall|i: int| 0 <= i < ds.len() ==> is_digit(#[trigger] ds[i]),
        r.len() == 0 || !is_digit(r[0]),
    ensures
        parse_digits(ds + r, acc) == (digits_val(ds, acc), r),
    decreases ds.len(),
{
    if ds.len() == 0 {
        assert(ds + r =~= r);
    } else {
        assert((ds + r)[0] == ds[0]);
        assert((ds + r).drop_first() =~= ds.drop_first() + r);
        lemma_parse_digits(ds.drop_first(), r, (acc * 10 + digit_val(ds[0])) as nat);
    }
}

proof fn lemma_parse_num(n: nat, r: Seq<char>)
    requires
        r.len() == 0 || !is_digit(r[0]),
    ensures
        parse_num(dec_digits(n) + r) == Some((n, r)),
{
    lemma_dec_digits_shape(n);
    lemma_dec_digits_val(n);
    assert((dec_digits(n) + r)[0] == dec_digits(n)[0]);
    lemma_parse_digits(dec_digits(n), r, 0);
}

proof fn lemma_hex_digit_val(d: int)
    requires
        0 <= d < 16,
    ensures
        is_hex(hex_digit(d)),
        hex_val(hex_digit(d)) == d,
{
}

proof fn lemma_parse_str_chars(v: Seq<char>, r: Seq<char>, acc: Seq<char>)
    ensures
        parse_str_chars(esc(v) + seq!['"'] + r, acc) == Some((acc + v, r)),
    decreases v.len(),
{
    let s = esc(v) + seq!['"'] + r;
    if v.len() == 0 {
        assert(esc(v) =~= Seq::<char>::empty());
        assert(s[0] == '"');
        assert(s.drop_first() =~= r);
        assert(acc + v =~= acc);
    } else {
        let c = v[0];
        if c == '"' || c == '\\' || c == '\u{8}' || c == '\t' || c == '\n' || c == '\u{c}' || c
            == '\r' {
            let e = esc_char(c)[1];
            assert(esc(v) =~= seq!['\\', e] + esc(v.drop_first()));
            assert(s[0] == '\\');
            assert(s[1] == e);
            assert(s.len() >= 2);
            assert(short_escape(e) == Some(c));
            assert(s.skip(2) =~= esc(v.drop_first()) + seq!['"'] + r);
            lemma_parse_str_chars(v.drop_first(), r, acc.push(c));
            assert(acc.push(c) + v.drop_first() =~= acc + v);
        } else if (c as u32) < 0x20 {
            let u = (c as u32) as int;
            let h1 = hex_digit(u / 16);
            let h2 = hex_digit(u % 16);
            assert(esc(v) =~= seq!['\\', 'u', '0', '0', h1, h2] + esc(v.drop_first()));
            assert(s[0] == '\\');
            assert(s[1] == 'u');
            assert(short_escape('u') is None);
            assert(s[2] == '0' && s[3] == '0' && s[4] == h1 && s[5] == h2);
            assert(s.len() >= 6);
            lemma_hex_digit_val(u / 16);
            lemma_hex_digit_val(u % 16);
            let code = hex_val(s[2]) * 4096 + hex_val(s[3]) * 256 + hex_val(s[4]) * 16 + hex_val(
                s[5],
            );
            assert(code == (u / 16) * 16 + u % 16);
            vstd::arithmetic::div_mod::lemma_fundamental_div_mod(u, 16);
            assert(code == u);
            vstd::utf8::char_u32_cast(c, c as u32);
            assert((code as u32) as char == c);
            assert(s.skip(6) =~= esc(v.drop_first()) + seq!['"'] + r);
            lemma_parse_str_chars(v.drop_first(), r, acc.push(c));
            assert(acc.push(c) + v.drop_first() =~= acc + v);
        } else {
            assert(esc(v) =~= seq![c] + esc(v.drop_first()));
            assert(s[0] == c);
            assert(s.drop_first() =~= esc(v.drop_first()) + seq!['"'] + r);
            lemma_parse_str_chars(v.drop_first(), r, acc.push(c));
            assert(acc.push(c) + v.drop_first() =~= acc + v);
        }
    }
}

proof fn lemma_parse_string(v: Seq<char>, r: Seq<char>)
    ensures
        parse_string(enc_str(v) + r) == Some((v, r)),
{
    let s = enc_str(v) + r;
    assert(s[0] == '"');
    assert(s.drop_first() =~= esc(v) + seq!['"'] + r);
    lemma_parse_str_chars(v, r, Seq::empty());
    assert(Seq::<char>::empty() + v =~= v);
}

proof fn lemma_parse_paper(p: PaperView, r: Seq<char>)
    ensures
        parse_paper(enc_paper(p) + r) == Some((p, r)),
{
    let t1 = "      {\n        \"id\": "@;
    let t2 = ",\n        \"title\": "@;
    let t3 = "\n      }"@;
    let d = dec_digits(p.id as nat);
    let st = enc_str(p.title);
    let s = enc_paper(p) + r;
    let r1 = d + (t2 + (st + (t3 + r)));
    assert(s =~= t1 + r1);
    lemma_expect(t1, r1);
    reveal_strlit(",\n        \"title\": ");
    assert(t2[0] == ',');
    assert(!is_digit(','));
    let r2 = t2 + (st + (t3 + r));
    assert(r1 =~= d + r2);
    lemma_parse_num(p.id as nat, r2);
    lemma_expect(t2, st + (t3 + r));
    lemma_parse_string(p.title, t3 + r);
    lemma_expect(t3, r);
    assert(parse_paper(s) == Some((p, r)));
}

proof fn lemma_parse_papers_tail(ps: Seq<PaperView>, acc: Seq<PaperView>, r: Seq<char>)
    ensures
        parse_papers_tail(enc_papers_tail(ps) + r, acc) == Some((acc + ps, r)),
    decreases ps.len(),
{
    let tend = "\n    ]"@;
    let tsep = ",\n"@;
    let s = enc_papers_tail(ps) + r;
    if ps.len() == 0 {
        assert(s =~= tend + r);
        lemma_expect(tend, r);
        assert(acc + ps =~= acc);
    } else {
        reveal_strlit("\n    ]");
        reveal_strlit(",\n");
        let rest = enc_paper(ps[0]) + (enc_papers_tail(ps.drop_first()) + r);
        assert(s =~= tsep + rest);
        assert(s[0] == ',');
        assert(expect(s, tend) is None) by {
            assert(tend.len() <= s.len() ==> s.take(tend.len() as int)[0] == ',');
            assert(tend[0] == '\n');
        }
        lemma_expect(tsep, rest);
        lemma_parse_paper(ps[0], enc_papers_tail(ps.drop_first()) + r);
        reveal_strlit("      {\n        \"id\": ");
        assert(enc_paper(ps[0]).len() > 0);
        assert((enc_papers_tail(ps.drop_first()) + r).len() < s.len());
        lemma_parse_papers_tail(ps.drop_first(), acc.push(ps[0]), r);
        assert(acc.push(ps[0]) + ps.drop_first() =~= acc + ps);
    }
}

proof fn lemma_parse_papers(ps: Seq<PaperView>, r: Seq<char>)
    ensures
        parse_papers(enc_papers(ps) + r) == Some((ps, r)),
{
    let s = enc_papers(ps) + r;
    reveal_strlit("[]");
    reveal_strlit("[\n");
    if ps.len() == 0 {
        assert(s =~= "[]"@ + r);
        lemma_expect("[]"@, r);
        assert(Seq::<PaperView>::empty() + ps =~= ps);
    } else {
        let rest = enc_paper(ps[0]) + (enc_papers_tail(ps.drop_first()) + r);
        assert(s =~= "[\n"@ + rest);
        assert(s[1] == '\n');
        assert(expect(s, "[]"@) is None) by {
            assert("[]"@.len() <= s.len() ==> s.take("[]"@.len() as int)[1] == '\n');
            assert("[]"@[1] == ']');
        }
        lemma_expect("[\n"@, rest);
        lemma_parse_paper(ps[0], enc_papers_tail(ps.drop_first()) + r);
        lemma_parse_papers_tail(ps.drop_first(), seq![ps[0]], r);
        assert(seq![ps[0]] + ps.drop_first() =~= ps);
    }
}

#[verifier::rlimit(60)]
proof fn lemma_parse_prof(p: ProfessorView, r: Seq<char>)
    ensures
        parse_prof(enc_prof(p) + r) == Some((p, r)),
{
    let t1 = "  {\n    \"id\": "@;
    let t2 = ",\n    \"name\": "@;
    let t3 = ",\n    \"dept\": "@;
    let t4 = ",\n    \"desc\": "@;
    let t5 = ",\n    \"papers\": "@;
    let t6 = "\n  }"@;
    let d = dec_digits(p.id as nat);
    let sname = enc_str(p.name);
    let sdept = enc_str(p.dept);
    let sdesc = enc_str(p.desc);
    let spap = enc_papers(p.papers);
    let s = enc_prof(p) + r;
    let r6 = t6 + r;
    let r5 = spap + r6;
    let r4 = t5 + r5;
    let r3 = sdesc + r4;
    let r2b = t4 + r3;
    let r2a = sdept + r2b;
    let r2 = t3 + r2a;
    let r1b = sname + r2;
    let r1a = t2 + r1b;
    let r1 = d + r1a;
    assert(s =~= t1 + r1);
    lemma_expect(t1, r1);
    reveal_strlit(",\n    \"name\": ");
    assert(t2[0] == ',');
    assert(!is_digit(','));
    assert(r1 =~= d + r1a);
    lemma_parse_num(p.id as nat, r1a);
    lemma_expect(t2, r1b);
    lemma_parse_string(p.name, r2);
    lemma_expect(t3, r2a);
    lemma_parse_string(p.dept, r2b);
    lemma_expect(t4, r3);
    lemma_parse_string(p.desc, r4);
    lemma_expect(t5, r5);
    lemma_parse_papers(p.papers, r6);
    lemma_expect(t6, r);
    assert(parse_prof(s) == Some((p, r)));
}

#[verifier::rlimit(60)]
proof fn lemma_parse_profs_tail(ps: Seq<ProfessorView>, acc: Seq<ProfessorView>, r: Seq<char>)
    ensures
        parse_profs_tail(enc_profs_tail(ps) + r, acc) == Some((acc + ps, r)),
    decreases ps.len(),
{
    let tend = "\n]"@;
    let tsep = ",\n"@;
    let s = enc_profs_tail(ps) + r;
    if ps.len() == 0 {
        assert(s =~= tend + r);
        lemma_expect(tend, r);
        assert(acc + ps =~= acc);
    } else {
        reveal_strlit("\n]");
        reveal_strlit(",\n");
        let rest = enc_prof(ps[0]) + (enc_profs_tail(ps.drop_first()) + r);
        assert(s =~= tsep + rest);
        assert(s[0] == ',');
        assert(expect(s, tend) is None) by {
            assert(tend.len() <= s.len() ==> s.take(tend.len() as int)[0] == ',');
            assert(tend[0] == '\n');
        }
        lemma_expect(tsep, rest);
        lemma_parse_prof(ps[0], enc_profs_tail(ps.drop_first()) + r);
        reveal_strlit("  {\n    \"id\": ");
        assert(enc_prof(ps[0]).len() > 0);
        assert((enc_profs_tail(ps.drop_first()) + r).len() < s.len());
        lemma_parse_profs_tail(ps.drop_first(), acc.push(ps[0]), r);
        assert(acc.push(ps[0]) + ps.drop_first() =~= acc + ps);
    }
}

#[verifier::rlimit(60)]
proof fn lemma_parse_profs(ps: Seq<ProfessorView>, r: Seq<char>)
    ensures
        parse_profs(spec_encode(ps) + r) == Some((ps, r)),
{
    let s = spec_encode(ps) + r;
    reveal_strlit("[]");
    reveal_strlit("[\n");
    if ps.len() == 0 {
        assert(s =~= "[]"@ + r);
        lemma_expect("[]"@, r);
        assert(Seq::<ProfessorView>::empty() + ps =~= ps);
    } else {
        let rest = enc_prof(ps[0]) + (enc_profs_tail(ps.drop_first()) + r);
        assert(s =~= "[\n"@ + rest);
        assert(s[1] == '\n');
        assert(expect(s, "[]"@) is None) by {
            assert("[]"@.len() <= s.len() ==> s.take("[]"@.len() as int)[1] == '\n');
            assert("[]"@[1] == ']');
        }
        lemma_expect("[\n"@, rest);
        lemma_parse_prof(ps[0], enc_profs_tail(ps.drop_first()) + r);
        lemma_parse_profs_tail(ps.drop_first(), seq![ps[0]], r);
        assert(seq![ps[0]] + ps.drop_first() =~= ps);
    }
}

/// The round trip: decoding the snapshot text written for any
/// collection yields exactly that collection — same ids, same fields,
/// same paper lists.
pub proof fn lemma_decode_encode(ps: Seq<ProfessorView>)
    ensures
        spec_decode(spec_encode(ps)) == Some(ps),
{
    lemma_parse_profs(ps, Seq::empty());
    assert(spec_encode(ps) + Seq::<char>::empty() =~= spec_encode(ps));
}

/// Relies on String::push: appends exactly the one character.
#[verifier::external_body]
fn push_char(out: &mut String, c: char)
    ensures
        final(out)@ == old(out)@.push(c),
{
    out.push(c);
}

fn digit_to_char(d: u32) -> (c: char)
    requires
        d < 10,
    ensures
        c == digit_char(d as int),
{
    match d {
        0 => '0',
        1 => '1',
        2 => '2',
        3 => '3',
        4 => '4',
        5 => '5',
        6 => '6',
        7 => '7',
        8 => '8',
        _ => '9',
    }
}

fn push_u32(out: &mut String, n: u32)
    ensures
        final(out)@ == old(out)@ + dec_digits(n as nat),
    decreases n,
{
    if n < 10 {
        push_char(out, digit_to_char(n));
        proof {
            assert(old(out)@.push(digit_char(n as int)) =~= old(out)@ + dec_digits(n as nat));
        }
    } else {
        push_u32(out, n / 10);
        push_char(out, digit_to_char(n % 10));
        proof {
            assert((old(out)@ + dec_digits((n / 10) as nat)).push(digit_char((n % 10) as int)) =~=
                old(out)@ + dec_digits(n as nat));
        }
    }
}

proof fn lemma_esc_snoc(t: Seq<char>, c: char)
    ensures
        esc(t.push(c)) == esc(t) + esc_char(c),
    decreases t.len(),
{
    if t.len() == 0 {
        assert(t.push(c)[0] == c);
        assert(t.push(c).drop_first() =~= Seq::<char>::empty());
        assert(esc(Seq::<char>::empty()) =~= Seq::<char>::empty());
        assert(esc(t.push(c)) == esc_char(c) + esc(Seq::<char>::empty()));
        assert(esc(t.push(c)) =~= esc(t) + esc_char(c));
    } else {
        assert(t.push(c)[0] == t[0]);
        assert(t.push(c).drop_first() =~= t.drop_first().push(c));
        lemma_esc_snoc(t.drop_first(), c);
        assert(esc_char(t[0]) + (esc(t.drop_first()) + esc_char(c)) =~= esc_char(t[0]) + esc(
            t.drop_first(),
        ) + esc_char(c));
        assert(esc(t.push(c)) =~= esc(t) + esc_char(c));
    }
}

fn hex_digit_exec(d: u32) -> (c: char)
    requires
        d < 16,
    ensures
        c == hex_digit(d as int),
{
    if d < 10 {
        digit_to_char(d)
    } else {
        match d {
            10 => 'a',
            11 => 'b',
            12 => 'c',
            13 => 'd',
            14 => 'e',
            _ => 'f',
        }
    }
}

fn push_escaped(out: &mut String, s: &str)
    ensures
        final(out)@ == old(out)@ + esc(s@),
{
    let ghost orig = out@;
    let n = s.unicode_len();
    let mut i: usize = 0;
    while i < n
        invariant
            n == s@.len(),
            i <= n,
            out@ == orig + esc(s@.take(i as int)),
        decreases n - i,
    {
        let c = s.get_char(i);
        if c == '"' || c == '\\' {
            push_char(out, '\\');
            push_char(out, c);
        } else if c == '\u{8}' {
            push_char(out, '\\');
            push_char(out, 'b');
        } else if c == '\t' {
            push_char(out, '\\');
            push_char(out, 't');
        } else if c == '\n' {
            push_char(out, '\\');
            push_char(out, 'n');
        } else if c == '\u{c}' {
            push_char(out, '\\');
            push_char(out, 'f');
        } else if c == '\r' {
            push_char(out, '\\');
            push_char(out, 'r');
        } else if (c as u32) < 0x20 {
            let u = c as u32;
            push_char(out, '\\');
            push_char(out, 'u');
            push_char(out, '0');
            push_char(out, '0');
            push_char(out, hex_digit_exec(u / 16));
            push_char(out, hex_digit_exec(u % 16));
        } else {
            push_char(out, c);
        }
        proof {
            assert(s@.take(i + 1) =~= s@.take(i as int).push(c));
            lemma_esc_snoc(s@.take(i as int), c);
            assert(out@ =~= orig + esc(s@.take(i as int)) + esc_char(c));
            assert(out@ =~= orig + esc(s@.take(i + 1)));
        }
        i = i + 1;
    }
    proof {
        assert(s@.take(n as int) =~= s@);
    }
}

fn push_quoted(out: &mut String, s: &str)
    ensures
        final(out)@ == old(out)@ + enc_str(s@),
{
    push_char(out, '"');
    push_escaped(out, s);
    push_char(out, '"');
    proof {
        assert(out@ =~= old(out)@ + enc_str(s@));
    }
}

fn push_paper(out: &mut String, p: &Paper)
    ensures
        final(out)@ == old(out)@ + enc_paper(p@),
{
    out.append("      {\n        \"id\": ");
    push_u32(out, p.id);
    out.append(",\n        \"title\": ");
    push_quoted(out, p.title.as_str());
    out.append("\n      }");
    proof {
        assert(out@ =~= old(out)@ + enc_paper(p@));
    }
}

fn push_papers(out: &mut String, papers: &Vec<Paper>)
    ensures
        final(out)@ == old(out)@ + enc_papers(papers@.map_values(|q: Paper| q@)),
{
    let ghost orig = out@;
    let ghost ps = papers@.map_values(|q: Paper| q@);
    let n = papers.len();
    if n == 0 {
        out.append("[]");
        return ;
    }
    out.append("[\n");
    push_paper(out, &papers[0]);
    proof {
        assert(ps.drop_first() =~= ps.skip(1));
        assert(orig + enc_papers(ps) =~= out@ + enc_papers_tail(ps.skip(1)));
    }
    let mut i: usize = 1;
    while i < n
        invariant
            n == papers@.len(),
            ps == papers@.map_values(|q: Paper| q@),
            1 <= i <= n,
            orig + enc_papers(ps) == out@ + enc_papers_tail(ps.skip(i as int)),
        decreases n - i,
    {
        out.append(",\n");
        push_paper(out, &papers[i]);
        proof {
            assert(ps.skip(i as int)[0] == ps[i as int]);
            assert(ps.skip(i as int).drop_first() =~= ps.skip(i + 1));
            assert(orig + enc_papers(ps) =~= out@ + enc_papers_tail(ps.skip(i + 1)));
        }
        i = i + 1;
    }
    out.append("\n    ]");
    proof {
        assert(ps.skip(n as int) =~= Seq::<PaperView>::empty());
        assert(final(out)@ =~= orig + enc_papers(ps));
    }
}

fn push_prof(out: &mut String, p: &Professor)
    ensures
        final(out)@ == old(out)@ + enc_prof(p@),
{
    out.append("  {\n    \"id\": ");
    push_u32(out, p.id);
    out.append(",\n    \"name\": ");
    push_quoted(out, p.name.as_str());
    out.append(",\n    \"dept\": ");
    push_quoted(out, p.dept.as_str());
    out.append(",\n    \"desc\": ");
    push_quoted(out, p.desc.as_str());
    out.append(",\n    \"papers\": ");
    push_papers(out, &p.papers);
    out.append("\n  }");
    proof {
        assert(out@ =~= old(out)@ + enc_prof(p@));
    }
}

/// Writes the snapshot text for a collection of professors, exactly as
/// [`spec_encode`] lays it out.
pub fn encode_professors(professors: &Vec<Professor>) -> (r: String)
    ensures
        r@ == spec_encode(professors@.map_values(|p: Professor| p@)),
{
    let ghost ps = professors@.map_values(|p: Professor| p@);
    let mut out = String::new();
    let n = professors.len();
    if n == 0 {
        out.append("[]");
        proof {
            assert(out@ =~= spec_encode(ps));
        }
        return out;
    }
    out.append("[\n");
    push_prof(&mut out, &professors[0]);
    proof {
        assert(ps.drop_first() =~= ps.skip(1));
        assert(spec_encode(ps) =~= out@ + enc_profs_tail(ps.skip(1)));
    }
    let mut i: usize = 1;
    while i < n
        invariant
            n == professors@.len(),
            ps == professors@.map_values(|p: Professor| p@),
            1 <= i <= n,
            spec_encode(ps) == out@ + enc_profs_tail(ps.skip(i as int)),
        decreases n - i,
    {
        out.append(",\n");
        push_prof(&mut out, &professors[i]);
        proof {
            assert(ps.skip(i as int)[0] == ps[i as int]);
            assert(ps.skip(i as int).drop_first() =~= ps.skip(i + 1));
            assert(spec_encode(ps) =~= out@ + enc_profs_tail(ps.skip(i + 1)));
        }
        i = i + 1;
    }
    out.append("\n]");
    proof {
        assert(ps.skip(n as int) =~= Seq::<ProfessorView>::empty());
        assert(out@ =~= spec_encode(ps));
    }
    out
}

fn str_chars(s: &str) -> (r: Vec<char>)
    ensures
        r@ == s@,
{
    let n = s.unicode_len();
    let mut v: Vec<char> = Vec::new();
    let mut i: usize = 0;
    while i < n
        invariant
            n == s@.len(),
            i <= n,
            v@ == s@.take(i as int),
        decreases n - i,
    {
        v.push(s.get_char(i));
        proof {
            assert(v@ =~= s@.take(i + 1));
        }
        i = i + 1;
    }
    proof {
        assert(s@.take(n as int) =~= s@);
    }
    v
}

fn is_digit_exec(c: char) -> (r: bool)
    ensures
        r == is_digit(c),
{
    c == '0' || c == '1' || c == '2' || c == '3' || c == '4' || c == '5' || c == '6' || c == '7'
        || c == '8' || c == '9'
}

fn is_hex_exec(c: char) -> (r: bool)
    ensures
        r == is_hex(c),
{
    is_digit_exec(c) || c == 'a' || c == 'b' || c == 'c' || c == 'd' || c == 'e' || c == 'f' || c
        == 'A' || c == 'B' || c == 'C' || c == 'D' || c == 'E' || c == 'F'
}

fn hex_val_exec(c: char) -> (d: u32)
    requires
        is_hex(c),
    ensures
        d == hex_val(c),
        d < 16,
{
    if is_digit_exec(c) {
        digit_val_exec(c)
    } else if c == 'a' || c == 'A' {
        10
    } else if c == 'b' || c == 'B' {
        11
    } else if c == 'c' || c == 'C' {
        12
    } else if c == 'd' || c == 'D' {
        13
    } else if c == 'e' || c == 'E' {
        14
    } else {
        15
    }
}

/// Relies on char::from_u32: a code below the surrogate range, or
/// between the surrogates and 0xFFFF, is a Unicode scalar value and
/// yields the character with that code.
#[verifier::external_body]
fn char_from_code(code: u32) -> (r: char)
    requires
        code <= 0xFFFF,
        code < 0xD800 || code >= 0xE000,
    ensures
        r == (code as char),
{
    char::from_u32(code).unwrap()
}

fn digit_val_exec(c: char) -> (d: u32)
    requires
        is_digit(c),
    ensures
        d == digit_val(c),
        d < 10,
{
    if c == '0' {
        0
    } else if c == '1' {
        1
    } else if c == '2' {
        2
    } else if c == '3' {
        3
    } else if c == '4' {
        4
    } else if c == '5' {
        5
    } else if c == '6' {
        6
    } else if c == '7' {
        7
    } else if c == '8' {
        8
    } else {
        9
    }
}

fn expect_at(v: &Vec<char>, i: usize, tok: &str) -> (r: Option<usize>)
    requires
        i <= v@.len(),
    ensures
        match r {
            Some(j) => {
                &&& i <= j <= v@.len()
                &&& j - i == tok@.len()
                &&& expect(v@.skip(i as int), tok@) == Some(v@.skip(j as int))
            },
            None => expect(v@.skip(i as int), tok@) is None,
        },
{
    let m = tok.unicode_len();
    let nlen = v.len();
    if nlen - i < m {
        return None;
    }
    let mut k: usize = 0;
    while k < m
        invariant
            i <= v@.len(),
            m == tok@.len(),
            nlen == v@.len(),
            m + i <= nlen,
            k <= m,
            forall|a: int| 0 <= a < k ==> v@[i + a] == tok@[a],
        decreases m - k,
    {
        let c = v[i + k];
        if c != tok.get_char(k) {
            proof {
                let s = v@.skip(i as int);
                assert(s.take(m as int)[k as int] == v@[i + k]);
                assert(s.take(m as int) != tok@);
            }
            return None;
        }
        k = k + 1;
    }
    proof {
        let s = v@.skip(i as int);
        assert(s.take(m as int) =~= tok@);
        assert(s.skip(m as int) =~= v@.skip(i + m));
    }
    Some(i + m)
}

fn parse_u32_at(v: &Vec<char>, i: usize) -> (r: Option<(u32, usize)>)
    requires
        i <= v@.len(),
    ensures
        match r {
            Some(p) => {
                &&& i < p.1 <= v@.len()
                &&& parse_num(v@.skip(i as int)) == Some((p.0 as nat, v@.skip(p.1 as int)))
            },
            None => parse_num(v@.skip(i as int)) is None || (parse_num(v@.skip(i as int))
                matches Some(q) && q.0 > u32::MAX),
        },
{
    let ghost s0 = v@.skip(i as int);
    if i == v.len() {
        proof {
            assert(s0.len() == 0);
        }
        return None;
    }
    let c0 = v[i];
    proof {
        assert(s0[0] == v@[i as int]);
    }
    if !is_digit_exec(c0) {
        return None;
    }
    let mut j: usize = i;
    let mut acc: u64 = 0;
    let ghost mut g: nat = 0;
    let cap: u64 = 0xFFFF_FFFF;
    loop
        invariant
            i < v@.len(),
            i <= j <= v@.len(),
            s0 == v@.skip(i as int),
            is_digit(s0[0]),
            parse_digits(s0, 0) == parse_digits(v@.skip(j as int), g),
            cap == 0xFFFF_FFFF,
            g <= cap ==> acc == g,
            g > cap ==> acc == cap + 1,
        ensures
            i < j <= v@.len(),
            parse_digits(s0, 0) == parse_digits(v@.skip(j as int), g),
            g <= cap ==> acc == g,
            g > cap ==> acc == cap + 1,
            cap == 0xFFFF_FFFF,
            v@.skip(j as int).len() == 0 || !is_digit(v@.skip(j as int)[0]),
        decreases v@.len() - j,
    {
        if j == v.len() {
            proof {
                assert(v@.skip(j as int).len() == 0);
            }
            break ;
        }
        let c = v[j];
        proof {
            assert(v@.skip(j as int)[0] == v@[j as int]);
        }
        if !is_digit_exec(c) {
            proof {
                if j == i {
                    assert(is_digit(s0[0]));
                }
            }
            break ;
        }
        let d = digit_val_exec(c);
        proof {
            assert(v@.skip(j as int).drop_first() =~= v@.skip(j + 1));
        }
        if acc <= cap {
            acc = acc * 10 + d as u64;
            if acc > cap {
                acc = cap + 1;
            }
        }
        proof {
            g = (g * 10 + digit_val(c)) as nat;
        }
        j = j + 1;
    }
    proof {
        assert(parse_digits(v@.skip(j as int), g) == (g, v@.skip(j as int)));
        assert(parse_num(s0) == Some((g, v@.skip(j as int))));
    }
    if acc > cap {
        return None;
    }
    Some((acc as u32, j))
}

fn parse_string_at(v: &Vec<char>, i: usize) -> (r: Option<(String, usize)>)
    requires
        i <= v@.len(),
    ensures
        match r {
            Some(p) => {
                &&& i < p.1 <= v@.len()
                &&& parse_string(v@.skip(i as int)) == Some((p.0@, v@.skip(p.1 as int)))
            },
            None => parse_string(v@.skip(i as int)) is None,
        },
{
    let ghost s0 = v@.skip(i as int);
    if i == v.len() {
        proof {
            assert(s0.len() == 0);
        }
        return None;
    }
    proof {
        assert(s0[0] == v@[i as int]);
    }
    if v[i] != '"' {
        return None;
    }
    proof {
        assert(s0.drop_first() =~= v@.skip(i + 1));
    }
    let mut out = String::new();
    let mut j: usize = i + 1;
    proof {
        assert(parse_string(s0) == parse_str_chars(v@.skip(i + 1), Seq::<char>::empty()));
    }
    loop
        invariant
            i + 1 <= j <= v@.len(),
            s0 == v@.skip(i as int),
            parse_string(v@.skip(i as int)) == parse_str_chars(v@.skip(j as int), out@),
        decreases v@.len() - j,
    {
        if j == v.len() {
            proof {
                assert(v@.skip(j as int).len() == 0);
            }
            return None;
        }
        let c = v[j];
        proof {
            assert(v@.skip(j as int)[0] == v@[j as int]);
        }
        if c == '"' {
            proof {
                assert(v@.skip(j as int).drop_first() =~= v@.skip(j + 1));
            }
            return Some((out, j + 1));
        } else if c == '\\' {
            if j + 1 == v.len() {
                proof {
                    assert(v@.skip(j as int).len() == 1);
                }
                return None;
            }
            let e = v[j + 1];
            proof {
                assert(v@.skip(j as int)[1] == v@[j + 1]);
            }
            let short: Option<char> = if e == '"' || e == '\\' || e == '/' {
                Some(e)
            } else if e == 'b' {
                Some('\u{8}')
            } else if e == 't' {
                Some('\t')
            } else if e == 'n' {
                Some('\n')
            } else if e == 'f' {
                Some('\u{c}')
            } else if e == 'r' {
                Some('\r')
            } else {
                None
            };
            proof {
                assert(short == short_escape(e));
            }
            match short {
                Some(d) => {
                    push_char(&mut out, d);
                    proof {
                        assert(v@.skip(j as int).skip(2) =~= v@.skip(j + 2));
                    }
                    j = j + 2;
                },
                None => {
                    if e != 'u' {
                        return None;
                    }
                    if v.len() - j < 6 {
                        proof {
                            assert(v@.skip(j as int).len() < 6);
                        }
                        return None;
                    }
                    let h1 = v[j + 2];
                    let h2 = v[j + 3];
                    let h3 = v[j + 4];
                    let h4 = v[j + 5];
                    proof {
                        assert(v@.skip(j as int)[2] == v@[j + 2]);
                        assert(v@.skip(j as int)[3] == v@[j + 3]);
                        assert(v@.skip(j as int)[4] == v@[j + 4]);
                        assert(v@.skip(j as int)[5] == v@[j + 5]);
                    }
                    if !(is_hex_exec(h1) && is_hex_exec(h2) && is_hex_exec(h3) && is_hex_exec(
                        h4,
                    )) {
                        return None;
                    }
                    let code = hex_val_exec(h1) * 4096 + hex_val_exec(h2) * 256 + hex_val_exec(h3)
                        * 16 + hex_val_exec(h4);
                    if code >= 0xD800 && code < 0xE000 {
                        return None;
                    }
                    let d = char_from_code(code);
                    push_char(&mut out, d);
                    proof {
                        assert(v@.skip(j as int).skip(6) =~= v@.skip(j + 6));
                    }
                    j = j + 6;
                },
            }
        } else if (c as u32) < 0x20 {
            return None;
        } else {
            push_char(&mut out, c);
            proof {
                assert(v@.skip(j as int).drop_first() =~= v@.skip(j + 1));
            }
            j = j + 1;
        }
    }
}

fn parse_paper_at(v: &Vec<char>, i: usize) -> (r: Option<(Paper, usize)>)
    requires
        i <= v@.len(),
    ensures
        match r {
            Some(p) => {
                &&& i < p.1 <= v@.len()
                &&& parse_paper(v@.skip(i as int)) == Some((p.0@, v@.skip(p.1 as int)))
            },
            None => parse_paper(v@.skip(i as int)) is None,
        },
{
    let i1 = match expect_at(v, i, "      {\n        \"id\": ") {
        Some(k) => k,
        None => {
            return None;
        },
    };
    let (id, i2) = match parse_u32_at(v, i1) {
        Some(x) => x,
        None => {
            return None;
        },
    };
    let i3 = match expect_at(v, i2, ",\n        \"title\": ") {
        Some(k) => k,
        None => {
            return None;
        },
    };
    let (title, i4) = match parse_string_at(v, i3) {
        Some(x) => x,
        None => {
            return None;
        },
    };
    let i5 = match expect_at(v, i4, "\n      }") {
        Some(k) => k,
        None => {
            return None;
        },
    };
    let p = Paper { id, title };
    proof {
        assert(parse_paper(v@.skip(i as int)) == Some((p@, v@.skip(i5 as int))));
    }
    Some((p, i5))
}

fn parse_papers_at(v: &Vec<char>, i: usize) -> (r: Option<(Vec<Paper>, usize)>)
    requires
        i <= v@.len(),
    ensures
        match r {
            Some(p) => {
                &&& i < p.1 <= v@.len()
                &&& parse_papers(v@.skip(i as int)) == Some(
                    (p.0@.map_values(|q: Paper| q@), v@.skip(p.1 as int)),
                )
            },
            None => parse_papers(v@.skip(i as int)) is None,
        },
{
    if let Some(j) = expect_at(v, i, "[]") {
        let out: Vec<Paper> = Vec::new();
        proof {
            reveal_strlit("[]");
            assert(out@.map_values(|q: Paper| q@) =~= Seq::<PaperView>::empty());
        }
        return Some((out, j));
    }
    let i1 = match expect_at(v, i, "[\n") {
        Some(k) => k,
        None => {
            return None;
        },
    };
    let (p0, i2) = match parse_paper_at(v, i1) {
        Some(x) => x,
        None => {
            return None;
        },
    };
    let ghost p0v = p0@;
    let mut out: Vec<Paper> = Vec::new();
    out.push(p0);
    proof {
        assert(out@.map_values(|q: Paper| q@) =~= seq![p0v]);
    }
    let mut j: usize = i2;
    loop
        invariant
            i < i2 <= j <= v@.len(),
            parse_papers(v@.skip(i as int)) == parse_papers_tail(
                v@.skip(j as int),
                out@.map_values(|q: Paper| q@),
            ),
        decreases v@.len() - j,
    {
        if let Some(k) = expect_at(v, j, "\n    ]") {
            return Some((out, k));
        }
        let k1 = match expect_at(v, j, ",\n") {
            Some(k) => k,
            None => {
                return None;
            },
        };
        let (p, k2) = match parse_paper_at(v, k1) {
            Some(x) => x,
            None => {
                return None;
            },
        };
        let ghost accv = out@.map_values(|q: Paper| q@);
        out.push(p);
        proof {
            assert(out@.map_values(|q: Paper| q@) =~= accv.push(p@));
        }
        j = k2;
    }
}

fn parse_prof_at(v: &Vec<char>, i: usize) -> (r: Option<(Professor, usize)>)
    requires
        i <= v@.len(),
    ensures
        match r {
            Some(p) => {
                &&& i < p.1 <= v@.len()
                &&& parse_prof(v@.skip(i as int)) == Some((p.0@, v@.skip(p.1 as int)))
            },
            None => parse_prof(v@.skip(i as int)) is None,
        },
{
    let i1 = match expect_at(v, i, "  {\n    \"id\": ") {
        Some(k) => k,
        None => {
            return None;
        },
    };
    let (id, i2) = match parse_u32_at(v, i1) {
        Some(x) => x,
        None => {
            return None;
        },
    };
    let i3 = match expect_at(v, i2, ",\n    \"name\": ") {
        Some(k) => k,
        None => {
            return None;
        },
    };
    let (name, i4) = match parse_string_at(v, i3) {
        Some(x) => x,
        None => {
            return None;
        },
    };
    let i5 = match expect_at(v, i4, ",\n    \"dept\": ") {
        Some(k) => k,
        None => {
            return None;
        },
    };
    let (dept, i6) = match parse_string_at(v, i5) {
        Some(x) => x,
        None => {
            return None;
        },
    };
    let i7 = match expect_at(v, i6, ",\n    \"desc\": ") {
        Some(k) => k,
        None => {
            return None;
        },
    };
    let (desc, i8) = match parse_string_at(v, i7) {
        Some(x) => x,
        None => {
            return None;
        },
    };
    let i9 = match expect_at(v, i8, ",\n    \"papers\": ") {
        Some(k) => k,
        None => {
            return None;
        },
    };
    let (papers, i10) = match parse_papers_at(v, i9) {
        Some(x) => x,
        None => {
            return None;
        },
    };
    let i11 = match expect_at(v, i10, "\n  }") {
        Some(k) => k,
        None => {
            return None;
        },
    };
    let p = Professor { id, name, dept, desc, papers };
    proof {
        assert(parse_prof(v@.skip(i as int)) == Some((p@, v@.skip(i11 as int))));
    }
    Some((p, i11))
}

fn parse_profs_at(v: &Vec<char>, i: usize) -> (r: Option<(Vec<Professor>, usize)>)
    requires
        i <= v@.len(),
    ensures
        match r {
            Some(p) => {
                &&& i < p.1 <= v@.len()
                &&& parse_profs(v@.skip(i as int)) == Some(
                    (p.0@.map_values(|q: Professor| q@), v@.skip(p.1 as int)),
                )
            },
            None => parse_profs(v@.skip(i as int)) is None,
        },
{
    if let Some(j) = expect_at(v, i, "[]") {
        let out: Vec<Professor> = Vec::new();
        proof {
            reveal_strlit("[]");
            assert(out@.map_values(|q: Professor| q@) =~= Seq::<ProfessorView>::empty());
        }
        return Some((out, j));
    }
    let i1 = match expect_at(v, i, "[\n") {
        Some(k) => k,
        None => {
            return None;
        },
    };
    let (p0, i2) = match parse_prof_at(v, i1) {
        Some(x) => x,
        None => {
            return None;
        },
    };
    let ghost p0v = p0@;
    let mut out: Vec<Professor> = Vec::new();
    out.push(p0);
    proof {
        assert(out@.map_values(|q: Professor| q@) =~= seq![p0v]);
    }
    let mut j: usize = i2;
    loop
        invariant
            i < i2 <= j <= v@.len(),
            parse_profs(v@.skip(i as int)) == parse_profs_tail(
                v@.skip(j as int),
                out@.map_values(|q: Professor| q@),
            ),
        decreases v@.len() - j,
    {
        if let Some(k) = expect_at(v, j, "\n]") {
            return Some((out, k));
        }
        let k1 = match expect_at(v, j, ",\n") {
            Some(k) => k,
            None => {
                return None;
            },
        };
        let (p, k2) = match parse_prof_at(v, k1) {
            Some(x) => x,
            None => {
                return None;
            },
        };
        let ghost accv = out@.map_values(|q: Professor| q@);
        out.push(p);
        proof {
            assert(out@.map_values(|q: Professor| q@) =~= accv.push(p@));
        }
        j = k2;
    }
}

/// Reads a snapshot text back into its list of professors, or reports
/// it malformed.  Exactly the texts that [`encode_professors`] writes
/// are accepted.
pub fn decode_professors(text: &str) -> (r: Option<Vec<Professor>>)
    ensures
        match r {
            Some(ps) => spec_decode(text@) == Some(ps@.map_values(|p: Professor| p@)),
            None => spec_decode(text@) is None,
        },
{
    let v = str_chars(text);
    proof {
        assert(v@.skip(0) =~= text@);
    }
    match parse_profs_at(&v, 0) {
        Some((ps, j)) => {
            if j == v.len() {
                proof {
                    assert(v@.skip(j as int).len() == 0);
                }
                Some(ps)
            } else {
                proof {
                    assert(v@.skip(j as int).len() > 0);
                }
                None
            }
        },
        None => None,
    }
}

} // verus!
