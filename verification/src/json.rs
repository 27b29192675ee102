//! The on-disk format: a compact JSON object of objects of strings,
//! followed by one line feed.
//!
//! The encoder writes every stored byte either literally, as a two-byte
//! escape (`\"`, `\\`), or as `\u00XX` for control bytes.  The parser
//! accepts that output, optional ASCII whitespace between tokens, and the
//! usual short escapes; non-ASCII bytes pass through unchanged.

use vstd::prelude::*;
use vstd::arithmetic::div_mod::lemma_fundamental_div_mod;
use crate::bytes::{is_ws, is_ws_byte};
use crate::store::{ProjectEntry, Store, samples_map, projects_map, samples_insert,
    projects_insert, uniq_samples, wf_projects, lemma_samples_push, lemma_projects_push};

verus! {

/// The lower-case hex digit for a value below 16.
pub open spec fn hex_digit(n: u8) -> u8 {
    if n < 10 {
        (48 + n) as u8
    } else {
        (87 + n) as u8
    }
}

/// How one byte of a string is written: itself, a two-byte escape for
/// quote and backslash, or `\u00XX` for control bytes.
pub open spec fn esc(b: u8) -> Seq<u8> {
    if b == 34 {
        seq![92u8, 34u8]
    } else if b == 92 {
        seq![92u8, 92u8]
    } else if b < 32 {
        seq![92u8, 117u8, 48u8, 48u8, hex_digit(b / 16), hex_digit(b % 16)]
    } else {
        seq![b]
    }
}

/// The escaped body of a string.
pub open spec fn enc_bytes(s: Seq<u8>) -> Seq<u8>
    decreases s.len(),
{
    if s.len() == 0 {
        Seq::empty()
    } else {
        esc(s[0]) + enc_bytes(s.drop_first())
    }
}

/// A quoted, escaped JSON string.
pub open spec fn enc_string(s: Seq<u8>) -> Seq<u8> {
    seq![34u8] + enc_bytes(s) + seq![34u8]
}

/// One `"sample":"path"` member.
pub open spec fn member_inner(p: (Vec<u8>, Vec<u8>)) -> Seq<u8> {
    enc_string(p.0@) + seq![58u8] + enc_string(p.1@)
}

/// Comma-separated members of one project's object.
pub open spec fn enc_inner_members(ps: Seq<(Vec<u8>, Vec<u8>)>) -> Seq<u8>
    decreases ps.len(),
{
    if ps.len() == 0 {
        Seq::empty()
    } else if ps.len() == 1 {
        member_inner(ps[0])
    } else {
        member_inner(ps[0]) + seq![44u8] + enc_inner_members(ps.drop_first())
    }
}

/// One project's object, braces included.
pub open spec fn enc_inner(ps: Seq<(Vec<u8>, Vec<u8>)>) -> Seq<u8> {
    seq![123u8] + enc_inner_members(ps) + seq![125u8]
}

/// One `"project":{...}` member.
pub open spec fn member_outer(e: ProjectEntry) -> Seq<u8> {
    enc_string(e.name@) + seq![58u8] + enc_inner(e.samples@)
}

/// Comma-separated members of the top-level object.
pub open spec fn enc_outer_members(es: Seq<ProjectEntry>) -> Seq<u8>
    decreases es.len(),
{
    if es.len() == 0 {
        Seq::empty()
    } else if es.len() == 1 {
        member_outer(es[0])
    } else {
        member_outer(es[0]) + seq![44u8] + enc_outer_members(es.drop_first())
    }
}

/// The whole store as one JSON object, braces included.
pub open spec fn enc_store(st: Store) -> Seq<u8> {
    seq![123u8] + enc_outer_members(st.projects@) + seq![125u8]
}

/// The whole file: the object and a trailing line feed.
pub open spec fn enc_file(st: Store) -> Seq<u8> {
    enc_store(st).push(10u8)
}

proof fn lemma_enc_bytes_push(s: Seq<u8>, b: u8)
    ensures
        enc_bytes(s.push(b)) == enc_bytes(s) + esc(b),
    decreases s.len(),
{
    if s.len() == 0 {
        assert(s.push(b)[0] == b);
        assert(s.push(b).drop_first() =~= Seq::<u8>::empty());
        assert(enc_bytes(s.push(b).drop_first()) == Seq::<u8>::empty());
        assert(enc_bytes(s.push(b)) == esc(b) + Seq::<u8>::empty());
        assert(esc(b) + Seq::<u8>::empty() =~= esc(b));
        assert(enc_bytes(s) + esc(b) =~= esc(b));
    } else {
        assert(s.push(b)[0] == s[0]);
        assert(s.push(b).drop_first() =~= s.drop_first().push(b));
        lemma_enc_bytes_push(s.drop_first(), b);
        assert(enc_bytes(s.push(b)) =~= enc_bytes(s) + esc(b));
    }
}

proof fn lemma_enc_inner_members_push(ps: Seq<(Vec<u8>, Vec<u8>)>, x: (Vec<u8>, Vec<u8>))
    ensures
        ps.len() == 0 ==> enc_inner_members(ps.push(x)) == member_inner(x),
        ps.len() > 0 ==> enc_inner_members(ps.push(x)) == enc_inner_members(ps) + seq![44u8]
            + member_inner(x),
    decreases ps.len(),
{
    if ps.len() == 0 {
        assert(ps.push(x).len() == 1);
        assert(ps.push(x)[0] == x);
    } else {
        assert(ps.push(x)[0] == ps[0]);
        assert(ps.push(x).drop_first() =~= ps.drop_first().push(x));
        lemma_enc_inner_members_push(ps.drop_first(), x);
        if ps.len() == 1 {
            assert(enc_inner_members(ps.push(x)) =~= enc_inner_members(ps) + seq![44u8]
                + member_inner(x));
        } else {
            assert(enc_inner_members(ps.push(x)) =~= enc_inner_members(ps) + seq![44u8]
                + member_inner(x));
        }
    }
}

proof fn lemma_enc_outer_members_push(es: Seq<ProjectEntry>, x: ProjectEntry)
    ensures
        es.len() == 0 ==> enc_outer_members(es.push(x)) == member_outer(x),
        es.len() > 0 ==> enc_outer_members(es.push(x)) == enc_outer_members(es) + seq![44u8]
            + member_outer(x),
    decreases es.len(),
{
    if es.len() == 0 {
        assert(es.push(x).len() == 1);
        assert(es.push(x)[0] == x);
    } else {
        assert(es.push(x)[0] == es[0]);
        assert(es.push(x).drop_first() =~= es.drop_first().push(x));
        lemma_enc_outer_members_push(es.drop_first(), x);
        if es.len() == 1 {
            assert(enc_outer_members(es.push(x)) =~= enc_outer_members(es) + seq![44u8]
                + member_outer(x));
        } else {
            assert(enc_outer_members(es.push(x)) =~= enc_outer_members(es) + seq![44u8]
                + member_outer(x));
        }
    }
}

/// The lower-case hex digit for a value below 16.
fn hexd(n: u8) -> (r: u8)
    requires
        n < 16,
    ensures
        r == hex_digit(n),
{
    if n < 10 {
        48 + n
    } else {
        87 + n
    }
}

/// Appends the encoding of one string byte.
fn push_esc(out: &mut Vec<u8>, b: u8)
    ensures
        final(out)@ == old(out)@ + esc(b),
{
    if b == 34 {
        out.push(92);
        out.push(34);
    } else if b == 92 {
        out.push(92);
        out.push(92);
    } else if b < 32 {
        out.push(92);
        out.push(117);
        out.push(48);
        out.push(48);
        out.push(hexd(b / 16));
        out.push(hexd(b % 16));
    } else {
        out.push(b);
    }
    proof {
        assert(final(out)@ =~= old(out)@ + esc(b));
    }
}

/// Appends a quoted, escaped JSON string.
fn push_string(out: &mut Vec<u8>, s: &Vec<u8>)
    ensures
        final(out)@ == old(out)@ + enc_string(s@),
{
    out.push(34);
    let mut i: usize = 0;
    while i < s.len()
        invariant
            i <= s@.len(),
            out@ == old(out)@ + seq![34u8] + enc_bytes(s@.take(i as int)),
        decreases s@.len() - i,
    {
        proof {
            lemma_enc_bytes_push(s@.take(i as int), s@[i as int]);
            assert(s@.take(i as int + 1) =~= s@.take(i as int).push(s@[i as int]));
        }
        push_esc(out, s[i]);
        proof {
            assert(out@ =~= old(out)@ + seq![34u8] + enc_bytes(s@.take(i as int + 1)));
        }
        i += 1;
    }
    out.push(34);
    proof {
        assert(s@.take(s@.len() as int) =~= s@);
        assert(final(out)@ =~= old(out)@ + enc_string(s@));
    }
}

/// Appends one project's object, braces included.
fn push_inner(out: &mut Vec<u8>, samples: &Vec<(Vec<u8>, Vec<u8>)>)
    ensures
        final(out)@ == old(out)@ + enc_inner(samples@),
{
    out.push(123);
    let mut i: usize = 0;
    while i < samples.len()
        invariant
            i <= samples@.len(),
            out@ == old(out)@ + seq![123u8] + enc_inner_members(samples@.take(i as int)),
        decreases samples@.len() - i,
    {
        if i > 0 {
            out.push(44);
        }
        push_string(out, &samples[i].0);
        out.push(58);
        push_string(out, &samples[i].1);
        proof {
            lemma_enc_inner_members_push(samples@.take(i as int), samples@[i as int]);
            assert(samples@.take(i as int + 1) =~= samples@.take(i as int).push(
                samples@[i as int]));
            assert(out@ =~= old(out)@ + seq![123u8] + enc_inner_members(
                samples@.take(i as int + 1)));
        }
        i += 1;
    }
    out.push(125);
    proof {
        assert(samples@.take(samples@.len() as int) =~= samples@);
        assert(final(out)@ =~= old(out)@ + enc_inner(samples@));
    }
}

/// Encodes the whole store as one line of JSON, trailing line feed included.
pub fn encode(store: &Store) -> (r: Vec<u8>)
    ensures
        r@ == enc_file(*store),
{
    let mut out: Vec<u8> = Vec::new();
    out.push(123);
    let mut i: usize = 0;
    while i < store.projects.len()
        invariant
            i <= store.projects@.len(),
            out@ == seq![123u8] + enc_outer_members(store.projects@.take(i as int)),
        decreases store.projects@.len() - i,
    {
        if i > 0 {
            out.push(44);
        }
        push_string(&mut out, &store.projects[i].name);
        out.push(58);
        push_inner(&mut out, &store.projects[i].samples);
        proof {
            lemma_enc_outer_members_push(
                store.projects@.take(i as int),
                store.projects@[i as int],
            );
            assert(store.projects@.take(i as int + 1) =~= store.projects@.take(i as int).push(
                store.projects@[i as int]));
            assert(out@ =~= seq![123u8] + enc_outer_members(store.projects@.take(i as int + 1)));
        }
        i += 1;
    }
    out.push(125);
    out.push(10);
    proof {
        assert(store.projects@.take(store.projects@.len() as int) =~= store.projects@);
        assert(out@ =~= enc_file(*store));
    }
    out
}

/// Whether a byte is an ASCII hex digit.
pub open spec fn is_hex(b: u8) -> bool {
    (48 <= b <= 57) || (97 <= b <= 102) || (65 <= b <= 70)
}

/// The value of an ASCII hex digit.
pub open spec fn hex_val(b: u8) -> int {
    if 48 <= b <= 57 {
        b - 48
    } else if 97 <= b <= 102 {
        b - 87
    } else {
        b - 55
    }
}

/// The first position at or after `i` holding no ASCII whitespace.
pub open spec fn ws_end(s: Seq<u8>, i: int) -> int
    decreases s.len() - i
        when 0 <= i <= s.len()
{
    if i < s.len() && is_ws(s[i]) {
        ws_end(s, i + 1)
    } else {
        i
    }
}

pub proof fn lemma_ws_end_bounds(s: Seq<u8>, i: int)
    requires
        0 <= i <= s.len(),
    ensures
        i <= ws_end(s, i) <= s.len(),
        ws_end(s, i) < s.len() ==> !is_ws(s[ws_end(s, i)]),
    decreases s.len() - i,
{
    if i < s.len() && is_ws(s[i]) {
        lemma_ws_end_bounds(s, i + 1);
    }
}

/// Parses the remainder of a quoted string, after the opening quote,
/// accumulating the decoded bytes; returns the content and the position
/// just past the closing quote.
pub open spec fn parse_str_body(s: Seq<u8>, i: int, acc: Seq<u8>) -> Option<(Seq<u8>, int)>
    decreases s.len() - i
        when 0 <= i <= s.len()
{
    if i >= s.len() {
        None
    } else if s[i] == 34 {
        Some((acc, i + 1))
    } else if s[i] == 92 {
        if i + 1 >= s.len() {
            None
        } else {
            let e = s[i + 1];
            if e == 34 {
                parse_str_body(s, i + 2, acc.push(34u8))
            } else if e == 92 {
                parse_str_body(s, i + 2, acc.push(92u8))
            } else if e == 47 {
                parse_str_body(s, i + 2, acc.push(47u8))
            } else if e == 98 {
                parse_str_body(s, i + 2, acc.push(8u8))
            } else if e == 102 {
                parse_str_body(s, i + 2, acc.push(12u8))
            } else if e == 110 {
                parse_str_body(s, i + 2, acc.push(10u8))
            } else if e == 114 {
                parse_str_body(s, i + 2, acc.push(13u8))
            } else if e == 116 {
                parse_str_body(s, i + 2, acc.push(9u8))
            } else if e == 117 {
                if i + 6 <= s.len() && is_hex(s[i + 2]) && is_hex(s[i + 3]) && is_hex(s[i + 4])
                    && is_hex(s[i + 5]) {
                    let v = hex_val(s[i + 2]) * 4096 + hex_val(s[i + 3]) * 256 + hex_val(
                        s[i + 4],
                    ) * 16 + hex_val(s[i + 5]);
                    if v < 128 {
                        parse_str_body(s, i + 6, acc.push(v as u8))
                    } else {
                        None
                    }
                } else {
                    None
                }
            } else {
                None
            }
        }
    } else if s[i] >= 32 {
        parse_str_body(s, i + 1, acc.push(s[i]))
    } else {
        None
    }
}

pub proof fn lemma_parse_str_body_bounds(s: Seq<u8>, i: int, acc: Seq<u8>)
    requires
        0 <= i <= s.len(),
    ensures
        parse_str_body(s, i, acc) matches Some((c, n)) ==> i < n <= s.len(),
    decreases s.len() - i,
{
    if i < s.len() && s[i] != 34 {
        if s[i] == 92 && i + 1 < s.len() {
            let e = s[i + 1];
            if e == 34 {
                lemma_parse_str_body_bounds(s, i + 2, acc.push(34u8));
            } else if e == 92 {
                lemma_parse_str_body_bounds(s, i + 2, acc.push(92u8));
            } else if e == 47 {
                lemma_parse_str_body_bounds(s, i + 2, acc.push(47u8));
            } else if e == 98 {
                lemma_parse_str_body_bounds(s, i + 2, acc.push(8u8));
            } else if e == 102 {
                lemma_parse_str_body_bounds(s, i + 2, acc.push(12u8));
            } else if e == 110 {
                lemma_parse_str_body_bounds(s, i + 2, acc.push(10u8));
            } else if e == 114 {
                lemma_parse_str_body_bounds(s, i + 2, acc.push(13u8));
            } else if e == 116 {
                lemma_parse_str_body_bounds(s, i + 2, acc.push(9u8));
            } else if e == 117 {
                if i + 6 <= s.len() && is_hex(s[i + 2]) && is_hex(s[i + 3]) && is_hex(s[i + 4])
                    && is_hex(s[i + 5]) {
                    let v = hex_val(s[i + 2]) * 4096 + hex_val(s[i + 3]) * 256 + hex_val(
                        s[i + 4],
                    ) * 16 + hex_val(s[i + 5]);
                    if v < 128 {
                        lemma_parse_str_body_bounds(s, i + 6, acc.push(v as u8));
                    }
                }
            }
        } else if s[i] >= 32 {
            lemma_parse_str_body_bounds(s, i + 1, acc.push(s[i]));
        }
    }
}

/// Parses a quoted string whose opening quote stands at `i`.
pub open spec fn parse_string(s: Seq<u8>, i: int) -> Option<(Seq<u8>, int)> {
    if 0 <= i < s.len() && s[i] == 34 {
        parse_str_body(s, i + 1, Seq::empty())
    } else {
        None
    }
}

pub proof fn lemma_parse_string_bounds(s: Seq<u8>, i: int)
    ensures
        parse_string(s, i) matches Some((c, n)) ==> i < n <= s.len(),
{
    if 0 <= i < s.len() && s[i] == 34 {
        lemma_parse_str_body_bounds(s, i + 1, Seq::empty());
    }
}

/// Parses `"sample" : "path"` members from just after the object's opening
/// brace (or a separating comma) up to and past its closing brace, later
/// keys overwriting earlier ones.
pub open spec fn parse_inner_members(s: Seq<u8>, i: int, acc: Map<Seq<u8>, Seq<u8>>) -> Option<
    (Map<Seq<u8>, Seq<u8>>, int),
>
    decreases s.len() - i
        when 0 <= i <= s.len()
        via parse_inner_members_dec
{
    match parse_string(s, ws_end(s, i)) {
        None => None,
        Some((key, j2)) => {
            let j3 = ws_end(s, j2);
            if j3 < s.len() && s[j3] == 58 {
                match parse_string(s, ws_end(s, j3 + 1)) {
                    None => None,
                    Some((val, j5)) => {
                        let j6 = ws_end(s, j5);
                        if j6 < s.len() && s[j6] == 125 {
                            Some((acc.insert(key, val), j6 + 1))
                        } else if j6 < s.len() && s[j6] == 44 {
                            parse_inner_members(s, j6 + 1, acc.insert(key, val))
                        } else {
                            None
                        }
                    },
                }
            } else {
                None
            }
        },
    }
}

#[via_fn]
proof fn parse_inner_members_dec(s: Seq<u8>, i: int, acc: Map<Seq<u8>, Seq<u8>>) {
    lemma_ws_end_bounds(s, i);
    let j = ws_end(s, i);
    lemma_parse_string_bounds(s, j);
    if let Some((key, j2)) = parse_string(s, j) {
        lemma_ws_end_bounds(s, j2);
        let j3 = ws_end(s, j2);
        if j3 < s.len() && s[j3] == 58 {
            lemma_ws_end_bounds(s, j3 + 1);
            lemma_parse_string_bounds(s, ws_end(s, j3 + 1));
            if let Some((val, j5)) = parse_string(s, ws_end(s, j3 + 1)) {
                lemma_ws_end_bounds(s, j5);
            }
        }
    }
}

pub proof fn lemma_parse_inner_members_bounds(s: Seq<u8>, i: int, acc: Map<Seq<u8>, Seq<u8>>)
    requires
        0 <= i <= s.len(),
    ensures
        parse_inner_members(s, i, acc) matches Some((m, n)) ==> i < n <= s.len(),
    decreases s.len() - i,
{
    lemma_ws_end_bounds(s, i);
    let j = ws_end(s, i);
    lemma_parse_string_bounds(s, j);
    if let Some((key, j2)) = parse_string(s, j) {
        lemma_ws_end_bounds(s, j2);
        let j3 = ws_end(s, j2);
        if j3 < s.len() && s[j3] == 58 {
            lemma_ws_end_bounds(s, j3 + 1);
            lemma_parse_string_bounds(s, ws_end(s, j3 + 1));
            if let Some((val, j5)) = parse_string(s, ws_end(s, j3 + 1)) {
                lemma_ws_end_bounds(s, j5);
                let j6 = ws_end(s, j5);
                if j6 < s.len() && s[j6] == 44 {
                    lemma_parse_inner_members_bounds(s, j6 + 1, acc.insert(key, val));
                }
            }
        }
    }
}

/// Parses one `{ ... }` object of string members, starting at or before its
/// opening brace.
pub open spec fn parse_inner_object(s: Seq<u8>, i: int) -> Option<(Map<Seq<u8>, Seq<u8>>, int)> {
    let j = ws_end(s, i);
    if j < s.len() && s[j] == 123 {
        let j1 = ws_end(s, j + 1);
        if j1 < s.len() && s[j1] == 125 {
            Some((Map::empty(), j1 + 1))
        } else {
            parse_inner_members(s, j + 1, Map::empty())
        }
    } else {
        None
    }
}

pub proof fn lemma_parse_inner_object_bounds(s: Seq<u8>, i: int)
    requires
        0 <= i <= s.len(),
    ensures
        parse_inner_object(s, i) matches Some((m, n)) ==> i < n <= s.len(),
{
    lemma_ws_end_bounds(s, i);
    let j = ws_end(s, i);
    if j < s.len() && s[j] == 123 {
        lemma_ws_end_bounds(s, j + 1);
        lemma_parse_inner_members_bounds(s, j + 1, Map::empty());
    }
}

/// Parses `"project" : { ... }` members from just after the top-level
/// object's opening brace (or a separating comma) up to and past its
/// closing brace.
pub open spec fn parse_outer_members(
    s: Seq<u8>,
    i: int,
    acc: Map<Seq<u8>, Map<Seq<u8>, Seq<u8>>>,
) -> Option<(Map<Seq<u8>, Map<Seq<u8>, Seq<u8>>>, int)>
    decreases s.len() - i
        when 0 <= i <= s.len()
        via parse_outer_members_dec
{
    match parse_string(s, ws_end(s, i)) {
        None => None,
        Some((key, j2)) => {
            let j3 = ws_end(s, j2);
            if j3 < s.len() && s[j3] == 58 {
                match parse_inner_object(s, j3 + 1) {
                    None => None,
                    Some((val, j5)) => {
                        let j6 = ws_end(s, j5);
                        if j6 < s.len() && s[j6] == 125 {
                            Some((acc.insert(key, val), j6 + 1))
                        } else if j6 < s.len() && s[j6] == 44 {
                            parse_outer_members(s, j6 + 1, acc.insert(key, val))
                        } else {
                            None
                        }
                    },
                }
            } else {
                None
            }
        },
    }
}

#[via_fn]
proof fn parse_outer_members_dec(s: Seq<u8>, i: int, acc: Map<Seq<u8>, Map<Seq<u8>, Seq<u8>>>) {
    lemma_ws_end_bounds(s, i);
    let j = ws_end(s, i);
    lemma_parse_string_bounds(s, j);
    if let Some((key, j2)) = parse_string(s, j) {
        lemma_ws_end_bounds(s, j2);
        let j3 = ws_end(s, j2);
        if j3 < s.len() && s[j3] == 58 {
            lemma_parse_inner_object_bounds(s, j3 + 1);
            if let Some((val, j5)) = parse_inner_object(s, j3 + 1) {
                lemma_ws_end_bounds(s, j5);
            }
        }
    }
}

pub proof fn lemma_parse_outer_members_bounds(
    s: Seq<u8>,
    i: int,
    acc: Map<Seq<u8>, Map<Seq<u8>, Seq<u8>>>,
)
    requires
        0 <= i <= s.len(),
    ensures
        parse_outer_members(s, i, acc) matches Some((m, n)) ==> i < n <= s.len(),
    decreases s.len() - i,
{
    lemma_ws_end_bounds(s, i);
    let j = ws_end(s, i);
    lemma_parse_string_bounds(s, j);
    if let Some((key, j2)) = parse_string(s, j) {
        lemma_ws_end_bounds(s, j2);
        let j3 = ws_end(s, j2);
        if j3 < s.len() && s[j3] == 58 {
            lemma_parse_inner_object_bounds(s, j3 + 1);
            if let Some((val, j5)) = parse_inner_object(s, j3 + 1) {
                lemma_ws_end_bounds(s, j5);
                let j6 = ws_end(s, j5);
                if j6 < s.len() && s[j6] == 44 {
                    lemma_parse_outer_members_bounds(s, j6 + 1, acc.insert(key, val));
                }
            }
        }
    }
}

/// The whole file: one object of objects of strings, with nothing but
/// ASCII whitespace after it.
pub open spec fn parse_db_file(s: Seq<u8>) -> Option<Map<Seq<u8>, Map<Seq<u8>, Seq<u8>>>> {
    let j = ws_end(s, 0);
    if j < s.len() && s[j] == 123 {
        let j1 = ws_end(s, j + 1);
        let r = if j1 < s.len() && s[j1] == 125 {
            Some((Map::<Seq<u8>, Map<Seq<u8>, Seq<u8>>>::empty(), j1 + 1))
        } else {
            parse_outer_members(s, j + 1, Map::empty())
        };
        match r {
            None => None,
            Some((m, n)) => {
                if 0 <= n <= s.len() && ws_end(s, n) == s.len() {
                    Some(m)
                } else {
                    None
                }
            },
        }
    } else {
        None
    }
}

/// Advances past ASCII whitespace.
fn skip_ws(s: &Vec<u8>, i: usize) -> (r: usize)
    requires
        i <= s@.len(),
    ensures
        r as int == ws_end(s@, i as int),
        i <= r <= s@.len(),
{
    let mut j = i;
    while j < s.len() && is_ws_byte(s[j])
        invariant
            i <= j <= s@.len(),
            ws_end(s@, i as int) == ws_end(s@, j as int),
        decreases s@.len() - j,
    {
        j += 1;
    }
    j
}

/// Whether a byte is an ASCII hex digit.
fn e_is_hex(b: u8) -> (r: bool)
    ensures
        r == is_hex(b),
{
    (48 <= b && b <= 57) || (97 <= b && b <= 102) || (65 <= b && b <= 70)
}

/// The value of an ASCII hex digit.
fn e_hex_val(b: u8) -> (r: u8)
    requires
        is_hex(b),
    ensures
        r as int == hex_val(b),
{
    if 48 <= b && b <= 57 {
        b - 48
    } else if 97 <= b && b <= 102 {
        b - 87
    } else {
        b - 55
    }
}

/// Decodes a string body, after the opening quote.
fn e_parse_str_body(s: &Vec<u8>, i: usize, acc: Vec<u8>) -> (r: Option<(Vec<u8>, usize)>)
    requires
        i <= s@.len(),
    ensures
        match r {
            Some(p) => parse_str_body(s@, i as int, acc@) == Some((p.0@, p.1 as int)) && p.1
                <= s@.len(),
            None => parse_str_body(s@, i as int, acc@) is None,
        },
    decreases s@.len() - i,
{
    if i >= s.len() {
        return None;
    }
    let b = s[i];
    if b == 34 {
        Some((acc, i + 1))
    } else if b == 92 {
        if i + 1 >= s.len() {
            return None;
        }
        let e = s[i + 1];
        let mut acc = acc;
        if e == 34 {
            acc.push(34);
            e_parse_str_body(s, i + 2, acc)
        } else if e == 92 {
            acc.push(92);
            e_parse_str_body(s, i + 2, acc)
        } else if e == 47 {
            acc.push(47);
            e_parse_str_body(s, i + 2, acc)
        } else if e == 98 {
            acc.push(8);
            e_parse_str_body(s, i + 2, acc)
        } else if e == 102 {
            acc.push(12);
            e_parse_str_body(s, i + 2, acc)
        } else if e == 110 {
            acc.push(10);
            e_parse_str_body(s, i + 2, acc)
        } else if e == 114 {
            acc.push(13);
            e_parse_str_body(s, i + 2, acc)
        } else if e == 116 {
            acc.push(9);
            e_parse_str_body(s, i + 2, acc)
        } else if e == 117 {
            if s.len() - i >= 6 && e_is_hex(s[i + 2]) && e_is_hex(s[i + 3]) && e_is_hex(s[i + 4])
                && e_is_hex(s[i + 5]) {
                let v: u32 = (e_hex_val(s[i + 2]) as u32) * 4096 + (e_hex_val(s[i + 3]) as u32)
                    * 256 + (e_hex_val(s[i + 4]) as u32) * 16 + (e_hex_val(s[i + 5]) as u32);
                if v < 128 {
                    acc.push(v as u8);
                    e_parse_str_body(s, i + 6, acc)
                } else {
                    None
                }
            } else {
                None
            }
        } else {
            None
        }
    } else if b >= 32 {
        let mut acc = acc;
        acc.push(b);
        e_parse_str_body(s, i + 1, acc)
    } else {
        None
    }
}

/// Decodes a quoted string starting at `i`.
fn e_parse_string(s: &Vec<u8>, i: usize) -> (r: Option<(Vec<u8>, usize)>)
    requires
        i <= s@.len(),
    ensures
        match r {
            Some(p) => parse_string(s@, i as int) == Some((p.0@, p.1 as int)) && i < p.1
                <= s@.len(),
            None => parse_string(s@, i as int) is None,
        },
{
    if i < s.len() && s[i] == 34 {
        proof {
            lemma_parse_str_body_bounds(s@, i as int + 1, Seq::empty());
        }
        let acc: Vec<u8> = Vec::new();
        e_parse_str_body(s, i + 1, acc)
    } else {
        None
    }
}

/// Decodes the members of one project's object, after its opening brace.
fn e_parse_inner_members(s: &Vec<u8>, i: usize, samples: Vec<(Vec<u8>, Vec<u8>)>) -> (r: Option<
    (Vec<(Vec<u8>, Vec<u8>)>, usize),
>)
    requires
        i <= s@.len(),
        uniq_samples(samples@),
    ensures
        match r {
            Some(p) => uniq_samples(p.0@) && parse_inner_members(
                s@,
                i as int,
                samples_map(samples@),
            ) == Some((samples_map(p.0@), p.1 as int)) && p.1 <= s@.len(),
            None => parse_inner_members(s@, i as int, samples_map(samples@)) is None,
        },
    decreases s@.len() - i,
{
    let j = skip_ws(s, i);
    match e_parse_string(s, j) {
        None => None,
        Some((key, j2)) => {
            let j3 = skip_ws(s, j2);
            if j3 < s.len() && s[j3] == 58 {
                let j4 = skip_ws(s, j3 + 1);
                match e_parse_string(s, j4) {
                    None => None,
                    Some((val, j5)) => {
                        let j6 = skip_ws(s, j5);
                        if j6 < s.len() && s[j6] == 125 {
                            let mut samples = samples;
                            samples_insert(&mut samples, key, val);
                            Some((samples, j6 + 1))
                        } else if j6 < s.len() && s[j6] == 44 {
                            let mut samples = samples;
                            samples_insert(&mut samples, key, val);
                            e_parse_inner_members(s, j6 + 1, samples)
                        } else {
                            None
                        }
                    },
                }
            } else {
                None
            }
        },
    }
}

/// Decodes one `{ ... }` object of string members.
fn e_parse_inner_object(s: &Vec<u8>, i: usize) -> (r: Option<(Vec<(Vec<u8>, Vec<u8>)>, usize)>)
    requires
        i <= s@.len(),
    ensures
        match r {
            Some(p) => uniq_samples(p.0@) && parse_inner_object(s@, i as int) == Some(
                (samples_map(p.0@), p.1 as int),
            ) && i < p.1 <= s@.len(),
            None => parse_inner_object(s@, i as int) is None,
        },
{
    let j = skip_ws(s, i);
    if j < s.len() && s[j] == 123 {
        let j1 = skip_ws(s, j + 1);
        if j1 < s.len() && s[j1] == 125 {
            let empty: Vec<(Vec<u8>, Vec<u8>)> = Vec::new();
            proof {
                assert(samples_map(empty@) =~= Map::<Seq<u8>, Seq<u8>>::empty());
            }
            Some((empty, j1 + 1))
        } else {
            let empty: Vec<(Vec<u8>, Vec<u8>)> = Vec::new();
            proof {
                assert(samples_map(empty@) =~= Map::<Seq<u8>, Seq<u8>>::empty());
                lemma_parse_inner_members_bounds(s@, j as int + 1, Map::empty());
            }
            e_parse_inner_members(s, j + 1, empty)
        }
    } else {
        None
    }
}

/// Decodes the members of the top-level object, after its opening brace.
fn e_parse_outer_members(s: &Vec<u8>, i: usize, store: Store) -> (r: Option<(Store, usize)>)
    requires
        i <= s@.len(),
        store.wf(),
    ensures
        match r {
            Some(p) => p.0.wf() && parse_outer_members(s@, i as int, store@) == Some(
                (p.0@, p.1 as int),
            ) && p.1 <= s@.len(),
            None => parse_outer_members(s@, i as int, store@) is None,
        },
    decreases s@.len() - i,
{
    let j = skip_ws(s, i);
    match e_parse_string(s, j) {
        None => None,
        Some((key, j2)) => {
            let j3 = skip_ws(s, j2);
            if j3 < s.len() && s[j3] == 58 {
                match e_parse_inner_object(s, j3 + 1) {
                    None => None,
                    Some((val, j5)) => {
                        let j6 = skip_ws(s, j5);
                        if j6 < s.len() && s[j6] == 125 {
                            let mut store = store;
                            projects_insert(&mut store.projects, key, val);
                            Some((store, j6 + 1))
                        } else if j6 < s.len() && s[j6] == 44 {
                            let mut store = store;
                            projects_insert(&mut store.projects, key, val);
                            e_parse_outer_members(s, j6 + 1, store)
                        } else {
                            None
                        }
                    },
                }
            } else {
                None
            }
        },
    }
}

/// Decodes a whole database file.  Returns the store on success; `None`
/// means the bytes are not a well-shaped object of objects of strings.
pub fn decode(bytes: &Vec<u8>) -> (r: Option<Store>)
    ensures
        match r {
            Some(st) => st.wf() && parse_db_file(bytes@) == Some(st@),
            None => parse_db_file(bytes@) is None,
        },
{
    let j = skip_ws(bytes, 0);
    if j < bytes.len() && bytes[j] == 123 {
        let j1 = skip_ws(bytes, j + 1);
        let r = if j1 < bytes.len() && bytes[j1] == 125 {
            Some((Store::new(), j1 + 1))
        } else {
            e_parse_outer_members(bytes, j + 1, Store::new())
        };
        match r {
            None => None,
            Some((st, n)) => {
                if skip_ws(bytes, n) == bytes.len() {
                    Some(st)
                } else {
                    None
                }
            },
        }
    } else {
        None
    }
}

/// The sample pairs folded into a map from the front, later keys winning —
/// how the parser accumulates one object's members.
pub open spec fn inner_fold(acc: Map<Seq<u8>, Seq<u8>>, ps: Seq<(Vec<u8>, Vec<u8>)>) -> Map<
    Seq<u8>,
    Seq<u8>,
>
    decreases ps.len(),
{
    if ps.len() == 0 {
        acc
    } else {
        inner_fold(acc.insert(ps[0].0@, ps[0].1@), ps.drop_first())
    }
}

/// The projects folded into a map from the front, later names winning.
pub open spec fn outer_fold(
    acc: Map<Seq<u8>, Map<Seq<u8>, Seq<u8>>>,
    es: Seq<ProjectEntry>,
) -> Map<Seq<u8>, Map<Seq<u8>, Seq<u8>>>
    decreases es.len(),
{
    if es.len() == 0 {
        acc
    } else {
        outer_fold(acc.insert(es[0].name@, samples_map(es[0].samples@)), es.drop_first())
    }
}

/// Folding unique pairs onto a prefix's map yields the whole list's map.
proof fn lemma_inner_fold_prefix(pre: Seq<(Vec<u8>, Vec<u8>)>, ps: Seq<(Vec<u8>, Vec<u8>)>)
    requires
        uniq_samples(pre + ps),
    ensures
        inner_fold(samples_map(pre), ps) == samples_map(pre + ps),
    decreases ps.len(),
{
    if ps.len() == 0 {
        assert(pre + ps =~= pre);
    } else {
        lemma_samples_push(pre, ps[0]);
        assert(pre.push(ps[0]) + ps.drop_first() =~= pre + ps);
        lemma_inner_fold_prefix(pre.push(ps[0]), ps.drop_first());
    }
}

/// Folding unique projects onto a prefix's map yields the whole list's map.
proof fn lemma_outer_fold_prefix(pre: Seq<ProjectEntry>, es: Seq<ProjectEntry>)
    requires
        forall|a: int, b: int|
            0 <= a < b < (pre + es).len() ==> (pre + es)[a].name@ != (pre + es)[b].name@,
    ensures
        outer_fold(projects_map(pre), es) == projects_map(pre + es),
    decreases es.len(),
{
    if es.len() == 0 {
        assert(pre + es =~= pre);
    } else {
        lemma_projects_push(pre, es[0]);
        assert(pre.push(es[0]) + es.drop_first() =~= pre + es);
        lemma_outer_fold_prefix(pre.push(es[0]), es.drop_first());
    }
}

/// Hex digits written by the encoder read back as the same value.
proof fn lemma_hex_digit_val(n: u8)
    requires
        n < 16,
    ensures
        is_hex(hex_digit(n)),
        hex_val(hex_digit(n)) == n,
{
}

/// One byte of a part of `full`, read off the part.
proof fn lemma_part_index(full: Seq<u8>, lo: int, hi: int, part: Seq<u8>, k: int)
    requires
        0 <= lo <= hi <= full.len(),
        full.subrange(lo, hi) == part,
        0 <= k < part.len(),
    ensures
        full[lo + k] == part[k],
{
    assert(full.subrange(lo, hi)[k] == full[lo + k]);
}

/// A middle piece of a part of `full` is itself a part of `full`.
proof fn lemma_part_sub(full: Seq<u8>, lo: int, hi: int, part: Seq<u8>, a: int, b: int)
    requires
        0 <= lo <= hi <= full.len(),
        full.subrange(lo, hi) == part,
        0 <= a <= b <= part.len(),
    ensures
        full.subrange(lo + a, lo + b) == part.subrange(a, b),
{
    assert forall|k: int| 0 <= k < b - a implies full.subrange(lo + a, lo + b)[k] == part.subrange(
        a,
        b,
    )[k] by {
        assert(full.subrange(lo + a, lo + b)[k] == full[lo + a + k]);
        assert(full.subrange(lo, hi)[a + k] == full[lo + (a + k)]);
        assert(part.subrange(a, b)[k] == part[a + k]);
    }
    assert(full.subrange(lo + a, lo + b) =~= part.subrange(a, b));
}

/// The parser reads an escaped string body back as the bytes it encodes.
proof fn lemma_parse_str_body_of_enc(s: Seq<u8>, full: Seq<u8>, i: int, acc: Seq<u8>)
    requires
        0 <= i,
        i + enc_bytes(s).len() + 1 <= full.len(),
        full.subrange(i, i + enc_bytes(s).len()) == enc_bytes(s),
        full[i + enc_bytes(s).len()] == 34,
    ensures
        parse_str_body(full, i, acc) == Some((acc + s, i + enc_bytes(s).len() + 1)),
    decreases s.len(),
{
    let eb = enc_bytes(s);
    let ll = eb.len() as int;
    if s.len() == 0 {
        assert(full[i] == 34);
        assert(acc + s =~= acc);
    } else {
        let b = s[0];
        let e1 = esc(b);
        let s2 = s.drop_first();
        let e2 = enc_bytes(s2);
        assert(eb == e1 + e2);
        let w = e1.len() as int;
        assert forall|k: int| 0 <= k < w implies eb[k] == e1[k] by {
            assert((e1 + e2)[k] == e1[k]);
        }
        assert(eb.subrange(w, ll) =~= e2) by {
            assert forall|k: int| 0 <= k < ll - w implies eb.subrange(w, ll)[k] == e2[k] by {
                assert(eb.subrange(w, ll)[k] == eb[w + k]);
                assert((e1 + e2)[w + k] == e2[k]);
            }
        }
        lemma_part_sub(full, i, i + ll, eb, w, ll);
        let i2 = i + w;
        assert(full.subrange(i2, i2 + e2.len()) == e2);
        assert(full[i2 + e2.len()] == 34);
        if b == 34 {
            lemma_part_index(full, i, i + ll, eb, 0);
            lemma_part_index(full, i, i + ll, eb, 1);
            assert(full[i] == 92 && full[i + 1] == 34);
            lemma_parse_str_body_of_enc(s2, full, i2, acc.push(34u8));
            assert(acc.push(34u8) + s2 =~= acc + s);
        } else if b == 92 {
            lemma_part_index(full, i, i + ll, eb, 0);
            lemma_part_index(full, i, i + ll, eb, 1);
            assert(full[i] == 92 && full[i + 1] == 92);
            lemma_parse_str_body_of_enc(s2, full, i2, acc.push(92u8));
            assert(acc.push(92u8) + s2 =~= acc + s);
        } else if b < 32 {
            lemma_part_index(full, i, i + ll, eb, 0);
            lemma_part_index(full, i, i + ll, eb, 1);
            lemma_part_index(full, i, i + ll, eb, 2);
            lemma_part_index(full, i, i + ll, eb, 3);
            lemma_part_index(full, i, i + ll, eb, 4);
            lemma_part_index(full, i, i + ll, eb, 5);
            assert(full[i] == 92 && full[i + 1] == 117 && full[i + 2] == 48 && full[i + 3] == 48
                && full[i + 4] == hex_digit(b / 16) && full[i + 5] == hex_digit(b % 16));
            lemma_hex_digit_val(b / 16);
            lemma_hex_digit_val(b % 16);
            lemma_fundamental_div_mod(b as int, 16);
            let v = hex_val(full[i + 2]) * 4096 + hex_val(full[i + 3]) * 256 + hex_val(
                full[i + 4],
            ) * 16 + hex_val(full[i + 5]);
            assert(v == b);
            assert(v as u8 == b);
            lemma_parse_str_body_of_enc(s2, full, i2, acc.push(b));
            assert(acc.push(b) + s2 =~= acc + s);
        } else {
            lemma_part_index(full, i, i + ll, eb, 0);
            assert(full[i] == b);
            lemma_parse_str_body_of_enc(s2, full, i2, acc.push(b));
            assert(acc.push(b) + s2 =~= acc + s);
        }
    }
}

/// The parser reads an encoded string back as the bytes it encodes.
proof fn lemma_parse_string_of_enc(s: Seq<u8>, full: Seq<u8>, i: int)
    requires
        0 <= i,
        i + enc_string(s).len() <= full.len(),
        full.subrange(i, i + enc_string(s).len()) == enc_string(s),
    ensures
        parse_string(full, i) == Some((s, i + enc_string(s).len())),
{
    let es = enc_string(s);
    let eb = enc_bytes(s);
    let ll = es.len() as int;
    assert(es == seq![34u8] + eb + seq![34u8]);
    lemma_part_index(full, i, i + ll, es, 0);
    assert(es[0] == 34) by {
        assert(((seq![34u8] + eb) + seq![34u8])[0] == (seq![34u8] + eb)[0]);
        assert((seq![34u8] + eb)[0] == seq![34u8][0]);
    }
    assert(full[i] == 34);
    lemma_part_index(full, i, i + ll, es, ll - 1);
    assert(es[ll - 1] == 34) by {
        assert(((seq![34u8] + eb) + seq![34u8])[ll - 1] == seq![34u8][0]);
    }
    assert(full[i + 1 + eb.len() as int] == 34);
    lemma_part_sub(full, i, i + ll, es, 1, 1 + eb.len() as int);
    assert(es.subrange(1, 1 + eb.len() as int) =~= eb) by {
        assert forall|k: int| 0 <= k < eb.len() implies es.subrange(1, 1 + eb.len() as int)[k]
            == eb[k] by {
            assert(es.subrange(1, 1 + eb.len() as int)[k] == es[1 + k]);
            assert(((seq![34u8] + eb) + seq![34u8])[1 + k] == (seq![34u8] + eb)[1 + k]);
            assert((seq![34u8] + eb)[1 + k] == eb[k]);
        }
    }
    lemma_parse_str_body_of_enc(s, full, i + 1, Seq::empty());
    assert(Seq::empty() + s =~= s);
}

/// Skipping whitespace at a non-whitespace byte stays put.
proof fn lemma_ws_end_still(s: Seq<u8>, i: int)
    requires
        0 <= i < s.len(),
        !is_ws(s[i]),
    ensures
        ws_end(s, i) == i,
{
}

/// Splits a three-part concatenation into its pieces, as parts of `full`.
proof fn lemma_member_split(full: Seq<u8>, lo: int, m: Seq<u8>, x: Seq<u8>, sep: u8, y: Seq<u8>)
    requires
        0 <= lo <= lo + m.len() <= full.len(),
        full.subrange(lo, lo + m.len()) == m,
        m == x + seq![sep] + y,
    ensures
        full.subrange(lo, lo + x.len()) == x,
        full[lo + x.len()] == sep,
        full.subrange(lo + x.len() + 1, lo + m.len()) == y,
{
    let xl = x.len() as int;
    lemma_part_sub(full, lo, lo + m.len() as int, m, 0, xl);
    assert(m.subrange(0, xl) =~= x) by {
        assert forall|k: int| 0 <= k < xl implies m.subrange(0, xl)[k] == x[k] by {
            assert(m.subrange(0, xl)[k] == m[k]);
            assert(((x + seq![sep]) + y)[k] == (x + seq![sep])[k]);
            assert((x + seq![sep])[k] == x[k]);
        }
    }
    lemma_part_index(full, lo, lo + m.len() as int, m, xl);
    assert(m[xl] == sep) by {
        assert(((x + seq![sep]) + y)[xl] == (x + seq![sep])[xl]);
        assert((x + seq![sep])[xl] == seq![sep][0]);
    }
    lemma_part_sub(full, lo, lo + m.len() as int, m, xl + 1, m.len() as int);
    assert(m.subrange(xl + 1, m.len() as int) =~= y) by {
        assert forall|k: int| 0 <= k < y.len() implies m.subrange(xl + 1, m.len() as int)[k]
            == y[k] by {
            assert(m.subrange(xl + 1, m.len() as int)[k] == m[xl + 1 + k]);
            assert(((x + seq![sep]) + y)[xl + 1 + k] == y[k]);
        }
    }
}

/// The parser reads encoded members of one project back as the folded map.
proof fn lemma_parse_inner_members_of_enc(
    ps: Seq<(Vec<u8>, Vec<u8>)>,
    full: Seq<u8>,
    i: int,
    acc: Map<Seq<u8>, Seq<u8>>,
)
    requires
        ps.len() >= 1,
        0 <= i,
        i + enc_inner_members(ps).len() + 1 <= full.len(),
        full.subrange(i, i + enc_inner_members(ps).len()) == enc_inner_members(ps),
        full[i + enc_inner_members(ps).len()] == 125,
    ensures
        parse_inner_members(full, i, acc) == Some(
            (inner_fold(acc, ps), i + enc_inner_members(ps).len() + 1),
        ),
    decreases ps.len(),
{
    let m = member_inner(ps[0]);
    let k0 = ps[0].0@;
    let v0 = ps[0].1@;
    let mem = enc_inner_members(ps);
    let ks = enc_string(k0);
    let vs = enc_string(v0);
    assert(m == ks + seq![58u8] + vs);
    if ps.len() == 1 {
        assert(mem == m);
        lemma_member_split(full, i, m, ks, 58u8, vs);
    } else {
        assert(mem == m + seq![44u8] + enc_inner_members(ps.drop_first()));
        lemma_member_split(full, i, mem, m, 44u8, enc_inner_members(ps.drop_first()));
        lemma_member_split(full, i, m, ks, 58u8, vs);
    }
    lemma_part_index(full, i, i + ks.len() as int, ks, 0);
    assert(ks[0] == 34) by {
        assert(((seq![34u8] + enc_bytes(k0)) + seq![34u8])[0] == (seq![34u8] + enc_bytes(k0))[0]);
        assert((seq![34u8] + enc_bytes(k0))[0] == seq![34u8][0]);
    }
    assert(full[i] == 34);
    lemma_ws_end_still(full, i);
    lemma_parse_string_of_enc(k0, full, i);
    let p1 = i + ks.len() as int;
    assert(full[p1] == 58);
    lemma_ws_end_still(full, p1);
    lemma_part_index(full, p1 + 1, p1 + 1 + vs.len() as int, vs, 0);
    assert(vs[0] == 34) by {
        assert(((seq![34u8] + enc_bytes(v0)) + seq![34u8])[0] == (seq![34u8] + enc_bytes(v0))[0]);
        assert((seq![34u8] + enc_bytes(v0))[0] == seq![34u8][0]);
    }
    assert(full[p1 + 1] == 34);
    lemma_ws_end_still(full, p1 + 1);
    lemma_parse_string_of_enc(v0, full, p1 + 1);
    let p2 = p1 + 1 + vs.len() as int;
    assert(p2 == i + m.len());
    if ps.len() == 1 {
        assert(full[p2] == 125);
        lemma_ws_end_still(full, p2);
        assert(parse_inner_members(full, i, acc) == Some((acc.insert(k0, v0), p2 + 1)));
        assert(inner_fold(acc, ps) == inner_fold(acc.insert(k0, v0), ps.drop_first()));
        assert(ps.drop_first().len() == 0);
    } else {
        assert(full[p2] == 44);
        lemma_ws_end_still(full, p2);
        let rest = ps.drop_first();
        let memr = enc_inner_members(rest);
        assert(full.subrange(p2 + 1, p2 + 1 + memr.len() as int) == memr);
        assert(p2 + 1 + memr.len() == i + mem.len());
        assert(full[p2 + 1 + memr.len() as int] == 125);
        lemma_parse_inner_members_of_enc(rest, full, p2 + 1, acc.insert(k0, v0));
    }
}

/// The parser reads one encoded project object back as its sample map.
proof fn lemma_parse_inner_object_of_enc(ps: Seq<(Vec<u8>, Vec<u8>)>, full: Seq<u8>, i: int)
    requires
        uniq_samples(ps),
        0 <= i,
        i + enc_inner(ps).len() <= full.len(),
        full.subrange(i, i + enc_inner(ps).len()) == enc_inner(ps),
    ensures
        parse_inner_object(full, i) == Some((samples_map(ps), i + enc_inner(ps).len())),
{
    let obj = enc_inner(ps);
    let mem = enc_inner_members(ps);
    let ll = obj.len() as int;
    assert(obj == seq![123u8] + mem + seq![125u8]);
    lemma_part_index(full, i, i + ll, obj, 0);
    assert(obj[0] == 123) by {
        assert(((seq![123u8] + mem) + seq![125u8])[0] == (seq![123u8] + mem)[0]);
        assert((seq![123u8] + mem)[0] == seq![123u8][0]);
    }
    assert(full[i] == 123);
    lemma_ws_end_still(full, i);
    lemma_part_index(full, i, i + ll, obj, ll - 1);
    assert(obj[ll - 1] == 125) by {
        assert(((seq![123u8] + mem) + seq![125u8])[ll - 1] == seq![125u8][0]);
    }
    assert(full[i + 1 + mem.len() as int] == 125);
    lemma_part_sub(full, i, i + ll, obj, 1, 1 + mem.len() as int);
    assert(obj.subrange(1, 1 + mem.len() as int) =~= mem) by {
        assert forall|k: int| 0 <= k < mem.len() implies obj.subrange(1, 1 + mem.len() as int)[k]
            == mem[k] by {
            assert(obj.subrange(1, 1 + mem.len() as int)[k] == obj[1 + k]);
            assert(((seq![123u8] + mem) + seq![125u8])[1 + k] == (seq![123u8] + mem)[1 + k]);
            assert((seq![123u8] + mem)[1 + k] == mem[k]);
        }
    }
    if ps.len() == 0 {
        assert(full[i + 1] == 125);
        lemma_ws_end_still(full, i + 1);
        assert(samples_map(ps) =~= Map::<Seq<u8>, Seq<u8>>::empty());
    } else {
        let m = member_inner(ps[0]);
        let ks = enc_string(ps[0].0@);
        if ps.len() == 1 {
            assert(mem == m);
            lemma_member_split(full, i + 1, m, ks, 58u8, enc_string(ps[0].1@));
        } else {
            assert(mem == m + seq![44u8] + enc_inner_members(ps.drop_first()));
            lemma_member_split(full, i + 1, mem, m, 44u8, enc_inner_members(ps.drop_first()));
            lemma_member_split(full, i + 1, m, ks, 58u8, enc_string(ps[0].1@));
        }
        lemma_part_index(full, i + 1, i + 1 + ks.len() as int, ks, 0);
        assert(ks[0] == 34) by {
            assert(((seq![34u8] + enc_bytes(ps[0].0@)) + seq![34u8])[0] == (seq![34u8] + enc_bytes(
                ps[0].0@,
            ))[0]);
            assert((seq![34u8] + enc_bytes(ps[0].0@))[0] == seq![34u8][0]);
        }
        assert(full[i + 1] == 34);
        lemma_ws_end_still(full, i + 1);
        lemma_parse_inner_members_of_enc(ps, full, i + 1, Map::empty());
        assert(Seq::<(Vec<u8>, Vec<u8>)>::empty() + ps =~= ps);
        assert(samples_map(Seq::<(Vec<u8>, Vec<u8>)>::empty())
            =~= Map::<Seq<u8>, Seq<u8>>::empty());
        lemma_inner_fold_prefix(Seq::empty(), ps);
    }
}

/// The parser reads encoded top-level members back as the folded map.
proof fn lemma_parse_outer_members_of_enc(
    es: Seq<ProjectEntry>,
    full: Seq<u8>,
    i: int,
    acc: Map<Seq<u8>, Map<Seq<u8>, Seq<u8>>>,
)
    requires
        es.len() >= 1,
        forall|a: int| 0 <= a < es.len() ==> uniq_samples(#[trigger] es[a].samples@),
        0 <= i,
        i + enc_outer_members(es).len() + 1 <= full.len(),
        full.subrange(i, i + enc_outer_members(es).len()) == enc_outer_members(es),
        full[i + enc_outer_members(es).len()] == 125,
    ensures
        parse_outer_members(full, i, acc) == Some(
            (outer_fold(acc, es), i + enc_outer_members(es).len() + 1),
        ),
    decreases es.len(),
{
    let m = member_outer(es[0]);
    let k0 = es[0].name@;
    let mem = enc_outer_members(es);
    let ks = enc_string(k0);
    let obj = enc_inner(es[0].samples@);
    assert(m == ks + seq![58u8] + obj);
    if es.len() == 1 {
        assert(mem == m);
        lemma_member_split(full, i, m, ks, 58u8, obj);
    } else {
        assert(mem == m + seq![44u8] + enc_outer_members(es.drop_first()));
        lemma_member_split(full, i, mem, m, 44u8, enc_outer_members(es.drop_first()));
        lemma_member_split(full, i, m, ks, 58u8, obj);
    }
    lemma_part_index(full, i, i + ks.len() as int, ks, 0);
    assert(ks[0] == 34) by {
        assert(((seq![34u8] + enc_bytes(k0)) + seq![34u8])[0] == (seq![34u8] + enc_bytes(k0))[0]);
        assert((seq![34u8] + enc_bytes(k0))[0] == seq![34u8][0]);
    }
    assert(full[i] == 34);
    lemma_ws_end_still(full, i);
    lemma_parse_string_of_enc(k0, full, i);
    let p1 = i + ks.len() as int;
    assert(full[p1] == 58);
    lemma_ws_end_still(full, p1);
    lemma_parse_inner_object_of_enc(es[0].samples@, full, p1 + 1);
    let p2 = p1 + 1 + obj.len() as int;
    assert(p2 == i + m.len());
    let acc2 = acc.insert(k0, samples_map(es[0].samples@));
    if es.len() == 1 {
        assert(full[p2] == 125);
        lemma_ws_end_still(full, p2);
        assert(parse_outer_members(full, i, acc) == Some((acc2, p2 + 1)));
        assert(outer_fold(acc, es) == outer_fold(acc2, es.drop_first()));
        assert(es.drop_first().len() == 0);
    } else {
        assert(full[p2] == 44);
        lemma_ws_end_still(full, p2);
        let rest = es.drop_first();
        let memr = enc_outer_members(rest);
        assert(full.subrange(p2 + 1, p2 + 1 + memr.len() as int) == memr);
        assert(p2 + 1 + memr.len() == i + mem.len());
        assert(full[p2 + 1 + memr.len() as int] == 125);
        assert(forall|a: int| 0 <= a < rest.len() ==> uniq_samples(#[trigger] rest[a].samples@));
        lemma_parse_outer_members_of_enc(rest, full, p2 + 1, acc2);
    }
}

/// Round trip: a well-formed store, encoded to its file form, parses back
/// to the identical mapping.
pub proof fn lemma_round_trip(st: Store)
    requires
        st.wf(),
    ensures
        parse_db_file(enc_file(st)) == Some(st@),
{
    let es = st.projects@;
    let mem = enc_outer_members(es);
    let full = enc_file(st);
    let ml = mem.len() as int;
    assert(full =~= seq![123u8] + mem + seq![125u8, 10u8]);
    assert(full.subrange(1, 1 + ml) =~= mem) by {
        assert forall|k: int| 0 <= k < ml implies full.subrange(1, 1 + ml)[k] == mem[k] by {
            assert(full.subrange(1, 1 + ml)[k] == full[1 + k]);
            assert(((seq![123u8] + mem) + seq![125u8, 10u8])[1 + k] == (seq![123u8] + mem)[1 + k]);
            assert((seq![123u8] + mem)[1 + k] == mem[k]);
        }
    }
    assert(full[0] == 123) by {
        assert(((seq![123u8] + mem) + seq![125u8, 10u8])[0] == (seq![123u8] + mem)[0]);
        assert((seq![123u8] + mem)[0] == seq![123u8][0]);
    }
    assert(full[1 + ml] == 125) by {
        assert(((seq![123u8] + mem) + seq![125u8, 10u8])[1 + ml] == seq![125u8, 10u8][0]);
    }
    assert(full[2 + ml] == 10) by {
        assert(((seq![123u8] + mem) + seq![125u8, 10u8])[2 + ml] == seq![125u8, 10u8][1]);
    }
    assert(full.len() == 3 + ml);
    lemma_ws_end_still(full, 0);
    if es.len() == 0 {
        assert(full[1] == 125);
        lemma_ws_end_still(full, 1);
        assert(ws_end(full, 3) == 3);
        assert(ws_end(full, 2) == 3);
        assert(st@ =~= Map::<Seq<u8>, Map<Seq<u8>, Seq<u8>>>::empty());
    } else {
        let m = member_outer(es[0]);
        let ks = enc_string(es[0].name@);
        if es.len() == 1 {
            assert(mem == m);
            lemma_member_split(full, 1, m, ks, 58u8, enc_inner(es[0].samples@));
        } else {
            assert(mem == m + seq![44u8] + enc_outer_members(es.drop_first()));
            lemma_member_split(full, 1, mem, m, 44u8, enc_outer_members(es.drop_first()));
            lemma_member_split(full, 1, m, ks, 58u8, enc_inner(es[0].samples@));
        }
        lemma_part_index(full, 1, 1 + ks.len() as int, ks, 0);
        assert(ks[0] == 34) by {
            assert(((seq![34u8] + enc_bytes(es[0].name@)) + seq![34u8])[0] == (seq![34u8]
                + enc_bytes(es[0].name@))[0]);
            assert((seq![34u8] + enc_bytes(es[0].name@))[0] == seq![34u8][0]);
        }
        assert(full[1] == 34);
        lemma_ws_end_still(full, 1);
        lemma_parse_outer_members_of_enc(es, full, 1, Map::empty());
        let n: int = 2 + ml;
        assert(full[n] == 10);
        assert(ws_end(full, n + 1) == n + 1);
        assert(ws_end(full, n) == n + 1);
        assert(projects_map(Seq::<ProjectEntry>::empty())
            =~= Map::<Seq<u8>, Map<Seq<u8>, Seq<u8>>>::empty());
        assert(Seq::<ProjectEntry>::empty() + es =~= es);
        lemma_outer_fold_prefix(Seq::empty(), es);
    }
}

} // verus!
