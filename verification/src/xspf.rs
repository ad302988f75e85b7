//! The pieces XSPF reading and writing is built from: escaping and
//! unescaping XML text, percent-decoding locations, finding elements, and
//! combining an XSPF creator and title into one title.
use vstd::prelude::*;
use vstd::string::StringExecFns;
use vstd::utf8::{
    decode_utf8, encode_scalar, encode_utf8, encode_utf8_decode_utf8, encode_utf8_valid_utf8,
    has_width_1_encoding, leading_byte_width_1, valid_utf8,
};

use crate::num::{parse_unsigned, parse_unsigned_range};
use crate::paths::chars_eq;
use crate::playlist::{is_url, is_url_spec, utf8_text};
use crate::text::{
    chars_of, find_from, find_pattern, has_prefix, is_whitespace, is_ws, lemma_find_from_found, push_all,
    push_char, push_range, range_eq, starts_with, trim, trim_bounds,
};

verus! {

// ---------------------------------------------------------------------------
// Escaping
// ---------------------------------------------------------------------------

/// How escaping writes one character: `&`, `<` and `>` become entities.
pub open spec fn escape_char(c: char) -> Seq<char> {
    if c == '&' {
        seq!['&', 'a', 'm', 'p', ';']
    } else if c == '<' {
        seq!['&', 'l', 't', ';']
    } else if c == '>' {
        seq!['&', 'g', 't', ';']
    } else {
        seq![c]
    }
}

pub open spec fn escape_xml_spec(s: Seq<char>) -> Seq<char>
    decreases s.len(),
{
    if s.len() == 0 {
        seq![]
    } else {
        escape_xml_spec(s.drop_last()) + escape_char(s.last())
    }
}

/// Appends `s` to `out` with `&`, `<` and `>` escaped.
pub fn push_escaped(out: &mut String, s: &[char])
    ensures
        final(out)@ == old(out)@ + escape_xml_spec(s@),
{
    let amp: [char; 5] = ['&', 'a', 'm', 'p', ';'];
    let lt: [char; 4] = ['&', 'l', 't', ';'];
    let gt: [char; 4] = ['&', 'g', 't', ';'];
    let mut i: usize = 0;
    while i < s.len()
        invariant
            0 <= i <= s@.len(),
            out@ == old(out)@ + escape_xml_spec(s@.take(i as int)),
            amp@ == seq!['&', 'a', 'm', 'p', ';'],
            lt@ == seq!['&', 'l', 't', ';'],
            gt@ == seq!['&', 'g', 't', ';'],
        decreases s@.len() - i,
    {
        let c = s[i];
        if c == '&' {
            push_all(out, &amp);
        } else if c == '<' {
            push_all(out, &lt);
        } else if c == '>' {
            push_all(out, &gt);
        } else {
            push_char(out, c);
        }
        assert(s@.take(i + 1).drop_last() =~= s@.take(i as int));
        assert(out@ =~= old(out)@ + escape_xml_spec(s@.take(i + 1)));
        i = i + 1;
    }
    assert(s@.take(i as int) =~= s@);
}

// ---------------------------------------------------------------------------
// Unescaping
// ---------------------------------------------------------------------------

/// The number of bytes `c` takes in UTF-8 (`char::len_utf8`).
pub open spec fn utf8_width(c: char) -> nat {
    if (c as u32) < 0x80 {
        1
    } else if (c as u32) < 0x800 {
        2
    } else if (c as u32) < 0x10000 {
        3
    } else {
        4
    }
}

/// The number of bytes `s` takes in UTF-8 (`str::len`).
pub open spec fn utf8_len(s: Seq<char>) -> nat
    decreases s.len(),
{
    if s.len() == 0 {
        0
    } else {
        utf8_len(s.drop_last()) + utf8_width(s.last())
    }
}

fn utf8_width_of(c: char) -> (w: usize)
    ensures
        w == utf8_width(c),
{
    let u = c as u32;
    if u < 0x80 {
        1
    } else if u < 0x800 {
        2
    } else if u < 0x10000 {
        3
    } else {
        4
    }
}

/// Where the entity name that starts `rest` (just after a `&`) ends, having
/// taken `k` characters: at the first `;`, at the end of the text, or once
/// the name taken so far is longer than 10 bytes. The flag tells whether a
/// `;` closed it.
pub open spec fn entity_end(rest: Seq<char>, k: int) -> (int, bool)
    decreases rest.len() - k,
{
    if k < 0 || k >= rest.len() {
        (k, false)
    } else if rest[k] == ';' {
        (k, true)
    } else if utf8_len(rest.take(k)) > 10 {
        (k, false)
    } else {
        entity_end(rest, k + 1)
    }
}

pub proof fn lemma_entity_end_bounds(rest: Seq<char>, k: int)
    requires
        0 <= k <= rest.len(),
    ensures
        k <= entity_end(rest, k).0 <= rest.len(),
        entity_end(rest, k).1 ==> entity_end(rest, k).0 < rest.len() && rest[entity_end(
            rest,
            k,
        ).0] == ';',
    decreases rest.len() - k,
{
    if k < rest.len() && rest[k] != ';' && utf8_len(rest.take(k)) <= 10 {
        lemma_entity_end_bounds(rest, k + 1);
    }
}

/// Whether `n` is a Unicode scalar value (what `char::from_u32` accepts).
pub open spec fn is_scalar(n: nat) -> bool {
    n <= 0x10FFFF && !(0xD800 <= n && n <= 0xDFFF)
}

/// The character a numeric reference `#NNN`, `#xHH` or `#XHH` names.
pub open spec fn numeric_entity(e: Seq<char>) -> Option<char> {
    let code = if starts_with(e, seq!['#', 'x']) || starts_with(e, seq!['#', 'X']) {
        parse_unsigned(e.skip(2), 16, 0xffff_ffff)
    } else {
        parse_unsigned(e.skip(1), 10, 0xffff_ffff)
    };
    match code {
        Some(n) => if is_scalar(n) {
            Some((n as u32) as char)
        } else {
            None
        },
        None => None,
    }
}

/// The character the entity name `e` (between `&` and `;`) stands for: one
/// of the five predefined entities or a numeric character reference.
pub open spec fn entity_char(e: Seq<char>) -> Option<char> {
    if e == seq!['a', 'm', 'p'] {
        Some('&')
    } else if e == seq!['l', 't'] {
        Some('<')
    } else if e == seq!['g', 't'] {
        Some('>')
    } else if e == seq!['q', 'u', 'o', 't'] {
        Some('"')
    } else if e == seq!['a', 'p', 'o', 's'] {
        Some('\'')
    } else if e.len() > 0 && e[0] == '#' {
        numeric_entity(e)
    } else {
        None
    }
}

/// `s` with its XML entities decoded. An unrecognized or unterminated
/// `&...;` is kept exactly as it appeared.
pub open spec fn decode_xml_spec(s: Seq<char>) -> Seq<char>
    decreases s.len(),
{
    if s.len() == 0 {
        seq![]
    } else if s[0] != '&' {
        seq![s[0]] + decode_xml_spec(s.drop_first())
    } else {
        let rest = s.drop_first();
        let (n, closed) = entity_end(rest, 0);
        let e = rest.take(n);
        proof {
            lemma_entity_end_bounds(rest, 0);
        }
        if !closed {
            seq!['&'] + e + decode_xml_spec(rest.skip(n))
        } else {
            match entity_char(e) {
                Some(c) => seq![c] + decode_xml_spec(rest.skip(n + 1)),
                None => seq!['&'] + e + seq![';'] + decode_xml_spec(rest.skip(n + 1)),
            }
        }
    }
}

/// The character with code point `n`, with `char::from_u32`. The contract
/// claims that there is one exactly when `n` is a Unicode scalar value (at
/// most 0x10FFFF and not a surrogate), and that it is the character with
/// that code point.
#[verifier::external_body]
fn scalar_char(n: u32) -> (r: Option<char>)
    ensures
        r is Some <==> is_scalar(n as nat),
        r matches Some(c) ==> c == n as char,
{
    char::from_u32(n)
}

fn entity_value(v: &[char], lo: usize, hi: usize) -> (r: Option<char>)
    requires
        lo <= hi <= v@.len(),
    ensures
        r == entity_char(v@.subrange(lo as int, hi as int)),
{
    let ghost e = v@.subrange(lo as int, hi as int);
    let amp: [char; 3] = ['a', 'm', 'p'];
    let lt: [char; 2] = ['l', 't'];
    let gt: [char; 2] = ['g', 't'];
    let quot: [char; 4] = ['q', 'u', 'o', 't'];
    let apos: [char; 4] = ['a', 'p', 'o', 's'];
    let hx: [char; 2] = ['#', 'x'];
    let big_hx: [char; 2] = ['#', 'X'];
    assert(amp@ =~= seq!['a', 'm', 'p']);
    assert(lt@ =~= seq!['l', 't']);
    assert(gt@ =~= seq!['g', 't']);
    assert(quot@ =~= seq!['q', 'u', 'o', 't']);
    assert(apos@ =~= seq!['a', 'p', 'o', 's']);
    assert(hx@ =~= seq!['#', 'x']);
    assert(big_hx@ =~= seq!['#', 'X']);
    if range_eq(v, lo, hi, &amp) {
        Some('&')
    } else if range_eq(v, lo, hi, &lt) {
        Some('<')
    } else if range_eq(v, lo, hi, &gt) {
        Some('>')
    } else if range_eq(v, lo, hi, &quot) {
        Some('"')
    } else if range_eq(v, lo, hi, &apos) {
        Some('\'')
    } else if lo < hi && v[lo] == '#' {
        let code = if has_prefix(v, lo, hi, &hx) || has_prefix(v, lo, hi, &big_hx) {
            assert(e.skip(2) =~= v@.subrange(lo + 2, hi as int));
            parse_unsigned_range(v, lo + 2, hi, 16, 0xffff_ffff)
        } else {
            assert(e.skip(1) =~= v@.subrange(lo + 1, hi as int));
            parse_unsigned_range(v, lo + 1, hi, 10, 0xffff_ffff)
        };
        match code {
            Some(n) => scalar_char(n as u32),
            None => None,
        }
    } else {
        None
    }
}

/// Decodes the handful of XML entities likely to show up in track text: the
/// five predefined entities plus decimal/hex numeric character references.
pub fn decode_xml_text(v: &[char]) -> (out: String)
    ensures
        out@ == decode_xml_spec(v@),
{
    let mut out = String::new();
    let mut i: usize = 0;
    assert(v@.skip(0) =~= v@);
    while i < v.len()
        invariant
            0 <= i <= v@.len(),
            out@ + decode_xml_spec(v@.skip(i as int)) == decode_xml_spec(v@),
        decreases v@.len() - i,
    {
        let ghost s = v@.skip(i as int);
        let ghost before = out@;
        let c = v[i];
        if c != '&' {
            push_char(&mut out, c);
            assert(s.drop_first() =~= v@.skip(i + 1));
            assert(out@ + decode_xml_spec(v@.skip(i + 1)) =~= before + decode_xml_spec(s));
            i = i + 1;
        } else {
            let ghost rest = s.drop_first();
            assert(rest =~= v@.skip(i + 1));
            // Scan the entity name after the `&`.
            let start = i + 1;
            let mut j = start;
            let mut bytes: usize = 0;
            let mut closed = false;
            while j < v.len()
                invariant_except_break
                    start <= j <= v@.len(),
                    rest == v@.skip(start as int),
                    bytes == utf8_len(v@.subrange(start as int, j as int)),
                    bytes <= 14,
                    entity_end(rest, j - start) == entity_end(rest, 0),
                    !closed,
                ensures
                    start <= j <= v@.len(),
                    entity_end(rest, 0) == (j - start, closed),
                decreases v@.len() - j,
            {
                assert(rest.take(j - start) =~= v@.subrange(start as int, j as int));
                if v[j] == ';' {
                    closed = true;
                    break;
                }
                if bytes > 10 {
                    break;
                }
                let w = utf8_width_of(v[j]);
                assert(v@.subrange(start as int, j + 1).drop_last() =~= v@.subrange(
                    start as int,
                    j as int,
                ));
                bytes = bytes + w;
                j = j + 1;
            }
            proof {
                lemma_entity_end_bounds(rest, 0);
            }
            let ghost n = j - start;
            assert(rest.take(n) =~= v@.subrange(start as int, j as int));
            if !closed {
                push_char(&mut out, '&');
                push_range(&mut out, v, start, j);
                assert(rest.skip(n) =~= v@.skip(j as int));
                assert(out@ + decode_xml_spec(v@.skip(j as int)) =~= before + decode_xml_spec(s));
                i = j;
            } else {
                assert(rest.skip(n + 1) =~= v@.skip(j + 1));
                match entity_value(v, start, j) {
                    Some(ch) => {
                        push_char(&mut out, ch);
                    },
                    None => {
                        push_char(&mut out, '&');
                        push_range(&mut out, v, start, j);
                        push_char(&mut out, ';');
                    },
                }
                assert(out@ + decode_xml_spec(v@.skip(j + 1)) =~= before + decode_xml_spec(s));
                i = j + 1;
            }
        }
    }
    assert(v@.skip(i as int) =~= Seq::<char>::empty());
    out
}

pub proof fn lemma_escape_front(s: Seq<char>)
    requires
        s.len() > 0,
    ensures
        escape_xml_spec(s) == escape_char(s[0]) + escape_xml_spec(s.drop_first()),
    decreases s.len(),
{
    if s.len() == 1 {
        assert(s.drop_last() =~= Seq::<char>::empty());
        assert(s.drop_first() =~= Seq::<char>::empty());
        assert(escape_xml_spec(Seq::<char>::empty()) =~= Seq::<char>::empty());
        assert(escape_xml_spec(s) =~= escape_char(s[0]) + escape_xml_spec(s.drop_first()));
    } else {
        lemma_escape_front(s.drop_last());
        assert(s.drop_last().drop_first() =~= s.drop_first().drop_last());
        assert(s.drop_first().last() == s.last());
        assert(escape_xml_spec(s) =~= escape_char(s[0]) + escape_xml_spec(s.drop_first()));
    }
}

/// Decoding text that starts with a named entity `&name;` gives the entity's
/// character followed by the decoding of what comes after it.
proof fn lemma_decode_named(name: Seq<char>, c: char, rest: Seq<char>)
    requires
        1 <= name.len() <= 4,
        forall|i: int| 0 <= i < name.len() ==> (name[i] as u32) < 0x80 && name[i] != ';',
        entity_char(name) == Some(c),
    ensures
        decode_xml_spec(seq!['&'] + name + seq![';'] + rest) == seq![c] + decode_xml_spec(rest),
{
    let x = seq!['&'] + name + seq![';'] + rest;
    let r = x.drop_first();
    assert(r =~= name + seq![';'] + rest);
    let n = name.len() as int;
    assert forall|k: int| 0 <= k <= n implies utf8_len(#[trigger] r.take(k)) == k by {
        lemma_utf8_len_ascii(r.take(k));
    }
    assert forall|k: int| 0 <= k <= n implies #[trigger] entity_end(r, k) == (n, true) by {
        lemma_entity_end_from(r, k, n);
    }
    assert(r.take(n) =~= name);
    assert(r.skip(n + 1) =~= rest);
}

proof fn lemma_utf8_len_ascii(s: Seq<char>)
    requires
        forall|i: int| 0 <= i < s.len() ==> (s[i] as u32) < 0x80,
    ensures
        utf8_len(s) == s.len(),
    decreases s.len(),
{
    if s.len() > 0 {
        lemma_utf8_len_ascii(s.drop_last());
    }
}

proof fn lemma_entity_end_from(r: Seq<char>, k: int, n: int)
    requires
        0 <= k <= n < r.len(),
        n <= 4,
        r[n] == ';',
        forall|i: int| 0 <= i < n ==> r[i] != ';',
        forall|i: int| 0 <= i <= n ==> utf8_len(#[trigger] r.take(i)) == i,
    ensures
        entity_end(r, k) == (n, true),
    decreases n - k,
{
    if k < n {
        assert(utf8_len(r.take(k)) == k);
        lemma_entity_end_from(r, k + 1, n);
    }
}

/// Decoding what `push_escaped` wrote gives back the text that was escaped,
/// whatever it holds.
#[verifier::spinoff_prover]
pub proof fn law_decode_escape_round_trip(s: Seq<char>)
    ensures
        decode_xml_spec(escape_xml_spec(s)) == s,
    decreases s.len(),
{
    if s.len() == 0 {
        assert(escape_xml_spec(s) =~= Seq::<char>::empty());
    } else {
        lemma_escape_front(s);
        let c = s[0];
        let e = escape_xml_spec(s.drop_first());
        law_decode_escape_round_trip(s.drop_first());
        if c == '&' {
            let name = seq!['a', 'm', 'p'];
            assert(entity_char(name) == Some('&'));
            lemma_decode_named(name, '&', e);
            assert(escape_char(c) + e =~= seq!['&'] + name + seq![';'] + e);
        } else if c == '<' {
            let name = seq!['l', 't'];
            assert(entity_char(name) == Some('<'));
            lemma_decode_named(name, '<', e);
            assert(escape_char(c) + e =~= seq!['&'] + name + seq![';'] + e);
        } else if c == '>' {
            let name = seq!['g', 't'];
            assert(entity_char(name) == Some('>'));
            lemma_decode_named(name, '>', e);
            assert(escape_char(c) + e =~= seq!['&'] + name + seq![';'] + e);
        } else {
            let x = seq![c] + e;
            assert(x.drop_first() =~= e);
            assert(escape_char(c) + e =~= x);
        }
        assert(s =~= seq![c] + s.drop_first());
    }
}

// ---------------------------------------------------------------------------
// Percent-decoding and locations
// ---------------------------------------------------------------------------

/// The value of an ASCII hexadecimal digit byte.
pub open spec fn hex_digit(b: u8) -> Option<u8> {
    if 0x30 <= b && b <= 0x39 {
        Some((b - 0x30) as u8)
    } else if 0x61 <= b && b <= 0x66 {
        Some((b - 0x61 + 10) as u8)
    } else if 0x41 <= b && b <= 0x46 {
        Some((b - 0x41 + 10) as u8)
    } else {
        None
    }
}

/// What `u8::from_str_radix(.., 16)` makes of the two bytes after a `%`:
/// two hex digits, or `+` and one hex digit; nothing otherwise (bytes that
/// are not ASCII are never digits).
pub open spec fn hex_pair(b1: u8, b2: u8) -> Option<u8> {
    if b1 == 0x2B {
        hex_digit(b2)
    } else {
        match (hex_digit(b1), hex_digit(b2)) {
            (Some(x), Some(y)) => Some((x * 16 + y) as u8),
            _ => None,
        }
    }
}

/// `b` with every `%XX` that decodes replaced by its byte.
pub open spec fn percent_bytes(b: Seq<u8>) -> Seq<u8>
    decreases b.len(),
{
    if b.len() == 0 {
        seq![]
    } else if b.len() > 2 && b[0] == 0x25 && hex_pair(b[1], b[2]) is Some {
        seq![hex_pair(b[1], b[2]).unwrap()] + percent_bytes(b.skip(3))
    } else {
        seq![b[0]] + percent_bytes(b.drop_first())
    }
}

/// `s` percent-decoded, or `s` unchanged when the decoded bytes are not
/// valid UTF-8.
pub open spec fn percent_decode_spec(s: Seq<char>) -> Seq<char> {
    let out = percent_bytes(encode_utf8(s));
    if valid_utf8(out) {
        decode_utf8(out)
    } else {
        s
    }
}

fn hex_digit_of(b: u8) -> (r: Option<u8>)
    ensures
        r == hex_digit(b),
{
    if 0x30 <= b && b <= 0x39 {
        Some(b - 0x30)
    } else if 0x61 <= b && b <= 0x66 {
        Some(b - 0x61 + 10)
    } else if 0x41 <= b && b <= 0x46 {
        Some(b - 0x41 + 10)
    } else {
        None
    }
}

fn hex_pair_of(b1: u8, b2: u8) -> (r: Option<u8>)
    ensures
        r == hex_pair(b1, b2),
{
    if b1 == 0x2B {
        hex_digit_of(b2)
    } else {
        match (hex_digit_of(b1), hex_digit_of(b2)) {
            (Some(x), Some(y)) => Some(x * 16 + y),
            _ => None,
        }
    }
}

/// Decodes `%XX` percent-encoding. XSPF locations are URIs, so this undoes
/// escaping of spaces and other reserved characters back into the literal
/// bytes a filesystem path expects.
pub fn percent_decode(input: &str) -> (r: String)
    ensures
        r@ == percent_decode_spec(input@),
{
    let bytes = input.as_bytes();
    let ghost b = encode_utf8(input@);
    assert(bytes@ == b);
    let mut out: Vec<u8> = Vec::new();
    let mut i: usize = 0;
    assert(b.skip(0) =~= b);
    while i < bytes.len()
        invariant
            0 <= i <= bytes@.len(),
            bytes@ == b,
            out@ + percent_bytes(b.skip(i as int)) == percent_bytes(b),
        decreases bytes@.len() - i,
    {
        let ghost rest = b.skip(i as int);
        let ghost before = out@;
        if bytes[i] == 0x25 && bytes.len() - i > 2 {
            match hex_pair_of(bytes[i + 1], bytes[i + 2]) {
                Some(byte) => {
                    out.push(byte);
                    assert(rest.skip(3) =~= b.skip(i + 3));
                    assert(out@ + percent_bytes(b.skip(i + 3)) =~= before + percent_bytes(rest));
                    i = i + 3;
                    continue;
                },
                None => {},
            }
        }
        out.push(bytes[i]);
        assert(rest.drop_first() =~= b.skip(i + 1));
        assert(out@ + percent_bytes(b.skip(i + 1)) =~= before + percent_bytes(rest));
        i = i + 1;
    }
    assert(b.skip(i as int) =~= Seq::<u8>::empty());
    assert(out@ =~= percent_bytes(b));
    match utf8_text(out.as_slice()) {
        Some(text) => text.to_owned(),
        None => input.to_owned(),
    }
}

pub open spec fn file_scheme() -> Seq<char> {
    seq!['f', 'i', 'l', 'e', ':', '/', '/']
}

/// The path an XSPF `location` stands for: a `file://` URI or a bare path
/// is percent-decoded; any other URL is kept exactly as written.
pub open spec fn location_to_path_spec(loc: Seq<char>) -> Seq<char> {
    if starts_with(loc, file_scheme()) {
        percent_decode_spec(loc.skip(7))
    } else if is_url_spec(loc) {
        loc
    } else {
        percent_decode_spec(loc)
    }
}

/// `location` is a URI in XSPF. Local files are commonly written as either
/// a `file://` URI or a bare relative path with no scheme at all; both are
/// percent-decoded. Anything else with a recognizable scheme (`http://` and
/// the like) is a stream URL and is left exactly as written.
pub fn location_to_path(loc: &[char]) -> (r: String)
    ensures
        r@ == location_to_path_spec(loc@),
{
    let scheme: [char; 7] = ['f', 'i', 'l', 'e', ':', '/', '/'];
    assert(scheme@ =~= file_scheme());
    assert(loc@.subrange(0, loc@.len() as int) =~= loc@);
    if has_prefix(loc, 0, loc.len(), &scheme) {
        let mut rest = String::new();
        push_range(&mut rest, loc, 7, loc.len());
        assert(rest@ =~= loc@.skip(7));
        return percent_decode(rest.as_str());
    }
    let mut whole = String::new();
    push_all(&mut whole, loc);
    assert(whole@ =~= loc@);
    if is_url(loc) {
        return whole;
    }
    percent_decode(whole.as_str())
}

/// How a path character is written in a location: `%` and `:` are
/// percent-encoded, so that the location neither decodes to something else
/// nor reads as a URL.
pub open spec fn location_char(c: char) -> Seq<char> {
    if c == '%' {
        seq!['%', '2', '5']
    } else if c == ':' {
        seq!['%', '3', 'A']
    } else {
        seq![c]
    }
}

pub open spec fn escape_location(s: Seq<char>) -> Seq<char>
    decreases s.len(),
{
    if s.len() == 0 {
        seq![]
    } else {
        location_char(s[0]) + escape_location(s.drop_first())
    }
}

/// The location written for a path: the path itself when it already reads
/// back as itself, else the path with its `%` and `:` percent-encoded.
#[verifier::opaque]
pub open spec fn path_to_location_spec(p: Seq<char>) -> Seq<char> {
    if location_to_path_spec(p) == p {
        p
    } else {
        escape_location(p)
    }
}

proof fn lemma_escape_location_no_colon(s: Seq<char>)
    ensures
        forall|i: int| 0 <= i < escape_location(s).len() ==> #[trigger] escape_location(s)[i]
            != ':',
    decreases s.len(),
{
    if s.len() > 0 {
        lemma_escape_location_no_colon(s.drop_first());
        let a = location_char(s[0]);
        let b = escape_location(s.drop_first());
        assert forall|i: int| 0 <= i < (a + b).len() implies (a + b)[i] != ':' by {
            if i >= a.len() {
                assert((a + b)[i] == b[i - a.len()]);
            }
        }
    }
}

proof fn lemma_find_none_without(s: Seq<char>, pat: Seq<char>, p: int)
    requires
        pat.len() > 0,
        0 <= p,
        forall|j: int| p <= j < s.len() ==> s[j] != pat[0],
    ensures
        find_from(s, pat, p) is None,
    decreases s.len() + 1 - p,
{
    if p + pat.len() <= s.len() {
        assert(s.subrange(p, p + pat.len())[0] == s[p]);
        lemma_find_none_without(s, pat, p + 1);
    }
}

proof fn lemma_encode_concat(a: Seq<char>, b: Seq<char>)
    ensures
        encode_utf8(a + b) == encode_utf8(a) + encode_utf8(b),
    decreases a.len(),
{
    if a.len() == 0 {
        assert(a + b =~= b);
        assert(encode_utf8(a) + encode_utf8(b) =~= encode_utf8(b));
    } else {
        lemma_encode_concat(a.drop_first(), b);
        assert((a + b)[0] == a[0]);
        assert((a + b).drop_first() =~= a.drop_first() + b);
        assert(encode_utf8(a + b) =~= encode_utf8(a) + encode_utf8(b));
    }
}

proof fn lemma_encode_one(c: char)
    ensures
        encode_utf8(seq![c]) == encode_scalar(c as u32),
{
    assert(seq![c].drop_first() =~= Seq::<char>::empty());
    assert(encode_scalar(c as u32) + encode_utf8(Seq::<char>::empty()) =~= encode_scalar(c as u32));
}

proof fn lemma_encode_escape(x: u32, y: u32)
    requires
        x <= 0x7f,
        y <= 0x7f,
    ensures
        encode_utf8(seq!['%', x as char, y as char]) == seq![0x25u8, x as u8, y as u8],
{
    let s = seq!['%', x as char, y as char];
    assert(s.drop_first() =~= seq![x as char, y as char]);
    assert(seq![x as char, y as char].drop_first() =~= seq![y as char]);
    lemma_encode_one(y as char);
    assert((x as char) as u32 == x);
    assert((y as char) as u32 == y);
    assert(('%' as u32) == 0x25u32);
    assert(leading_byte_width_1(0x25u32) == 0x25u8) by (bit_vector);
    assert(leading_byte_width_1(x) == x as u8) by (bit_vector)
        requires
            x <= 0x7f,
    ;
    assert(leading_byte_width_1(y) == y as u8) by (bit_vector)
        requires
            y <= 0x7f,
    ;
    assert(encode_scalar(0x25u32) =~= seq![0x25u8]);
    assert(encode_scalar(x) =~= seq![x as u8]);
    assert(encode_scalar(y) =~= seq![y as u8]);
    assert(encode_utf8(seq![x as char, y as char]) == encode_scalar(x) + encode_utf8(
        seq![y as char],
    ));
    assert(encode_utf8(s) == encode_scalar(0x25u32) + encode_utf8(seq![x as char, y as char]));
    assert(encode_utf8(s) =~= seq![0x25u8, x as u8, y as u8]);
}

/// The bytes of a character other than `%` hold no `%` byte.
pub proof fn lemma_scalar_bytes_no_percent(c: char)
    requires
        c != '%',
    ensures
        forall|i: int|
            0 <= i < encode_scalar(c as u32).len() ==> #[trigger] encode_scalar(c as u32)[i]
                != 0x25u8,
{
    let v = c as u32;
    assert(v != 0x25u32);
    if has_width_1_encoding(v) {
        assert(leading_byte_width_1(v) != 0x25u8) by (bit_vector)
            requires
                v <= 0x7f,
                v != 0x25u32,
        ;
    } else {
        assert(forall|x: u8| #![auto] (0xC0u8 | x) != 0x25u8) by (bit_vector);
        assert(forall|x: u8| #![auto] (0xE0u8 | x) != 0x25u8) by (bit_vector);
        assert(forall|x: u8| #![auto] (0xF0u8 | x) != 0x25u8) by (bit_vector);
        assert(forall|x: u8| #![auto] (0x80u8 | x) != 0x25u8) by (bit_vector);
    }
}

proof fn lemma_percent_bytes_past_plain(x: Seq<u8>, rest: Seq<u8>)
    requires
        forall|i: int| 0 <= i < x.len() ==> x[i] != 0x25u8,
    ensures
        percent_bytes(x + rest) == x + percent_bytes(rest),
    decreases x.len(),
{
    if x.len() == 0 {
        assert(x + rest =~= rest);
        assert(x + percent_bytes(rest) =~= percent_bytes(rest));
    } else {
        lemma_percent_bytes_past_plain(x.drop_first(), rest);
        assert((x + rest)[0] == x[0]);
        assert((x + rest).drop_first() =~= x.drop_first() + rest);
        assert(percent_bytes(x + rest) =~= x + percent_bytes(rest));
    }
}

proof fn lemma_location_bytes(p: Seq<char>)
    ensures
        percent_bytes(encode_utf8(escape_location(p))) == encode_utf8(p),
    decreases p.len(),
{
    if p.len() > 0 {
        let c = p[0];
        let rest = escape_location(p.drop_first());
        let er = encode_utf8(rest);
        lemma_location_bytes(p.drop_first());
        lemma_encode_concat(location_char(c), rest);
        lemma_encode_one(c);
        if c == '%' || c == ':' {
            let (x, y) = if c == '%' {
                (0x32u32, 0x35u32)
            } else {
                (0x33u32, 0x41u32)
            };
            assert(location_char(c) =~= seq!['%', x as char, y as char]);
            lemma_encode_escape(x, y);
            let b = seq![0x25u8, x as u8, y as u8] + er;
            assert(b[0] == 0x25u8 && b[1] == x as u8 && b[2] == y as u8);
            assert(hex_pair(x as u8, y as u8) == Some((c as u32) as u8));
            assert(b.skip(3) =~= er);
            assert(leading_byte_width_1(0x25u32) == 0x25u8) by (bit_vector);
            assert(leading_byte_width_1(0x3Au32) == 0x3Au8) by (bit_vector);
            assert(encode_scalar(c as u32) =~= seq![(c as u32) as u8]);
            assert(percent_bytes(b) =~= seq![(c as u32) as u8] + percent_bytes(er));
        } else {
            assert(location_char(c) =~= seq![c]);
            lemma_scalar_bytes_no_percent(c);
            lemma_percent_bytes_past_plain(encode_scalar(c as u32), er);
        }
    }
}

/// Reading the location written for a path gives the path back, whatever
/// it holds.
pub proof fn lemma_location_reads_back(p: Seq<char>)
    ensures
        location_to_path_spec(path_to_location_spec(p)) == p,
{
    broadcast use encode_utf8_valid_utf8, encode_utf8_decode_utf8;

    reveal(path_to_location_spec);
    if location_to_path_spec(p) != p {
        let e = escape_location(p);
        lemma_escape_location_no_colon(p);
        assert(!starts_with(e, file_scheme())) by {
            if starts_with(e, file_scheme()) {
                assert(e.take(7)[4] == e[4]);
            }
        }
        lemma_find_none_without(e, seq![':', '/', '/'], 0);
        lemma_location_bytes(p);
    }
}

/// The upper-case hexadecimal digit for `n < 16`.
pub open spec fn hex_char(n: nat) -> char {
    if n < 10 {
        (48 + n) as char
    } else {
        (55 + n) as char
    }
}

/// Every byte of `b` written as `%` and two hexadecimal digits.
pub open spec fn percent_encoded(b: Seq<u8>) -> Seq<char>
    decreases b.len(),
{
    if b.len() == 0 {
        seq![]
    } else {
        seq!['%', hex_char((b[0] / 16) as nat), hex_char((b[0] % 16) as nat)] + percent_encoded(
            b.drop_first(),
        )
    }
}

proof fn lemma_percent_encoded_chars(b: Seq<u8>)
    ensures
        forall|i: int| 0 <= i < percent_encoded(b).len() ==> #[trigger] percent_encoded(b)[i] != ':',
    decreases b.len(),
{
    if b.len() > 0 {
        lemma_percent_encoded_chars(b.drop_first());
        let a = seq!['%', hex_char((b[0] / 16) as nat), hex_char((b[0] % 16) as nat)];
        let r = percent_encoded(b.drop_first());
        assert forall|i: int| 0 <= i < (a + r).len() implies (a + r)[i] != ':' by {
            if i >= 3 {
                assert((a + r)[i] == r[i - 3]);
            }
        }
    }
}

proof fn lemma_percent_encoded_bytes(b: Seq<u8>)
    ensures
        percent_bytes(encode_utf8(percent_encoded(b))) == b,
    decreases b.len(),
{
    if b.len() > 0 {
        let v = b[0];
        let hi = (v / 16) as nat;
        let lo = (v % 16) as nat;
        let x: u32 = if hi < 10 { (48 + hi) as u32 } else { (55 + hi) as u32 };
        let y: u32 = if lo < 10 { (48 + lo) as u32 } else { (55 + lo) as u32 };
        assert(hex_char(hi) == x as char);
        assert(hex_char(lo) == y as char);
        let rest = percent_encoded(b.drop_first());
        lemma_percent_encoded_bytes(b.drop_first());
        lemma_encode_escape(x, y);
        lemma_encode_concat(seq!['%', x as char, y as char], rest);
        let er = encode_utf8(rest);
        let bs = seq![0x25u8, x as u8, y as u8] + er;
        assert(bs[0] == 0x25u8 && bs[1] == x as u8 && bs[2] == y as u8);
        assert(hex_digit(x as u8) == Some(hi as u8));
        assert(hex_digit(y as u8) == Some(lo as u8));
        assert(v == hi * 16 + lo);
        assert(hex_pair(x as u8, y as u8) == Some(v));
        assert(bs.skip(3) =~= er);
        assert(percent_bytes(bs) =~= seq![v] + b.drop_first());
        assert(seq![v] + b.drop_first() =~= b);
    }
}

/// A location written fully percent-encoded, every byte of the path's UTF-8
/// as `%XX`, reads back as the path: as a bare location and as a `file://`
/// URI alike.
pub proof fn law_percent_encoded_location(p: Seq<char>)
    ensures
        location_to_path_spec(percent_encoded(encode_utf8(p))) == p,
        location_to_path_spec(file_scheme() + percent_encoded(encode_utf8(p))) == p,
{
    broadcast use encode_utf8_valid_utf8, encode_utf8_decode_utf8;

    let l = percent_encoded(encode_utf8(p));
    lemma_percent_encoded_chars(encode_utf8(p));
    lemma_percent_encoded_bytes(encode_utf8(p));
    assert(!starts_with(l, file_scheme())) by {
        if starts_with(l, file_scheme()) {
            assert(l.take(7)[4] == l[4]);
        }
    }
    lemma_find_none_without(l, seq![':', '/', '/'], 0);
    let f = file_scheme() + l;
    assert(f.take(7) =~= file_scheme());
    assert(f.skip(7) =~= l);
}

/// The reverse of `location_to_path`: what it writes reads back as `path`.
/// A path that already reads back as itself is written as it is; any other
/// path (a `file://` one, or one holding a `%` escape) has its `%` and `:`
/// percent-encoded, so that it neither decodes to something else nor reads
/// as a URL.
pub fn path_to_location(path: &str) -> (r: String)
    ensures
        r@ == path_to_location_spec(path@),
        location_to_path_spec(r@) == path@,
{
    proof {
        lemma_location_reads_back(path@);
        reveal(path_to_location_spec);
    }
    let v = chars_of(path);
    let read = location_to_path(&v);
    let rv = chars_of(read.as_str());
    if chars_eq(&rv, &v) {
        return path.to_owned();
    }
    let pct: [char; 3] = ['%', '2', '5'];
    let colon: [char; 3] = ['%', '3', 'A'];
    assert(pct@ =~= seq!['%', '2', '5']);
    assert(colon@ =~= seq!['%', '3', 'A']);
    let mut out = String::new();
    let mut i: usize = 0;
    assert(v@.skip(0) =~= v@);
    while i < v.len()
        invariant
            0 <= i <= v@.len(),
            pct@ == seq!['%', '2', '5'],
            colon@ == seq!['%', '3', 'A'],
            out@ + escape_location(v@.skip(i as int)) == escape_location(v@),
        decreases v@.len() - i,
    {
        let ghost before = out@;
        let c = v[i];
        if c == '%' {
            push_all(&mut out, &pct);
        } else if c == ':' {
            push_all(&mut out, &colon);
        } else {
            push_char(&mut out, c);
        }
        assert(v@.skip(i as int).drop_first() =~= v@.skip(i + 1));
        assert(out@ + escape_location(v@.skip(i + 1)) =~= before + escape_location(
            v@.skip(i as int),
        ));
        i = i + 1;
    }
    assert(v@.skip(i as int) =~= Seq::<char>::empty());
    assert(out@ =~= escape_location(v@));
    out
}

/// The title XSPF's separate `creator` and `title` make: "Creator - Title"
/// when both are there, whichever is there otherwise.
pub open spec fn combine_title_spec(creator: Option<Seq<char>>, title: Option<Seq<char>>) -> Option<
    Seq<char>,
> {
    match (creator, title) {
        (Some(c), Some(t)) => Some(c + seq![' ', '-', ' '] + t),
        (Some(c), None) => Some(c),
        (None, Some(t)) => Some(t),
        (None, None) => None,
    }
}

pub fn combine_title(creator: Option<String>, title: Option<String>) -> (r: Option<String>)
    ensures
        crate::playlist::opt_view(r) == combine_title_spec(
            crate::playlist::opt_view(creator),
            crate::playlist::opt_view(title),
        ),
{
    match (creator, title) {
        (Some(c), Some(t)) => {
            let mut s = c;
            let sep: [char; 3] = [' ', '-', ' '];
            push_all(&mut s, &sep);
            s.append(t.as_str());
            assert(sep@ =~= seq![' ', '-', ' ']);
            Some(s)
        },
        (Some(c), None) => Some(c),
        (None, Some(t)) => Some(t),
        (None, None) => None,
    }
}

// ---------------------------------------------------------------------------
// Elements
// ---------------------------------------------------------------------------

/// The first `<tag ...>...</tag>` element of `s` at or after `p`, as the
/// positions where its content starts and ends and where the element ends.
/// Attributes on the opening tag are allowed, and a self-closing
/// `<tag ... />` has empty content. A `<tag` that continues with more name
/// characters (`<tracks` when looking for `track`) is skipped. Nesting is
/// not tracked.
pub open spec fn element_at(s: Seq<char>, tag: Seq<char>, p: int) -> Option<(int, int, int)>
    decreases s.len() + 1 - p,
{
    let open = seq!['<'] + tag;
    match find_from(s, open, p) {
        None => None,
        Some(t) => {
            let a = t + open.len();
            proof {
                lemma_find_from_found(s, open, p);
            }
            if !(a < s.len() && (is_ws(s[a]) || s[a] == '>' || s[a] == '/')) {
                element_at(s, tag, a)
            } else {
                match find_from(s, seq!['>'], a) {
                    None => None,
                    Some(c) => if s[c - 1] == '/' {
                        Some((c + 1, c + 1, c + 1))
                    } else {
                        match find_from(s, seq!['<', '/'] + tag + seq!['>'], c + 1) {
                            None => None,
                            Some(e) => Some((c + 1, e, e + tag.len() + 3)),
                        }
                    },
                }
            }
        },
    }
}

pub proof fn lemma_element_at_bounds(s: Seq<char>, tag: Seq<char>, p: int)
    ensures
        element_at(s, tag, p) matches Some((cs, ce, e)) ==> p < cs <= ce <= e <= s.len() && (
        ce == e || ce + tag.len() + 3 == e),
    decreases s.len() + 1 - p,
{
    let open = seq!['<'] + tag;
    lemma_find_from_found(s, open, p);
    match find_from(s, open, p) {
        None => {},
        Some(t) => {
            let a = t + open.len();
            if !(a < s.len() && (is_ws(s[a]) || s[a] == '>' || s[a] == '/')) {
                lemma_element_at_bounds(s, tag, a);
            } else {
                lemma_find_from_found(s, seq!['>'], a);
                match find_from(s, seq!['>'], a) {
                    None => {},
                    Some(c) => {
                        lemma_find_from_found(s, seq!['<', '/'] + tag + seq!['>'], c + 1);
                    },
                }
            }
        },
    }
}

/// Finds the next `<tag ...>...</tag>` element in `v` at or after `from`
/// (see `element_at`).
pub fn next_element(v: &[char], from: usize, tag: &[char]) -> (r: Option<(usize, usize, usize)>)
    ensures
        match r {
            Some((cs, ce, e)) => element_at(v@, tag@, from as int) == Some(
                (cs as int, ce as int, e as int),
            ),
            None => element_at(v@, tag@, from as int) is None,
        },
{
    let mut open: Vec<char> = Vec::new();
    open.push('<');
    let mut k: usize = 0;
    while k < tag.len()
        invariant
            0 <= k <= tag@.len(),
            open@ == seq!['<'] + tag@.take(k as int),
        decreases tag@.len() - k,
    {
        open.push(tag[k]);
        assert(tag@.take(k + 1) =~= tag@.take(k as int).push(tag@[k as int]));
        assert(open@ =~= seq!['<'] + tag@.take(k + 1));
        k = k + 1;
    }
    assert(tag@.take(k as int) =~= tag@);
    let mut close: Vec<char> = Vec::new();
    close.push('<');
    close.push('/');
    let mut k: usize = 0;
    while k < tag.len()
        invariant
            0 <= k <= tag@.len(),
            close@ == seq!['<', '/'] + tag@.take(k as int),
        decreases tag@.len() - k,
    {
        close.push(tag[k]);
        assert(tag@.take(k + 1) =~= tag@.take(k as int).push(tag@[k as int]));
        assert(close@ =~= seq!['<', '/'] + tag@.take(k + 1));
        k = k + 1;
    }
    assert(tag@.take(k as int) =~= tag@);
    close.push('>');
    let gt: [char; 1] = ['>'];
    assert(gt@ =~= seq!['>']);
    let mut search = from;
    loop
        invariant
            from <= search,
            open@ == seq!['<'] + tag@,
            close@ == seq!['<', '/'] + tag@ + seq!['>'],
            gt@ == seq!['>'],
            element_at(v@, tag@, from as int) == element_at(v@, tag@, search as int),
        decreases v@.len() + 1 - search,
    {
        match find_pattern(v, search, &open) {
            None => {
                return None;
            },
            Some(t) => {
                let n = v.len();
                let ol = open.len();
                assert(t + ol <= n);
                let a = t + ol;
                let ends = a < v.len() && (is_whitespace(v[a]) || v[a] == '>' || v[a] == '/');
                if !ends {
                    search = a;
                    continue;
                }
                match find_pattern(v, a, &gt) {
                    None => {
                        return None;
                    },
                    Some(c) => {
                        if v[c - 1] == '/' {
                            return Some((c + 1, c + 1, c + 1));
                        }
                        match find_pattern(v, c + 1, &close) {
                            None => {
                                return None;
                            },
                            Some(e) => {
                                return Some((c + 1, e, e + close.len()));
                            },
                        }
                    },
                }
            },
        }
    }
}

/// The trimmed text of the first `<tag>` element of `block`, when there is
/// one and it is not empty.
pub open spec fn child_text_spec(block: Seq<char>, tag: Seq<char>) -> Option<Seq<char>> {
    match element_at(block, tag, 0) {
        Some((cs, ce, _)) => {
            let t = trim(block.subrange(cs, ce));
            if t.len() == 0 {
                None
            } else {
                Some(t)
            }
        },
        None => None,
    }
}

/// Bounds of the trimmed inner text of the first `<tag>` element in
/// `block`, or None if it's absent or empty.
pub fn child_text(block: &[char], tag: &[char]) -> (r: Option<(usize, usize)>)
    ensures
        match r {
            Some((a, b)) => a <= b <= block@.len() && child_text_spec(block@, tag@) == Some(
                block@.subrange(a as int, b as int),
            ),
            None => child_text_spec(block@, tag@) is None,
        },
{
    proof {
        lemma_element_at_bounds(block@, tag@, 0);
    }
    match next_element(block, 0, tag) {
        None => None,
        Some((cs, ce, _)) => {
            let (a, b) = trim_bounds(block, cs, ce);
            if a == b {
                None
            } else {
                Some((a, b))
            }
        },
    }
}

} // verus!
