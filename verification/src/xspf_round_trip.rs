//! What reading back a written XSPF playlist gives.
use vstd::prelude::*;
use vstd::seq_lib::lemma_concat_associative;

use crate::num::{
    dec_int, is_digit_char, lemma_dec_int_shape, lemma_dec_nat_digits, lemma_parse_dec_i64,
};
use crate::playlist::{
    decoded, duration_fits, parse_xspf_spec, write_xspf_spec, xspf_duration, xspf_entries,
    xspf_entry, xspf_entry_text, xspf_footer, xspf_header, xspf_tracks_from, TrackView,
};
use crate::text::{
    find_from, is_ws, lemma_find_from_found, lemma_trim_unchanged, lemma_trimmed_ends, trim,
};
use crate::xspf::{
    child_text_spec, combine_title_spec, element_at, escape_char, escape_xml_spec,
    escape_location, law_decode_escape_round_trip, lemma_escape_front, lemma_location_reads_back,
    location_char, path_to_location_spec,
};

verus! {

// ---------------------------------------------------------------------------
// Searching text made of pieces
// ---------------------------------------------------------------------------

/// `s` holds no `<`.
pub open spec fn lt_free(s: Seq<char>) -> bool {
    forall|j: int| 0 <= j < s.len() ==> s[j] != '<'
}

pub open spec fn shifted(o: Option<int>, n: int) -> Option<int> {
    match o {
        Some(i) => Some(i + n),
        None => None,
    }
}

pub open spec fn shifted3(o: Option<(int, int, int)>, n: int) -> Option<(int, int, int)> {
    match o {
        Some((x, y, z)) => Some((x + n, y + n, z + n)),
        None => None,
    }
}

proof fn lemma_find_shift(a: Seq<char>, b: Seq<char>, pat: Seq<char>, k: int)
    requires
        0 <= k,
    ensures
        find_from(a + b, pat, a.len() + k) == shifted(find_from(b, pat, k), a.len() as int),
    decreases b.len() + 1 - k,
{
    let s = a + b;
    let p = a.len() + k;
    if p + pat.len() <= s.len() {
        assert(s.subrange(p, p + pat.len()) =~= b.subrange(k, k + pat.len()));
        if b.subrange(k, k + pat.len()) != pat {
            lemma_find_shift(a, b, pat, k + 1);
        }
    }
}

proof fn lemma_find_skip(s: Seq<char>, pat: Seq<char>, p: int, q: int)
    requires
        0 <= p <= q,
        forall|j: int|
            p <= j < q ==> j + pat.len() > s.len() || #[trigger] s.subrange(j, j + pat.len())
                != pat,
    ensures
        find_from(s, pat, p) == find_from(s, pat, q),
    decreases q - p,
{
    if p < q {
        lemma_find_skip(s, pat, p + 1, q);
    }
}

/// Looking for a pattern that starts with `<` passes over a piece without `<`.
proof fn lemma_find_past_plain(a: Seq<char>, b: Seq<char>, pat: Seq<char>)
    requires
        pat.len() > 0,
        pat[0] == '<',
        lt_free(a),
    ensures
        find_from(a + b, pat, 0) == shifted(find_from(b, pat, 0), a.len() as int),
{
    let s = a + b;
    assert forall|j: int| 0 <= j < a.len() implies j + pat.len() > s.len() || #[trigger] s.subrange(
        j,
        j + pat.len(),
    ) != pat by {
        if j + pat.len() <= s.len() {
            assert(s.subrange(j, j + pat.len())[0] == s[j]);
        }
    }
    lemma_find_skip(s, pat, 0, a.len() as int);
    lemma_find_shift(a, b, pat, 0);
}

/// Looking for a pattern that starts with `<` passes over a piece that has
/// its only `<` in front and differs from the pattern at `m`.
proof fn lemma_find_past_tag(a: Seq<char>, b: Seq<char>, pat: Seq<char>, m: int)
    requires
        pat[0] == '<',
        0 < m < a.len(),
        m < pat.len(),
        a[m] != pat[m],
        forall|j: int| 0 < j < a.len() ==> a[j] != '<',
    ensures
        find_from(a + b, pat, 0) == shifted(find_from(b, pat, 0), a.len() as int),
{
    let s = a + b;
    assert forall|j: int| 0 <= j < a.len() implies j + pat.len() > s.len() || #[trigger] s.subrange(
        j,
        j + pat.len(),
    ) != pat by {
        if j + pat.len() <= s.len() {
            if j == 0 {
                assert(s.subrange(j, j + pat.len())[m] == a[m]);
            } else {
                assert(s.subrange(j, j + pat.len())[0] == s[j]);
            }
        }
    }
    lemma_find_skip(s, pat, 0, a.len() as int);
    lemma_find_shift(a, b, pat, 0);
}

proof fn lemma_find_at_start(s: Seq<char>, pat: Seq<char>)
    requires
        pat.len() <= s.len(),
        s.take(pat.len() as int) == pat,
    ensures
        find_from(s, pat, 0) == Some(0int),
{
    assert(s.subrange(0, pat.len() as int) =~= s.take(pat.len() as int));
}

proof fn lemma_find_empty(pat: Seq<char>)
    requires
        pat.len() > 0,
    ensures
        find_from(Seq::<char>::empty(), pat, 0) is None,
{
}

/// Finding an element in text with a prefix is finding it in the rest.
proof fn lemma_element_shift(a: Seq<char>, b: Seq<char>, tag: Seq<char>, p: int)
    requires
        0 <= p,
    ensures
        element_at(a + b, tag, a.len() + p) == shifted3(element_at(b, tag, p), a.len() as int),
    decreases b.len() + 1 - p,
{
    let s = a + b;
    let n = a.len() as int;
    let open = seq!['<'] + tag;
    let close = seq!['<', '/'] + tag + seq!['>'];
    lemma_find_shift(a, b, open, p);
    lemma_find_from_found(b, open, p);
    match find_from(b, open, p) {
        None => {},
        Some(t) => {
            let q = t + open.len();
            if q < b.len() {
                assert(s[n + q] == b[q]);
            }
            if !(q < b.len() && (crate::text::is_ws(b[q]) || b[q] == '>' || b[q] == '/')) {
                lemma_element_shift(a, b, tag, q);
            } else {
                lemma_find_shift(a, b, seq!['>'], q);
                lemma_find_from_found(b, seq!['>'], q);
                match find_from(b, seq!['>'], q) {
                    None => {},
                    Some(c) => {
                        assert(s[n + c - 1] == b[c - 1]);
                        lemma_find_shift(a, b, close, c + 1);
                    },
                }
            }
        },
    }
}

/// A position that holds no `<` cannot start an element.
proof fn lemma_element_skip(s: Seq<char>, tag: Seq<char>, p: int)
    requires
        0 <= p < s.len(),
        s[p] != '<',
    ensures
        element_at(s, tag, p) == element_at(s, tag, p + 1),
{
    let open = seq!['<'] + tag;
    if p + open.len() <= s.len() {
        assert(s.subrange(p, p + open.len())[0] == s[p]);
    }
    lemma_find_skip(s, open, p, p + 1);
}

// ---------------------------------------------------------------------------
// The pieces of a written `<track>` element
// ---------------------------------------------------------------------------

pub open spec fn spaces(n: nat) -> Seq<char> {
    Seq::new(n, |i: int| ' ')
}

pub open spec fn location_open() -> Seq<char> {
    seq!['<', 'l', 'o', 'c', 'a', 't', 'i', 'o', 'n', '>']
}

pub open spec fn location_close() -> Seq<char> {
    seq!['<', '/', 'l', 'o', 'c', 'a', 't', 'i', 'o', 'n', '>', '\n']
}

pub open spec fn title_open() -> Seq<char> {
    seq!['<', 't', 'i', 't', 'l', 'e', '>']
}

pub open spec fn title_close() -> Seq<char> {
    seq!['<', '/', 't', 'i', 't', 'l', 'e', '>', '\n']
}

pub open spec fn duration_open() -> Seq<char> {
    seq!['<', 'd', 'u', 'r', 'a', 't', 'i', 'o', 'n', '>']
}

pub open spec fn duration_close() -> Seq<char> {
    seq!['<', '/', 'd', 'u', 'r', 'a', 't', 'i', 'o', 'n', '>', '\n']
}

pub open spec fn track_open() -> Seq<char> {
    seq!['<', 't', 'r', 'a', 'c', 'k', '>']
}

pub open spec fn track_close() -> Seq<char> {
    seq!['<', '/', 't', 'r', 'a', 'c', 'k', '>', '\n']
}

/// The `<title>` line written for a title, if any.
pub open spec fn title_part(title: Option<Seq<char>>) -> Seq<char> {
    match title {
        Some(x) => spaces(6) + title_open() + escape_xml_spec(x) + title_close(),
        None => seq![],
    }
}

/// Whether a `<duration>` line is written for `d`.
pub open spec fn has_duration(d: Option<i64>) -> bool {
    d matches Some(x) && x >= 0
}

/// The milliseconds written for a known non-negative duration.
pub open spec fn millis(d: Option<i64>) -> int {
    match d {
        Some(x) => x * 1000,
        None => 0,
    }
}

/// The `<duration>` line written for a duration, if any.
pub open spec fn duration_part(d: Option<i64>) -> Seq<char> {
    if has_duration(d) {
        spaces(6) + duration_open() + dec_int(millis(d)) + duration_close()
    } else {
        seq![]
    }
}

/// What is written between `<track>` and `</track>` for `t`.
pub open spec fn track_content(t: TrackView) -> Seq<char> {
    seq!['\n'] + spaces(6) + location_open() + escape_xml_spec(path_to_location_spec(t.path)) + location_close()
        + title_part(t.title) + duration_part(t.duration) + spaces(4)
}

proof fn lemma_entry_text_pieces(t: TrackView)
    ensures
        xspf_entry_text(t) == spaces(4) + track_open() + track_content(t) + track_close(),
{
    reveal_strlit("    <track>\n");
    reveal_strlit("      <location>");
    reveal_strlit("</location>\n");
    reveal_strlit("      <title>");
    reveal_strlit("</title>\n");
    reveal_strlit("      <duration>");
    reveal_strlit("</duration>\n");
    reveal_strlit("    </track>\n");
    assert("    <track>\n"@ =~= spaces(4) + track_open() + seq!['\n']);
    assert("      <location>"@ =~= spaces(6) + location_open());
    assert("</location>\n"@ =~= location_close());
    assert("      <title>"@ =~= spaces(6) + title_open());
    assert("</title>\n"@ =~= title_close());
    assert("      <duration>"@ =~= spaces(6) + duration_open());
    assert("</duration>\n"@ =~= duration_close());
    assert("    </track>\n"@ =~= spaces(4) + track_close());
    let title_text = match t.title {
        Some(x) => "      <title>"@ + escape_xml_spec(x) + "</title>\n"@,
        None => seq![],
    };
    assert(title_text =~= title_part(t.title));
    let duration_text = match t.duration {
        Some(d) => if d >= 0 {
            "      <duration>"@ + dec_int(d * 1000) + "</duration>\n"@
        } else {
            seq![]
        },
        None => seq![],
    };
    assert(duration_text =~= duration_part(t.duration));
    assert(xspf_entry_text(t) =~= spaces(4) + track_open() + track_content(t) + track_close());
}

// ---------------------------------------------------------------------------
// Escaped text and numbers hold no `<` and keep their ends
// ---------------------------------------------------------------------------

proof fn lemma_escape_lt_free(s: Seq<char>)
    ensures
        lt_free(escape_xml_spec(s)),
        s.len() > 0 ==> escape_xml_spec(s).len() > 0,
    decreases s.len(),
{
    if s.len() > 0 {
        lemma_escape_lt_free(s.drop_last());
        let a = escape_xml_spec(s.drop_last());
        let b = escape_char(s.last());
        assert forall|j: int| 0 <= j < (a + b).len() implies (a + b)[j] != '<' by {
            if j >= a.len() {
                assert((a + b)[j] == b[j - a.len()]);
            }
        }
    }
}

proof fn lemma_escape_trimmed(s: Seq<char>)
    requires
        s.len() > 0,
        trim(s) == s,
    ensures
        trim(escape_xml_spec(s)) == escape_xml_spec(s),
{
    lemma_trimmed_ends(s);
    lemma_escape_front(s);
    lemma_escape_lt_free(s);
    let e = escape_xml_spec(s);
    assert(e[0] == escape_char(s[0])[0]);
    let b = escape_char(s.last());
    assert(e == escape_xml_spec(s.drop_last()) + b);
    assert(e.last() == b.last());
    lemma_trim_unchanged(e);
}

proof fn lemma_millis_text(d: Option<i64>)
    requires
        has_duration(d),
    ensures
        lt_free(dec_int(millis(d))),
        dec_int(millis(d)).len() > 0,
        trim(dec_int(millis(d))) == dec_int(millis(d)),
{
    let n = millis(d);
    assert(n >= 0) by (nonlinear_arith)
        requires
            n == d->0 * 1000,
            d->0 >= 0,
    ;
    lemma_dec_int_shape(n);
    let s = dec_int(n);
    assert forall|j: int| 0 <= j < s.len() implies s[j] != '<' by {
        if j > 0 {
            assert(is_digit_char(s[j]));
        }
    }
    lemma_dec_nat_digits(n as nat);
    assert(is_digit_char(s[0]));
    lemma_trim_unchanged(s);
}

// ---------------------------------------------------------------------------
// Searching a written `<track>` element
// ---------------------------------------------------------------------------

proof fn lemma_spaces_lt_free(n: nat)
    ensures
        lt_free(spaces(n)),
        lt_free(seq!['\n'] + spaces(n)),
{
    assert forall|j: int| 0 <= j < (seq!['\n'] + spaces(n)).len() implies (seq!['\n'] + spaces(
        n,
    ))[j] != '<' by {
        if j > 0 {
            assert((seq!['\n'] + spaces(n))[j] == spaces(n)[j - 1]);
        }
    }
}

/// A tag whose only `<` is its first character, and which differs from
/// `pat` at 1, 2 or 3.
proof fn lemma_find_past_tag_auto(a: Seq<char>, b: Seq<char>, pat: Seq<char>)
    requires
        pat.len() >= 4,
        a.len() >= 4,
        pat[0] == '<',
        a[1] != pat[1] || a[2] != pat[2] || a[3] != pat[3],
        forall|j: int| 0 < j < a.len() ==> a[j] != '<',
    ensures
        find_from(a + b, pat, 0) == shifted(find_from(b, pat, 0), a.len() as int),
{
    if a[1] != pat[1] {
        lemma_find_past_tag(a, b, pat, 1);
    } else if a[2] != pat[2] {
        lemma_find_past_tag(a, b, pat, 2);
    } else {
        lemma_find_past_tag(a, b, pat, 3);
    }
}

proof fn lemma_find_past_title(title: Option<Seq<char>>, r: Seq<char>, pat: Seq<char>)
    requires
        pat.len() >= 4,
        pat[0] == '<',
        title is Some ==> title_open()[1] != pat[1] || title_open()[2] != pat[2] || title_open()[3]
            != pat[3],
        title is Some ==> title_close()[1] != pat[1] || title_close()[2] != pat[2]
            || title_close()[3] != pat[3],
    ensures
        find_from(title_part(title) + r, pat, 0) == shifted(
            find_from(r, pat, 0),
            title_part(title).len() as int,
        ),
{
    match title {
        None => {
            assert(title_part(title) + r =~= r);
        },
        Some(x) => {
            let e = escape_xml_spec(x);
            lemma_escape_lt_free(x);
            lemma_spaces_lt_free(6);
            assert(title_part(title) + r =~= spaces(6) + (title_open() + (e + (title_close() + r))));
            lemma_find_past_tag_auto(title_close(), r, pat);
            lemma_find_past_plain(e, title_close() + r, pat);
            lemma_find_past_tag_auto(title_open(), e + (title_close() + r), pat);
            lemma_find_past_plain(spaces(6), title_open() + (e + (title_close() + r)), pat);
        },
    }
}

proof fn lemma_find_past_duration(d: Option<i64>, r: Seq<char>, pat: Seq<char>)
    requires
        pat.len() >= 4,
        pat[0] == '<',
        has_duration(d) ==> duration_open()[1] != pat[1] || duration_open()[2] != pat[2]
            || duration_open()[3] != pat[3],
        has_duration(d) ==> duration_close()[1] != pat[1] || duration_close()[2] != pat[2]
            || duration_close()[3] != pat[3],
    ensures
        find_from(duration_part(d) + r, pat, 0) == shifted(
            find_from(r, pat, 0),
            duration_part(d).len() as int,
        ),
{
    if has_duration(d) {
        let e = dec_int(millis(d));
        lemma_millis_text(d);
        lemma_spaces_lt_free(6);
        assert(duration_part(d) + r =~= spaces(6) + (duration_open() + (e + (duration_close()
            + r))));
        lemma_find_past_tag_auto(duration_close(), r, pat);
        lemma_find_past_plain(e, duration_close() + r, pat);
        lemma_find_past_tag_auto(duration_open(), e + (duration_close() + r), pat);
        lemma_find_past_plain(spaces(6), duration_open() + (e + (duration_close() + r)), pat);
    } else {
        assert(duration_part(d) + r =~= r);
    }
}

/// Looking for a tag that none of the tags written inside a `<track>` can
/// start passes over all of what is written there.
proof fn lemma_find_past_content(t: TrackView, r: Seq<char>, pat: Seq<char>)
    requires
        pat.len() >= 4,
        pat[0] == '<',
        location_open()[1] != pat[1] || location_open()[2] != pat[2] || location_open()[3]
            != pat[3],
        location_close()[1] != pat[1] || location_close()[2] != pat[2] || location_close()[3]
            != pat[3],
        t.title is Some ==> title_open()[1] != pat[1] || title_open()[2] != pat[2]
            || title_open()[3] != pat[3],
        t.title is Some ==> title_close()[1] != pat[1] || title_close()[2] != pat[2]
            || title_close()[3] != pat[3],
        has_duration(t.duration) ==> duration_open()[1] != pat[1] || duration_open()[2]
            != pat[2] || duration_open()[3] != pat[3],
        has_duration(t.duration) ==> duration_close()[1] != pat[1] || duration_close()[2]
            != pat[2] || duration_close()[3] != pat[3],
    ensures
        find_from(track_content(t) + r, pat, 0) == shifted(
            find_from(r, pat, 0),
            track_content(t).len() as int,
        ),
{
    let lead = seq!['\n'] + spaces(6);
    let l = escape_xml_spec(path_to_location_spec(t.path));
    let tp = title_part(t.title);
    let dp = duration_part(t.duration);
    lemma_spaces_lt_free(6);
    lemma_spaces_lt_free(4);
    lemma_escape_lt_free(path_to_location_spec(t.path));
    let x2 = lead + location_open();
    let x3 = x2 + l;
    let x4 = x3 + location_close();
    let x5 = x4 + tp;
    let x6 = x5 + dp;
    let r1 = spaces(4) + r;
    let r2 = dp + r1;
    let r3 = tp + r2;
    let r4 = location_close() + r3;
    let r5 = l + r4;
    let r6 = location_open() + r5;
    assert(track_content(t) == x6 + spaces(4));
    lemma_concat_associative(x6, spaces(4), r);
    lemma_concat_associative(x5, dp, r1);
    lemma_concat_associative(x4, tp, r2);
    lemma_concat_associative(x3, location_close(), r3);
    lemma_concat_associative(x2, l, r4);
    lemma_concat_associative(lead, location_open(), r5);
    assert(track_content(t) + r == lead + r6);
    lemma_find_past_plain(spaces(4), r, pat);
    lemma_find_past_duration(t.duration, r1, pat);
    lemma_find_past_title(t.title, r2, pat);
    lemma_find_past_tag_auto(location_close(), r3, pat);
    lemma_find_past_plain(l, r4, pat);
    lemma_find_past_tag_auto(location_open(), r5, pat);
    lemma_find_past_plain(lead, r6, pat);
}

pub open spec fn track_entry(t: TrackView) -> Seq<char> {
    spaces(4) + track_open() + track_content(t) + track_close()
}

/// The `<track>` element written for `t` is found where it was written,
/// whatever follows it.
proof fn lemma_track_element(t: TrackView, r: Seq<char>)
    ensures
        element_at(track_entry(t) + r, "track"@, 0) == Some(
            (11int, 11 + track_content(t).len() as int, 19 + track_content(t).len() as int),
        ),
{
    reveal_strlit("track");
    let c = track_content(t);
    let s = track_entry(t) + r;
    let open = seq!['<'] + "track"@;
    let close = seq!['<', '/'] + "track"@ + seq!['>'];
    assert(open =~= seq!['<', 't', 'r', 'a', 'c', 'k']);
    assert(close =~= seq!['<', '/', 't', 'r', 'a', 'c', 'k', '>']);
    let q = c + (track_close() + r);
    let p = spaces(4) + track_open();
    assert(s =~= spaces(4) + (track_open() + q));
    assert(s =~= p + q);
    lemma_spaces_lt_free(4);
    lemma_find_past_plain(spaces(4), track_open() + q, open);
    assert((track_open() + q).take(6) =~= open);
    lemma_find_at_start(track_open() + q, open);
    assert(s[10] == '>');
    assert(s.subrange(10, 11) =~= seq!['>']);
    assert(find_from(s, seq!['>'], 10) == Some(10int));
    assert(s[9] == 'k');
    lemma_find_shift(p, q, close, 0);
    lemma_find_past_content(t, track_close() + r, close);
    assert((track_close() + r).take(8) =~= close);
    lemma_find_at_start(track_close() + r, close);
}

// ---------------------------------------------------------------------------
// The elements inside a written `<track>` element
// ---------------------------------------------------------------------------

/// The `<location>` line, with the line break and indentation before it.
pub open spec fn location_part(t: TrackView) -> Seq<char> {
    seq!['\n'] + spaces(6) + location_open() + escape_xml_spec(path_to_location_spec(t.path)) + location_close()
}

proof fn lemma_content_parts(t: TrackView)
    ensures
        track_content(t) == location_part(t) + title_part(t.title) + duration_part(t.duration)
            + spaces(4),
{
}

proof fn lemma_find_past_location_part(t: TrackView, r: Seq<char>, pat: Seq<char>)
    requires
        pat.len() >= 4,
        pat[0] == '<',
        location_open()[1] != pat[1] || location_open()[2] != pat[2] || location_open()[3]
            != pat[3],
        location_close()[1] != pat[1] || location_close()[2] != pat[2] || location_close()[3]
            != pat[3],
    ensures
        find_from(location_part(t) + r, pat, 0) == shifted(
            find_from(r, pat, 0),
            location_part(t).len() as int,
        ),
{
    let lead = seq!['\n'] + spaces(6);
    let l = escape_xml_spec(path_to_location_spec(t.path));
    lemma_spaces_lt_free(6);
    lemma_escape_lt_free(path_to_location_spec(t.path));
    let r4 = location_close() + r;
    let r5 = l + r4;
    let r6 = location_open() + r5;
    lemma_concat_associative(lead + location_open() + l, location_close(), r);
    lemma_concat_associative(lead + location_open(), l, r4);
    lemma_concat_associative(lead, location_open(), r5);
    assert(location_part(t) + r == lead + r6);
    lemma_find_past_tag_auto(location_close(), r, pat);
    lemma_find_past_plain(l, r4, pat);
    lemma_find_past_tag_auto(location_open(), r5, pat);
    lemma_find_past_plain(lead, r6, pat);
}

/// A tag that none of the written tags can start is not found in what is
/// written inside a `<track>` element.
proof fn lemma_child_absent(t: TrackView, tag: Seq<char>)
    requires
        tag.len() >= 3,
        location_open()[1] != tag[0] || location_open()[2] != tag[1] || location_open()[3]
            != tag[2],
        location_close()[1] != tag[0] || location_close()[2] != tag[1] || location_close()[3]
            != tag[2],
        t.title is Some ==> title_open()[1] != tag[0] || title_open()[2] != tag[1]
            || title_open()[3] != tag[2],
        t.title is Some ==> title_close()[1] != tag[0] || title_close()[2] != tag[1]
            || title_close()[3] != tag[2],
        has_duration(t.duration) ==> duration_open()[1] != tag[0] || duration_open()[2]
            != tag[1] || duration_open()[3] != tag[2],
        has_duration(t.duration) ==> duration_close()[1] != tag[0] || duration_close()[2]
            != tag[1] || duration_close()[3] != tag[2],
    ensures
        element_at(track_content(t), tag, 0) is None,
{
    let open = seq!['<'] + tag;
    let c = track_content(t);
    assert(c + Seq::<char>::empty() =~= c);
    lemma_find_past_content(t, Seq::<char>::empty(), open);
    lemma_find_empty(open);
}

proof fn lemma_child_location(t: TrackView)
    requires
        t.path.len() > 0,
        trim(t.path) == t.path,
    ensures
        child_text_spec(track_content(t), "location"@) == Some(escape_xml_spec(path_to_location_spec(t.path))),
{
    reveal_strlit("location");
    let c = track_content(t);
    let l = escape_xml_spec(path_to_location_spec(t.path));
    let lead = seq!['\n'] + spaces(6);
    let open = seq!['<'] + "location"@;
    let close = seq!['<', '/'] + "location"@ + seq!['>'];
    assert(open =~= location_open().take(9));
    assert(close =~= location_close().take(11));
    let rest = title_part(t.title) + duration_part(t.duration) + spaces(4);
    let q = l + (location_close() + rest);
    let p = lead + location_open();
    assert(c =~= lead + (location_open() + q));
    assert(c =~= p + q);
    lemma_spaces_lt_free(6);
    lemma_escape_lt_free(path_to_location_spec(t.path));
    lemma_find_past_plain(lead, location_open() + q, open);
    assert((location_open() + q).take(9) =~= open);
    lemma_find_at_start(location_open() + q, open);
    assert(c[16] == '>');
    assert(c.subrange(16, 17) =~= seq!['>']);
    assert(find_from(c, seq!['>'], 16) == Some(16int));
    assert(c[15] == 'n');
    lemma_find_shift(p, q, close, 0);
    lemma_find_past_plain(l, location_close() + rest, close);
    assert((location_close() + rest).take(11) =~= close);
    lemma_find_at_start(location_close() + rest, close);
    assert(element_at(c, "location"@, 0) == Some((17int, 17 + l.len() as int, 28 + l.len() as int)));
    assert(c.subrange(17, 17 + l.len() as int) =~= l);
    lemma_location_trimmed(t.path);
    lemma_escape_trimmed(path_to_location_spec(t.path));
}

proof fn lemma_child_title(t: TrackView, x: Seq<char>)
    requires
        t.title == Some(x),
        x.len() > 0,
        trim(x) == x,
    ensures
        child_text_spec(track_content(t), "title"@) == Some(escape_xml_spec(x)),
{
    reveal_strlit("title");
    let c = track_content(t);
    let lp = location_part(t);
    let e = escape_xml_spec(x);
    let open = seq!['<'] + "title"@;
    let close = seq!['<', '/'] + "title"@ + seq!['>'];
    assert(open =~= title_open().take(6));
    assert(close =~= title_close().take(8));
    let q = e + (title_close() + (duration_part(t.duration) + spaces(4)));
    let p = lp + spaces(6) + title_open();
    lemma_content_parts(t);
    assert(c =~= lp + (spaces(6) + (title_open() + q)));
    assert(c =~= p + q);
    lemma_spaces_lt_free(6);
    lemma_escape_lt_free(x);
    lemma_find_past_location_part(t, spaces(6) + (title_open() + q), open);
    lemma_find_past_plain(spaces(6), title_open() + q, open);
    assert((title_open() + q).take(6) =~= open);
    lemma_find_at_start(title_open() + q, open);
    let a: int = lp.len() as int + 12;
    assert(c[a] == '>');
    assert(c.subrange(a, a + 1) =~= seq!['>']);
    assert(find_from(c, seq!['>'], a) == Some(a));
    assert(c[a - 1] == 'e');
    lemma_find_shift(p, q, close, 0);
    lemma_find_past_plain(e, title_close() + (duration_part(t.duration) + spaces(4)), close);
    assert((title_close() + (duration_part(t.duration) + spaces(4))).take(8) =~= close);
    lemma_find_at_start(title_close() + (duration_part(t.duration) + spaces(4)), close);
    assert(element_at(c, "title"@, 0) == Some((a + 1, a + 1 + e.len() as int, a + 9 + e.len() as int)));
    assert(c.subrange(a + 1, a + 1 + e.len() as int) =~= e);
    lemma_escape_trimmed(x);
}

proof fn lemma_child_duration(t: TrackView)
    requires
        has_duration(t.duration),
    ensures
        child_text_spec(track_content(t), "duration"@) == Some(dec_int(millis(t.duration))),
{
    reveal_strlit("duration");
    let c = track_content(t);
    let lp = location_part(t);
    let tp = title_part(t.title);
    let e = dec_int(millis(t.duration));
    let open = seq!['<'] + "duration"@;
    let close = seq!['<', '/'] + "duration"@ + seq!['>'];
    assert(open =~= duration_open().take(9));
    assert(close =~= duration_close().take(11));
    let q = e + (duration_close() + spaces(4));
    let p = lp + tp + spaces(6) + duration_open();
    lemma_content_parts(t);
    assert(c =~= lp + (tp + (spaces(6) + (duration_open() + q))));
    assert(c =~= p + q);
    lemma_spaces_lt_free(6);
    lemma_millis_text(t.duration);
    lemma_find_past_location_part(t, tp + (spaces(6) + (duration_open() + q)), open);
    lemma_find_past_title(t.title, spaces(6) + (duration_open() + q), open);
    lemma_find_past_plain(spaces(6), duration_open() + q, open);
    assert((duration_open() + q).take(9) =~= open);
    lemma_find_at_start(duration_open() + q, open);
    let a: int = lp.len() as int + tp.len() as int + 15;
    assert(c[a] == '>');
    assert(c.subrange(a, a + 1) =~= seq!['>']);
    assert(find_from(c, seq!['>'], a) == Some(a));
    assert(c[a - 1] == 'n');
    lemma_find_shift(p, q, close, 0);
    lemma_find_past_plain(e, duration_close() + spaces(4), close);
    assert((duration_close() + spaces(4)).take(11) =~= close);
    lemma_find_at_start(duration_close() + spaces(4), close);
    assert(element_at(c, "duration"@, 0) == Some((a + 1, a + 1 + e.len() as int, a + 12 + e.len() as int)));
    assert(c.subrange(a + 1, a + 1 + e.len() as int) =~= e);
}

// ---------------------------------------------------------------------------
// Locations
// ---------------------------------------------------------------------------

proof fn lemma_escape_location_last(p: Seq<char>)
    requires
        p.len() > 0,
    ensures
        escape_location(p) == escape_location(p.drop_last()) + location_char(p.last()),
    decreases p.len(),
{
    if p.len() == 1 {
        assert(p.drop_first() =~= Seq::<char>::empty());
        assert(p.drop_last() =~= Seq::<char>::empty());
        assert(escape_location(p) =~= escape_location(p.drop_last()) + location_char(p.last()));
    } else {
        lemma_escape_location_last(p.drop_first());
        assert(p.drop_first().drop_last() =~= p.drop_last().drop_first());
        assert(p.drop_last()[0] == p[0]);
        assert(escape_location(p) =~= escape_location(p.drop_last()) + location_char(p.last()));
    }
}

/// The location written for a path without surrounding whitespace has none
/// either, and is not empty when the path is not.
proof fn lemma_location_trimmed(p: Seq<char>)
    requires
        p.len() > 0,
        trim(p) == p,
    ensures
        path_to_location_spec(p).len() > 0,
        trim(path_to_location_spec(p)) == path_to_location_spec(p),
{
    reveal(path_to_location_spec);
    lemma_trimmed_ends(p);
    let e = path_to_location_spec(p);
    if e != p {
        lemma_escape_location_last(p);
        let a = location_char(p[0]);
        assert(e == a + escape_location(p.drop_first()));
        assert(e[0] == a[0]);
        let b = location_char(p.last());
        assert(e.last() == b.last());
        lemma_trim_unchanged(e);
    }
}

// ---------------------------------------------------------------------------
// One track
// ---------------------------------------------------------------------------

/// A track that XSPF writes and reads back: a path that is not empty and
/// has no surrounding whitespace; a title
/// that is not empty and has no surrounding whitespace; and a duration that
/// fits in milliseconds.
pub open spec fn xspf_writable(t: TrackView) -> bool {
    &&& t.path.len() > 0
    &&& trim(t.path) == t.path
    &&& match t.title {
        Some(x) => x.len() > 0 && trim(x) == x,
        None => true,
    }
    &&& duration_fits(t.duration)
}

/// `t` as XSPF carries it: no directives, and only a known non-negative
/// duration.
pub open spec fn xspf_reread(t: TrackView) -> TrackView {
    TrackView {
        path: t.path,
        title: t.title,
        duration: if has_duration(t.duration) {
            t.duration
        } else {
            None
        },
        directives: seq![],
    }
}

proof fn lemma_entry_reads_back(t: TrackView)
    requires
        xspf_writable(t),
    ensures
        xspf_entry(track_content(t)) == seq![xspf_reread(t)],
{
    reveal(xspf_entry);
    reveal_strlit("creator");
    reveal_strlit("title");
    reveal_strlit("duration");
    let c = track_content(t);
    lemma_child_location(t);
    law_decode_escape_round_trip(path_to_location_spec(t.path));
    lemma_location_reads_back(t.path);
    lemma_child_absent(t, "creator"@);
    assert(child_text_spec(c, "creator"@) is None);
    match t.title {
        Some(x) => {
            lemma_child_title(t, x);
            law_decode_escape_round_trip(x);
        },
        None => {
            lemma_child_absent(t, "title"@);
        },
    }
    assert(combine_title_spec(
        decoded(child_text_spec(c, "creator"@)),
        decoded(child_text_spec(c, "title"@)),
    ) == t.title);
    if has_duration(t.duration) {
        lemma_child_duration(t);
        let d = t.duration->0;
        let m = millis(t.duration);
        assert(0 <= m <= i64::MAX && m / 1000 == d) by (nonlinear_arith)
            requires
                m == d * 1000,
                d >= 0,
                d * 1000 <= i64::MAX,
        ;
        lemma_parse_dec_i64(m as i64);
        assert(xspf_duration(c) == t.duration);
    } else {
        lemma_child_absent(t, "duration"@);
        assert(xspf_duration(c) is None);
    }
    assert(xspf_entry(c) =~= seq![xspf_reread(t)]);
}

// ---------------------------------------------------------------------------
// Around the tracks
// ---------------------------------------------------------------------------

/// Positions without `<` start no element.
proof fn lemma_element_skip_run(s: Seq<char>, tag: Seq<char>, p: int, q: int)
    requires
        0 <= p <= q <= s.len(),
        forall|j: int| p <= j < q ==> s[j] != '<',
    ensures
        element_at(s, tag, p) == element_at(s, tag, q),
    decreases q - p,
{
    if p < q {
        lemma_element_skip(s, tag, p);
        lemma_element_skip_run(s, tag, p + 1, q);
    }
}

/// The header written before the tracks holds no `<track>` element: its
/// `<trackList>` is not one.
proof fn lemma_header_element(y: Seq<char>)
    ensures
        element_at(xspf_header() + y, "track"@, 0) == shifted3(
            element_at(y, "track"@, 0),
            xspf_header().len() as int,
        ),
{
    reveal_strlit("track");
    reveal_strlit("<?xml version=\"1.0\" encoding=\"UTF-8\"?>\n");
    reveal_strlit("<playlist version=\"1\" xmlns=\"http://xspf.org/ns/0/\">\n  <trackList>\n");
    reveal_strlit("<playlist version=\"1\" xmlns=\"http://xspf.org/ns/0/\">\n");
    reveal_strlit("<trackList>\n");
    let h = xspf_header();
    let a = "<?xml version=\"1.0\" encoding=\"UTF-8\"?>\n"@;
    let b = "<playlist version=\"1\" xmlns=\"http://xspf.org/ns/0/\">\n"@;
    let l = "<trackList>\n"@;
    let open = seq!['<'] + "track"@;
    assert(open =~= seq!['<', 't', 'r', 'a', 'c', 'k']);
    assert(h =~= a + (b + (spaces(2) + l)));
    let s = h + y;
    assert(s =~= a + (b + (spaces(2) + (l + y))));
    lemma_spaces_lt_free(2);
    lemma_find_past_tag_auto(a, b + (spaces(2) + (l + y)), open);
    lemma_find_past_tag_auto(b, spaces(2) + (l + y), open);
    lemma_find_past_plain(spaces(2), l + y, open);
    assert((l + y).take(6) =~= open);
    lemma_find_at_start(l + y, open);
    assert(find_from(s, open, 0) == Some(94int));
    assert(s[100] == 'L');
    assert(element_at(s, "track"@, 0) == element_at(s, "track"@, 100));
    lemma_element_skip_run(s, "track"@, 100, h.len() as int);
    lemma_element_shift(h, y, "track"@, 0);
}

/// The footer written after the tracks holds no `<track>` element.
proof fn lemma_footer_element()
    ensures
        element_at(xspf_footer(), "track"@, 0) is None,
{
    reveal_strlit("track");
    reveal_strlit("  </trackList>\n</playlist>\n");
    let f = xspf_footer();
    let open = seq!['<'] + "track"@;
    assert(open =~= seq!['<', 't', 'r', 'a', 'c', 'k']);
    let a = seq!['<', '/', 't', 'r', 'a', 'c', 'k', 'L', 'i', 's', 't', '>', '\n'];
    let b = seq!['<', '/', 'p', 'l', 'a', 'y', 'l', 'i', 's', 't', '>', '\n'];
    assert(f =~= spaces(2) + (a + (b + Seq::<char>::empty())));
    lemma_spaces_lt_free(2);
    lemma_find_past_tag_auto(b, Seq::<char>::empty(), open);
    lemma_find_past_tag_auto(a, b + Seq::<char>::empty(), open);
    lemma_find_past_plain(spaces(2), a + (b + Seq::<char>::empty()), open);
    lemma_find_empty(open);
}

// ---------------------------------------------------------------------------
// The whole playlist
// ---------------------------------------------------------------------------

proof fn lemma_entries_split(ts: Seq<TrackView>, i: int)
    requires
        0 <= i <= ts.len(),
    ensures
        xspf_entries(ts) == xspf_entries(ts.take(i)) + xspf_entries(ts.skip(i)),
    decreases ts.len(),
{
    if i == ts.len() {
        assert(ts.take(i) =~= ts);
        assert(ts.skip(i) =~= Seq::<TrackView>::empty());
        assert(xspf_entries(ts) + xspf_entries(Seq::<TrackView>::empty()) =~= xspf_entries(ts));
    } else {
        let dl = ts.drop_last();
        lemma_entries_split(dl, i);
        assert(dl.take(i) =~= ts.take(i));
        assert(ts.skip(i).drop_last() =~= dl.skip(i));
        assert(ts.skip(i).last() == ts.last());
        lemma_concat_associative(
            xspf_entries(ts.take(i)),
            xspf_entries(dl.skip(i)),
            xspf_entry_text(ts.last()),
        );
    }
}

/// The text from where the `i`-th track is written.
proof fn lemma_text_at(ts: Seq<TrackView>, i: int)
    requires
        0 <= i <= ts.len(),
    ensures
        write_xspf_spec(ts) == xspf_header() + xspf_entries(ts.take(i)) + (xspf_entries(ts.skip(i))
            + xspf_footer()),
{
    lemma_entries_split(ts, i);
    lemma_concat_associative(xspf_header(), xspf_entries(ts.take(i)), xspf_entries(ts.skip(i)));
    lemma_concat_associative(
        xspf_header() + xspf_entries(ts.take(i)),
        xspf_entries(ts.skip(i)),
        xspf_footer(),
    );
}

proof fn lemma_entries_front(ts: Seq<TrackView>)
    requires
        ts.len() > 0,
    ensures
        xspf_entries(ts) == xspf_entry_text(ts[0]) + xspf_entries(ts.drop_first()),
{
    lemma_entries_split(ts, 1);
    let one = ts.take(1);
    assert(one.drop_last() =~= Seq::<TrackView>::empty());
    assert(xspf_entries(Seq::<TrackView>::empty()) == Seq::<char>::empty());
    assert(xspf_entries(one) == xspf_entries(one.drop_last()) + xspf_entry_text(one.last()));
    assert(xspf_entries(one) =~= xspf_entry_text(ts[0]));
    assert(ts.skip(1) =~= ts.drop_first());
}

/// Reading from where the `i`-th track was written gives that track, then
/// what is read from where the next one was written.
#[verifier::spinoff_prover]
#[verifier::rlimit(50)]
proof fn lemma_tracks_step(ts: Seq<TrackView>, i: int)
    requires
        0 <= i < ts.len(),
        xspf_writable(ts[i]),
    ensures
        xspf_tracks_from(
            write_xspf_spec(ts),
            (xspf_header() + xspf_entries(ts.take(i))).len() as int,
        ) == seq![xspf_reread(ts[i])] + xspf_tracks_from(
            write_xspf_spec(ts),
            (xspf_header() + xspf_entries(ts.take(i + 1))).len() as int,
        ),
{
    let text = write_xspf_spec(ts);
    let x = xspf_header() + xspf_entries(ts.take(i));
    let n = x.len() as int;
    let t = ts[i];
    lemma_text_at(ts, i);
    lemma_entries_front(ts.skip(i));
    assert(ts.skip(i).drop_first() =~= ts.skip(i + 1));
    lemma_entry_text_pieces(t);
    let c = track_content(t);
    let r = xspf_entries(ts.skip(i + 1)) + xspf_footer();
    lemma_concat_associative(track_entry(t), xspf_entries(ts.skip(i + 1)), xspf_footer());
    assert(text == x + (track_entry(t) + r));
    lemma_element_shift(x, track_entry(t) + r, "track"@, 0);
    lemma_track_element(t, r);
    assert(text.subrange(n + 11, n + 11 + c.len() as int) =~= c);
    lemma_entry_reads_back(t);
    let e = track_entry(t).len() as int;
    assert(text[n + e - 1] == '\n');
    lemma_element_skip(text, "track"@, n + e - 1);
    assert(xspf_tracks_from(text, n + e - 1) == xspf_tracks_from(text, n + e));
    assert(ts.take(i + 1).drop_last() =~= ts.take(i));
    assert(xspf_entries(ts.take(i + 1)) == xspf_entries(ts.take(i)) + xspf_entry_text(t));
}

/// Reading from where the `i`-th track was written gives the tracks from
/// the `i`-th on.
proof fn lemma_tracks_from_entries(ts: Seq<TrackView>, i: int)
    requires
        0 <= i <= ts.len(),
        forall|j: int| 0 <= j < ts.len() ==> xspf_writable(#[trigger] ts[j]),
    ensures
        xspf_tracks_from(
            write_xspf_spec(ts),
            (xspf_header() + xspf_entries(ts.take(i))).len() as int,
        ) == ts.skip(i).map_values(|t: TrackView| xspf_reread(t)),
    decreases ts.len() - i,
{
    let text = write_xspf_spec(ts);
    let x = xspf_header() + xspf_entries(ts.take(i));
    if i == ts.len() {
        lemma_text_at(ts, i);
        assert(ts.skip(i) =~= Seq::<TrackView>::empty());
        assert(xspf_entries(ts.skip(i)) =~= Seq::<char>::empty());
        assert(text =~= x + xspf_footer());
        lemma_element_shift(x, xspf_footer(), "track"@, 0);
        lemma_footer_element();
        assert(ts.skip(i).map_values(|t: TrackView| xspf_reread(t)) =~= Seq::<TrackView>::empty());
    } else {
        lemma_tracks_step(ts, i);
        lemma_tracks_from_entries(ts, i + 1);
        assert(ts.skip(i).map_values(|t: TrackView| xspf_reread(t)) =~= seq![xspf_reread(ts[i])]
            + ts.skip(i + 1).map_values(|t: TrackView| xspf_reread(t)));
    }
}

/// Reading back what `write_xspf` wrote gives the same tracks in the same
/// order, with their paths and titles, and with a duration exactly when it
/// is known and not negative; M3U directives, which XSPF has no place for,
/// are not written. This holds for every track list whose paths are not
/// empty and have no surrounding whitespace, whose titles are not empty and
/// have no surrounding whitespace, and whose durations fit in an `i64` as
/// milliseconds.
pub proof fn law_xspf_round_trip(ts: Seq<TrackView>)
    requires
        forall|i: int| 0 <= i < ts.len() ==> xspf_writable(#[trigger] ts[i]),
    ensures
        parse_xspf_spec(write_xspf_spec(ts)) == ts.map_values(|t: TrackView| xspf_reread(t)),
{
    let text = write_xspf_spec(ts);
    let h = xspf_header();
    assert(ts.take(0) =~= Seq::<TrackView>::empty());
    assert(h + xspf_entries(ts.take(0)) =~= h);
    assert(ts.skip(0) =~= ts);
    lemma_tracks_from_entries(ts, 0);
    lemma_concat_associative(h, xspf_entries(ts), xspf_footer());
    lemma_header_element(xspf_entries(ts) + xspf_footer());
    lemma_element_shift(h, xspf_entries(ts) + xspf_footer(), "track"@, 0);
    assert(element_at(text, "track"@, 0) == element_at(text, "track"@, h.len() as int));
    assert(xspf_tracks_from(text, 0) == xspf_tracks_from(text, h.len() as int));
}

} // verus!
