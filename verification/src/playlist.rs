//! Playlist entries and the M3U/M3U8 and PLS readers and writers.
use vstd::prelude::*;
use std::collections::BTreeMap;
use vstd::std_specs::iter::IteratorSpec;
use vstd::string::StringExecFns;
use vstd::utf8::{
    char_u32_cast, codepoint_width_3, decode_first_scalar, decode_utf8, encode_scalar, encode_utf8,
    encode_utf8_decode_utf8, encode_utf8_first_scalar, encode_utf8_valid_utf8, last_continuation_byte,
    leading_byte_width_3, second_last_continuation_byte, valid_utf8,
};

use crate::xspf::{
    child_text, child_text_spec, combine_title, combine_title_spec, decode_xml_spec,
    decode_xml_text, element_at, escape_xml_spec, lemma_element_at_bounds, location_to_path,
    location_to_path_spec, next_element, path_to_location, path_to_location_spec, push_escaped,
};

use crate::paths::{
    components, components_of, copy_range, file_name, normalize, normalize_parts, parent_comps,
    is_root, parts_view, relative, relative_parts, render, render_parts, Comp, Part,
};
use crate::num::{dec_int, dec_nat, parse_i64_range, parse_i64_spec, parse_u32_range, parse_u32_spec, push_dec_i64, push_dec_u64};
use crate::text::{
    chars_of, find_char, find_from, find_last, find_pattern, last_index, lemma_split_at_newline, lower_range, ascii_lower, push_all, push_char, first_index, has_prefix, range_eq, split_on, starts_with, string_of, trim,
    trim_bounds,
};

verus! {

/// A single entry in a playlist. `title` and `duration` are optional because
/// M3U, PLS, and XSPF all allow an entry to be nothing more than a path.
#[derive(Debug, Clone, PartialEq, Eq)]
pub struct Track {
    pub path: String,
    pub title: Option<String>,
    /// Duration in whole seconds. -1 conventionally means "unknown" in both
    /// formats, but it is kept as a real `Some(-1)` rather than folded into
    /// `None`, since a writer still has to emit something for it.
    pub duration: Option<i64>,
    /// Extended M3U directives (e.g. `#EXTVLCOPT:network-caching=1000`) that
    /// appeared before this track's path, kept verbatim including the
    /// leading `#`. Neither PLS nor XSPF has an equivalent, so these only
    /// survive an M3U-to-M3U round trip.
    pub directives: Vec<String>,
}

/// The mathematical content of a [`Track`].
pub struct TrackView {
    pub path: Seq<char>,
    pub title: Option<Seq<char>>,
    pub duration: Option<i64>,
    pub directives: Seq<Seq<char>>,
}

pub open spec fn opt_view(o: Option<String>) -> Option<Seq<char>> {
    match o {
        Some(s) => Some(s@),
        None => None,
    }
}

pub open spec fn strings_view(v: Seq<String>) -> Seq<Seq<char>> {
    v.map_values(|s: String| s@)
}

impl View for Track {
    type V = TrackView;

    open spec fn view(&self) -> TrackView {
        TrackView {
            path: self.path@,
            title: opt_view(self.title),
            duration: self.duration,
            directives: strings_view(self.directives@),
        }
    }
}

pub open spec fn tracks_view(v: Seq<Track>) -> Seq<TrackView> {
    v.map_values(|t: Track| t@)
}

/// The playlist formats this library reads and writes.
#[derive(Debug, Clone, Copy, PartialEq, Eq, Structural)]
pub enum Format {
    M3u,
    Pls,
    Xspf,
}

/// The format a name such as `m3u`, `M3U8`, `pls` or `xspf` stands for,
/// compared without regard to ASCII case.
pub open spec fn format_named(name: Seq<char>) -> Option<Format> {
    let l = ascii_lower(name);
    if l == seq!['m', '3', 'u'] || l == seq!['m', '3', 'u', '8'] {
        Some(Format::M3u)
    } else if l == seq!['p', 'l', 's'] {
        Some(Format::Pls)
    } else if l == seq!['x', 's', 'p', 'f'] {
        Some(Format::Xspf)
    } else {
        None
    }
}

/// The extension of a file name (`Path::extension`): what follows its last
/// `.`, unless that dot is the first character or there is none.
pub open spec fn extension(name: Seq<char>) -> Option<Seq<char>> {
    let d = last_index(name, '.');
    if d <= 0 {
        None
    } else {
        Some(name.skip(d + 1))
    }
}

/// The format the extension of the path `path` names.
pub open spec fn format_of_path(path: Seq<char>) -> Option<Format> {
    match file_name(path) {
        Some(name) => match extension(name) {
            Some(ext) => format_named(ext),
            None => None,
        },
        None => None,
    }
}

fn format_of_chars(l: &[char]) -> (r: Option<Format>)
    ensures
        r == format_named(l@),
{
    let low = lower_range(l, 0, l.len());
    assert(l@.subrange(0, l@.len() as int) =~= l@);
    let m3u: [char; 3] = ['m', '3', 'u'];
    let m3u8: [char; 4] = ['m', '3', 'u', '8'];
    let pls: [char; 3] = ['p', 'l', 's'];
    let xspf: [char; 4] = ['x', 's', 'p', 'f'];
    assert(m3u@ =~= seq!['m', '3', 'u']);
    assert(m3u8@ =~= seq!['m', '3', 'u', '8']);
    assert(pls@ =~= seq!['p', 'l', 's']);
    assert(xspf@ =~= seq!['x', 's', 'p', 'f']);
    let n = low.len();
    assert(low@.subrange(0, n as int) =~= low@);
    if range_eq(&low, 0, n, &m3u) || range_eq(&low, 0, n, &m3u8) {
        Some(Format::M3u)
    } else if range_eq(&low, 0, n, &pls) {
        Some(Format::Pls)
    } else if range_eq(&low, 0, n, &xspf) {
        Some(Format::Xspf)
    } else {
        None
    }
}

impl Format {
    /// Picks a format from a file's extension. Returns None for anything not
    /// recognized so the caller can fail loudly instead of guessing.
    pub fn from_path(path: &str) -> (r: Option<Format>)
        ensures
            r == format_of_path(path@),
    {
        let v = chars_of(path);
        let parts = components_of(&v);
        if parts.len() == 0 {
            return None;
        }
        match &parts[parts.len() - 1] {
            Part::Normal(name) => {
                assert(parts_view(parts@).last() == Comp::Normal(name@));
                match find_last(name, '.') {
                    Some(d) => {
                        assert(d < name@.len());
                        let nl = name.len();
                        if d == 0 {
                            None
                        } else {
                            assert(name@.skip(d + 1) =~= name@.subrange(d + 1, name@.len() as int));
                            let ext = copy_range(name, d + 1, nl);
                            format_of_chars(&ext)
                        }
                    },
                    None => None,
                }
            },
            _ => None,
        }
    }

    /// Picks a format from an explicit name, e.g. a `--from`/`--to` flag
    /// value. Accepts the same names as the file extensions it mirrors.
    pub fn from_name(name: &str) -> (r: Option<Format>)
        ensures
            r == format_named(name@),
    {
        let v = chars_of(name);
        format_of_chars(&v)
    }
}

// ---------------------------------------------------------------------------
// Decoding raw bytes
// ---------------------------------------------------------------------------

/// `bytes` without a leading UTF-8 byte-order mark.
pub open spec fn strip_bom(bytes: Seq<u8>) -> Seq<u8> {
    if bytes.len() >= 3 && bytes[0] == 0xEF && bytes[1] == 0xBB && bytes[2] == 0xBF {
        bytes.skip(3)
    } else {
        bytes
    }
}

/// Each byte read as the character with that code point (ISO-8859-1).
pub open spec fn latin1(bytes: Seq<u8>) -> Seq<char> {
    bytes.map_values(|b: u8| b as char)
}

/// The text raw playlist bytes decode to: UTF-8 when the bytes (after any
/// byte-order mark) are valid UTF-8, ISO-8859-1 otherwise.
pub open spec fn decode_playlist_spec(bytes: Seq<u8>) -> Seq<char> {
    let b = strip_bom(bytes);
    if valid_utf8(b) {
        decode_utf8(b)
    } else {
        latin1(b)
    }
}

/// Decodes raw playlist bytes into text. Modern exports are UTF-8, but many
/// playlists written by older tools are plain Latin-1 (ISO-8859-1), which has
/// no invalid byte sequences of its own. UTF-8 is tried first, and Latin-1 is
/// the fallback when the bytes are not valid UTF-8; a byte's value there is
/// its Unicode code point, so the fallback cannot fail either.
pub fn decode_playlist_bytes(bytes: &[u8]) -> (text: String)
    ensures
        text@ == decode_playlist_spec(bytes@),
{
    let start: usize = if bytes.len() >= 3 && bytes[0] == 0xEF && bytes[1] == 0xBB && bytes[2] == 0xBF {
        3
    } else {
        0
    };
    let mut body: Vec<u8> = Vec::new();
    let mut i = start;
    while i < bytes.len()
        invariant
            start <= i <= bytes@.len(),
            body@ == bytes@.subrange(start as int, i as int),
        decreases bytes@.len() - i,
    {
        body.push(bytes[i]);
        assert(body@ =~= bytes@.subrange(start as int, i + 1));
        i = i + 1;
    }
    assert(body@ =~= strip_bom(bytes@));
    match utf8_text(body.as_slice()) {
        Some(text) => text.to_owned(),
        None => {
            let mut out = String::new();
            let mut j: usize = 0;
            while j < body.len()
                invariant
                    0 <= j <= body@.len(),
                    out@ == latin1(body@.take(j as int)),
                decreases body@.len() - j,
            {
                push_char(&mut out, body[j] as char);
                assert(latin1(body@.take(j + 1)) =~= latin1(body@.take(j as int)).push(
                    body@[j as int] as char,
                ));
                j = j + 1;
            }
            assert(body@.take(j as int) =~= body@);
            out
        },
    }
}

/// Reads `bytes` as text with `std::str::from_utf8`. The contract claims
/// that this succeeds exactly when the bytes are valid UTF-8 (vstd's
/// `valid_utf8`), and that the text is then the characters they encode
/// (vstd's `decode_utf8`).
#[verifier::external_body]
pub(crate) fn utf8_text(bytes: &[u8]) -> (r: Option<&str>)
    ensures
        r is Some <==> valid_utf8(bytes@),
        r matches Some(s) ==> s@ == decode_utf8(bytes@),
{
    std::str::from_utf8(bytes).ok()
}

/// Bytes that are not valid UTF-8 (after any byte-order mark) are read as
/// ISO-8859-1: one character per byte, each with the byte's value as its
/// code point.
pub proof fn law_latin1_fallback(bytes: Seq<u8>)
    requires
        !valid_utf8(strip_bom(bytes)),
    ensures
        decode_playlist_spec(bytes).len() == strip_bom(bytes).len(),
        forall|i: int|
            0 <= i < strip_bom(bytes).len() ==> #[trigger] decode_playlist_spec(bytes)[i] as u32
                == strip_bom(bytes)[i] as u32,
{
}

/// A leading byte-order mark is dropped and nothing else: the bytes read are
/// those after the mark when the input starts with `EF BB BF`, else all of
/// them.
pub proof fn law_bom_stripped(bytes: Seq<u8>)
    ensures
        bytes.len() >= 3 && bytes[0] == 0xEF && bytes[1] == 0xBB && bytes[2] == 0xBF ==> strip_bom(
            bytes,
        ) == bytes.subrange(3, bytes.len() as int),
        !(bytes.len() >= 3 && bytes[0] == 0xEF && bytes[1] == 0xBB && bytes[2] == 0xBF)
            ==> strip_bom(bytes) == bytes,
{
    if bytes.len() >= 3 && bytes[0] == 0xEF && bytes[1] == 0xBB && bytes[2] == 0xBF {
        assert(strip_bom(bytes) =~= bytes.subrange(3, bytes.len() as int));
    }
}

/// The UTF-8 byte-order mark.
pub open spec fn utf8_bom() -> Seq<u8> {
    seq![0xEFu8, 0xBBu8, 0xBFu8]
}

proof fn lemma_bom_is_feff()
    ensures
        encode_scalar(0xFEFFu32) == utf8_bom(),
        codepoint_width_3(0xEFu8, 0xBBu8, 0xBFu8) == 0xFEFFu32,
{
    assert(leading_byte_width_3(0xFEFFu32) == 0xEFu8) by (bit_vector);
    assert(second_last_continuation_byte(0xFEFFu32) == 0xBBu8) by (bit_vector);
    assert(last_continuation_byte(0xFEFFu32) == 0xBFu8) by (bit_vector);
    assert(codepoint_width_3(0xEFu8, 0xBBu8, 0xBFu8) == 0xFEFFu32) by (bit_vector);
    assert(encode_scalar(0xFEFFu32) =~= utf8_bom());
}

/// Text stored as UTF-8 reads back as exactly that text: a byte-order mark
/// written in front of it is dropped, and so is one the text itself starts
/// with (which is where a byte-order mark stands).
pub proof fn law_utf8_text_reads_back(s: Seq<char>)
    ensures
        decode_playlist_spec(utf8_bom() + encode_utf8(s)) == s,
        decode_playlist_spec(encode_utf8(s)) == (if s.len() > 0 && s[0] == '\u{FEFF}' {
            s.drop_first()
        } else {
            s
        }),
{
    broadcast use encode_utf8_valid_utf8, encode_utf8_decode_utf8;

    lemma_bom_is_feff();
    assert(strip_bom(utf8_bom() + encode_utf8(s)) =~= encode_utf8(s));
    if s.len() > 0 {
        let e = encode_utf8(s);
        encode_utf8_first_scalar(s);
        assert(e == encode_scalar(s[0] as u32) + encode_utf8(s.drop_first()));
        if s[0] == '\u{FEFF}' {
            assert(strip_bom(e) =~= encode_utf8(s.drop_first()));
        } else if e.len() >= 3 && e[0] == 0xEF && e[1] == 0xBB && e[2] == 0xBF {
            assert(decode_first_scalar(e) == 0xFEFFu32);
            char_u32_cast(s[0], 0xFEFFu32);
            char_u32_cast('\u{FEFF}', 0xFEFFu32);
            assert(false);
        }
    }
}

// ---------------------------------------------------------------------------
// Paths
// ---------------------------------------------------------------------------

/// A character allowed in a URL scheme.
pub open spec fn scheme_char(c: char) -> bool {
    ('a' <= c && c <= 'z') || ('A' <= c && c <= 'Z') || ('0' <= c && c <= '9') || c == '+' || c
        == '-' || c == '.'
}

/// Whether `s` is a URL: a non-empty scheme of letters, digits, `+`, `-` and
/// `.` before the first `://`.
pub open spec fn is_url_spec(s: Seq<char>) -> bool {
    match find_from(s, seq![':', '/', '/'], 0) {
        Some(i) => i > 0 && forall|j: int| 0 <= j < i ==> scheme_char(#[trigger] s[j]),
        None => false,
    }
}

/// Whether `s` is absolute on Unix (`/...`) or a Windows drive-letter path
/// (`C:\...` or `C:/...`).
pub open spec fn is_absolute_like_spec(s: Seq<char>) -> bool {
    ||| s.len() > 0 && s[0] == '/'
    ||| s.len() >= 3 && (('a' <= s[0] && s[0] <= 'z') || ('A' <= s[0] && s[0] <= 'Z')) && s[1]
        == ':' && (s[2] == '\\' || s[2] == '/')
}

pub fn is_url(v: &[char]) -> (b: bool)
    ensures
        b == is_url_spec(v@),
{
    let sep: [char; 3] = [':', '/', '/'];
    assert(sep@ =~= seq![':', '/', '/']);
    match find_pattern(v, 0, &sep) {
        None => false,
        Some(i) => {
            if i == 0 {
                return false;
            }
            let mut j: usize = 0;
            while j < i
                invariant
                    0 <= j <= i,
                    i <= v@.len(),
                    find_from(v@, seq![':', '/', '/'], 0) == Some(i as int),
                    forall|k: int| 0 <= k < j ==> scheme_char(#[trigger] v@[k]),
                decreases i - j,
            {
                let c = v[j];
                if !(('a' <= c && c <= 'z') || ('A' <= c && c <= 'Z') || ('0' <= c && c <= '9')
                    || c == '+' || c == '-' || c == '.') {
                    assert(!scheme_char(v@[j as int]));
                    return false;
                }
                j = j + 1;
            }
            true
        },
    }
}

pub fn is_absolute_like(v: &[char]) -> (b: bool)
    ensures
        b == is_absolute_like_spec(v@),
{
    if v.len() > 0 && v[0] == '/' {
        return true;
    }
    v.len() >= 3 && (('a' <= v[0] && v[0] <= 'z') || ('A' <= v[0] && v[0] <= 'Z')) && v[1] == ':'
        && (v[2] == '\\' || v[2] == '/')
}

/// The directory a playlist at `path` lives in: the components before the
/// last one, written with `/` between them, or `.` when that is nothing.
pub open spec fn dir_of_spec(path: Seq<char>) -> Seq<char> {
    match parent_comps(components(path)) {
        Some(p) => if render(p).len() > 0 {
            render(p)
        } else {
            seq!['.']
        },
        None => seq!['.'],
    }
}

/// Returns the directory a playlist file lives in, as a base for resolving
/// its entries' relative paths. A bare filename with no directory component
/// is anchored to `.` rather than an empty path, so joins behave the same
/// as they would from a shell.
pub fn dir_of(path: &str) -> (dir: String)
    ensures
        dir@ == dir_of_spec(path@),
{
    let v = chars_of(path);
    let mut parts = components_of(&v);
    let n = parts.len();
    if n > 0 && !is_root(&parts[n - 1]) {
        let ghost before = parts@;
        parts.pop();
        assert(parts_view(parts@) =~= parts_view(before).drop_last());
        let s = render_parts(&parts);
        if !s.as_str().is_empty() {
            s
        } else {
            let mut d = String::new();
            push_char(&mut d, '.');
            d
        }
    } else {
        let mut d = String::new();
        push_char(&mut d, '.');
        d
    }
}

/// Where `path`, written relative to `from_dir`, is found from `to_dir`.
pub open spec fn rebase_spec(path: Seq<char>, from_dir: Seq<char>, to_dir: Seq<char>) -> Seq<char> {
    if is_url_spec(path) || is_absolute_like_spec(path) {
        path
    } else {
        let target = normalize(components(from_dir) + components(path));
        let base = normalize(components(to_dir));
        match relative(base, target) {
            Some(rel) => render(rel),
            None => render(target),
        }
    }
}

/// Rewrites a track's path so that, read from `to_dir`, it still points at
/// the same file it pointed at when read from `from_dir`. Absolute paths,
/// Windows drive-letter paths, and URLs are left alone, since none of those
/// are anchored to the playlist's own location.
pub fn rebase_path(path: &str, from_dir: &str, to_dir: &str) -> (r: String)
    ensures
        r@ == rebase_spec(path@, from_dir@, to_dir@),
{
    let p = chars_of(path);
    if is_url(&p) || is_absolute_like(&p) {
        return string_of(&p, 0, p.len());
    }
    let from = chars_of(from_dir);
    let to = chars_of(to_dir);
    let mut joined = components_of(&from);
    let mut tail = components_of(&p);
    let ghost a = parts_view(joined@);
    let ghost b = parts_view(tail@);
    joined.append(&mut tail);
    assert(parts_view(joined@) =~= a + b);
    let target = normalize_parts(&joined);
    let base = normalize_parts(&components_of(&to));
    match relative_parts(&base, &target) {
        Some(rel) => render_parts(&rel),
        None => render_parts(&target),
    }
}

// ---------------------------------------------------------------------------
// M3U reading
// ---------------------------------------------------------------------------

pub open spec fn extinf_tag() -> Seq<char> {
    seq!['#', 'E', 'X', 'T', 'I', 'N', 'F', ':']
}

pub open spec fn extm3u_tag() -> Seq<char> {
    seq!['#', 'E', 'X', 'T', 'M', '3', 'U']
}

pub open spec fn ext_tag() -> Seq<char> {
    seq!['#', 'E', 'X', 'T']
}

/// What the reader carries from line to line: the tracks so far, the
/// metadata of an `#EXTINF:` line still waiting for its path, and the
/// directives seen since the last path.
pub struct M3uState {
    pub tracks: Seq<TrackView>,
    pub meta: Option<(Option<i64>, Option<Seq<char>>)>,
    pub directives: Seq<Seq<char>>,
}

pub open spec fn m3u_start() -> M3uState {
    M3uState { tracks: seq![], meta: None, directives: seq![] }
}

/// The duration and title of an `#EXTINF:` line; `rest` is what follows the
/// colon. Only the first comma separates the two, since titles are free text.
pub open spec fn extinf_meta(rest: Seq<char>) -> (Option<i64>, Option<Seq<char>>) {
    let i = first_index(rest, ',');
    if i < rest.len() {
        let title = trim(rest.skip(i + 1));
        (parse_i64_spec(trim(rest.take(i))), if title.len() == 0 {
            None
        } else {
            Some(title)
        })
    } else {
        (parse_i64_spec(trim(rest)), None)
    }
}

/// How one line of M3U text changes the reader's state.
pub open spec fn m3u_step(st: M3uState, raw: Seq<char>) -> M3uState {
    let line = trim(raw);
    if line.len() == 0 {
        st
    } else if starts_with(line, extinf_tag()) {
        M3uState {
            tracks: st.tracks,
            meta: Some(extinf_meta(line.skip(8))),
            directives: st.directives,
        }
    } else if line == extm3u_tag() {
        st
    } else if starts_with(line, ext_tag()) {
        M3uState { tracks: st.tracks, meta: st.meta, directives: st.directives.push(line) }
    } else if line[0] == '#' {
        st
    } else {
        let (duration, title) = match st.meta {
            Some(m) => m,
            None => (None, None),
        };
        M3uState {
            tracks: st.tracks.push(
                TrackView { path: line, title: title, duration: duration, directives: st.directives },
            ),
            meta: None,
            directives: seq![],
        }
    }
}

/// The reader's state after the lines `lines`, starting from `st`.
pub open spec fn m3u_run(st: M3uState, lines: Seq<Seq<char>>) -> M3uState
    decreases lines.len(),
{
    if lines.len() == 0 {
        st
    } else {
        m3u_run(m3u_step(st, lines[0]), lines.drop_first())
    }
}

/// The tracks M3U text `input` describes.
pub open spec fn parse_m3u_spec(input: Seq<char>) -> Seq<TrackView> {
    m3u_run(m3u_start(), split_on(input, '\n')).tracks
}

struct M3uReader {
    tracks: Vec<Track>,
    meta: Option<(Option<i64>, Option<String>)>,
    directives: Vec<String>,
}

impl View for M3uReader {
    type V = M3uState;

    closed spec fn view(&self) -> M3uState {
        M3uState {
            tracks: tracks_view(self.tracks@),
            meta: match self.meta {
                Some((d, t)) => Some((d, opt_view(t))),
                None => None,
            },
            directives: strings_view(self.directives@),
        }
    }
}

impl M3uReader {
    fn extinf(v: &[char], lo: usize, hi: usize) -> (r: (Option<i64>, Option<String>))
        requires
            lo <= hi <= v@.len(),
        ensures
            (r.0, opt_view(r.1)) == extinf_meta(v@.subrange(lo as int, hi as int)),
    {
        let ghost rest = v@.subrange(lo as int, hi as int);
        let i = find_char(v, lo, hi, ',');
        if i < hi {
            assert(rest.take(i - lo) =~= v@.subrange(lo as int, i as int));
            assert(rest.skip(i - lo + 1) =~= v@.subrange(i + 1, hi as int));
            let (d0, d1) = trim_bounds(v, lo, i);
            let duration = parse_i64_range(v, d0, d1);
            let (t0, t1) = trim_bounds(v, i + 1, hi);
            if t0 == t1 {
                (duration, None)
            } else {
                (duration, Some(string_of(v, t0, t1)))
            }
        } else {
            let (d0, d1) = trim_bounds(v, lo, hi);
            (parse_i64_range(v, d0, d1), None)
        }
    }

    fn line(&mut self, v: &[char], lo: usize, hi: usize)
        requires
            lo <= hi <= v@.len(),
        ensures
            final(self)@ == m3u_step(old(self)@, v@.subrange(lo as int, hi as int)),
    {
        let ghost raw = v@.subrange(lo as int, hi as int);
        let (a, b) = trim_bounds(v, lo, hi);
        let ghost line = v@.subrange(a as int, b as int);
        let extinf: [char; 8] = ['#', 'E', 'X', 'T', 'I', 'N', 'F', ':'];
        let extm3u: [char; 7] = ['#', 'E', 'X', 'T', 'M', '3', 'U'];
        let ext: [char; 4] = ['#', 'E', 'X', 'T'];
        assert(extinf@ =~= extinf_tag());
        assert(extm3u@ =~= extm3u_tag());
        assert(ext@ =~= ext_tag());
        if a == b {
            return;
        }
        if has_prefix(v, a, b, &extinf) {
            assert(line.skip(8) =~= v@.subrange(a + 8, b as int));
            let meta = Self::extinf(v, a + 8, b);
            self.meta = Some(meta);
            return;
        }
        if range_eq(v, a, b, &extm3u) {
            return;
        }
        if has_prefix(v, a, b, &ext) {
            self.directives.push(string_of(v, a, b));
            assert(strings_view(self.directives@) =~= strings_view(old(self).directives@).push(line));
            return;
        }
        if v[a] == '#' {
            return;
        }
        let (duration, title) = match self.meta.take() {
            Some(m) => m,
            None => (None, None),
        };
        let mut directives: Vec<String> = Vec::new();
        std::mem::swap(&mut directives, &mut self.directives);
        let track = Track { path: string_of(v, a, b), title, duration, directives };
        self.tracks.push(track);
        assert(tracks_view(self.tracks@) =~= tracks_view(old(self).tracks@).push(track@));
        assert(strings_view(self.directives@) =~= Seq::<Seq<char>>::empty());
    }
}

proof fn lemma_m3u_run_cons(st: M3uState, first: Seq<char>, rest: Seq<Seq<char>>)
    ensures
        m3u_run(st, seq![first] + rest) == m3u_run(m3u_step(st, first), rest),
{
    assert((seq![first] + rest).drop_first() =~= rest);
}

/// Parses M3U/M3U8 text into tracks. `#EXTM3U` is dropped as a bare header.
/// Other extended directives (`#EXTVLCOPT:`, `#EXTGRP:`, and anything else
/// starting `#EXT` that isn't `#EXTINF:`) are kept verbatim and attached to
/// whichever track comes next. Any other `#`-prefixed line is a plain
/// comment and is dropped.
pub fn parse_m3u(input: &str) -> (tracks: Vec<Track>)
    ensures
        tracks_view(tracks@) == parse_m3u_spec(input@),
{
    let v = chars_of(input);
    let mut r = M3uReader { tracks: Vec::new(), meta: None, directives: Vec::new() };
    assert(r@ == m3u_start()) by {
        assert(tracks_view(r.tracks@) =~= Seq::<TrackView>::empty());
        assert(strings_view(r.directives@) =~= Seq::<Seq<char>>::empty());
    }
    assert(v@.skip(0) =~= v@);
    let mut pos: usize = 0;
    loop
        invariant_except_break
            pos <= v@.len(),
            m3u_run(r@, split_on(v@.skip(pos as int), '\n')) == m3u_run(
                m3u_start(),
                split_on(v@, '\n'),
            ),
        ensures
            r@ == m3u_run(m3u_start(), split_on(v@, '\n')),
        decreases v@.len() - pos,
    {
        let e = find_char(&v, pos, v.len(), '\n');
        let ghost before = r@;
        r.line(&v, pos, e);
        proof {
            lemma_split_at_newline(v@, pos as int, e as int);
            if e < v@.len() {
                lemma_m3u_run_cons(before, v@.subrange(pos as int, e as int), split_on(v@.skip(e + 1), '\n'));
            } else {
                lemma_m3u_run_cons(before, v@.subrange(pos as int, e as int), Seq::empty());
                assert(seq![v@.subrange(pos as int, e as int)] + Seq::<Seq<char>>::empty() =~= seq![v@.subrange(pos as int, e as int)]);
            }
        }
        if e == v.len() {
            break;
        }
        pos = e + 1;
    }
    r.tracks
}

// ---------------------------------------------------------------------------
// M3U writing
// ---------------------------------------------------------------------------

/// The title a writer emits: the title itself, or nothing.
pub open spec fn title_or_empty(t: Option<Seq<char>>) -> Seq<char> {
    match t {
        Some(x) => x,
        None => seq![],
    }
}

/// The duration a writer emits: the duration itself, or the -1 "unknown".
pub open spec fn duration_or_unknown(d: Option<i64>) -> i64 {
    match d {
        Some(x) => x,
        None => -1i64,
    }
}

/// Each directive on a line of its own.
pub open spec fn directive_lines(ds: Seq<Seq<char>>) -> Seq<char>
    decreases ds.len(),
{
    if ds.len() == 0 {
        seq![]
    } else {
        directive_lines(ds.drop_last()) + ds.last() + seq!['\n']
    }
}

/// The lines one track takes in M3U: `#EXTINF:<duration>,<title>`, its
/// directives, then its path.
pub open spec fn m3u_entry(t: TrackView) -> Seq<char> {
    extinf_tag() + dec_int(duration_or_unknown(t.duration) as int) + seq![','] + title_or_empty(
        t.title,
    ) + seq!['\n'] + directive_lines(t.directives) + t.path + seq!['\n']
}

pub open spec fn m3u_entries(ts: Seq<TrackView>) -> Seq<char>
    decreases ts.len(),
{
    if ts.len() == 0 {
        seq![]
    } else {
        m3u_entries(ts.drop_last()) + m3u_entry(ts.last())
    }
}

/// The M3U text written for `ts`.
pub open spec fn write_m3u_spec(ts: Seq<TrackView>) -> Seq<char> {
    extm3u_tag() + seq!['\n'] + m3u_entries(ts)
}

fn push_m3u_entry(out: &mut String, t: &Track)
    ensures
        final(out)@ == old(out)@ + m3u_entry(t@),
{
    let extinf: [char; 8] = ['#', 'E', 'X', 'T', 'I', 'N', 'F', ':'];
    assert(extinf@ =~= extinf_tag());
    push_all(out, &extinf);
    let duration = match t.duration {
        Some(d) => d,
        None => -1,
    };
    push_dec_i64(out, duration);
    push_char(out, ',');
    match &t.title {
        Some(title) => out.append(title.as_str()),
        None => {},
    }
    push_char(out, '\n');
    let ghost head = out@;
    let mut i: usize = 0;
    while i < t.directives.len()
        invariant
            0 <= i <= t.directives@.len(),
            out@ == head + directive_lines(strings_view(t.directives@).take(i as int)),
        decreases t.directives@.len() - i,
    {
        out.append(t.directives[i].as_str());
        push_char(out, '\n');
        assert(strings_view(t.directives@).take(i + 1).drop_last() =~= strings_view(
            t.directives@,
        ).take(i as int));
        i = i + 1;
    }
    assert(strings_view(t.directives@).take(i as int) =~= strings_view(t.directives@));
    out.append(t.path.as_str());
    push_char(out, '\n');
    assert(out@ =~= old(out)@ + m3u_entry(t@));
}

/// Writes tracks out as M3U. An `#EXTINF` line is always emitted, so the
/// output is unambiguous even when the source had none; an unknown title and
/// duration become "" and -1. Directives carried on a track are re-emitted
/// right after `#EXTINF` and before the path.
pub fn write_m3u(tracks: &[Track]) -> (out: String)
    ensures
        out@ == write_m3u_spec(tracks_view(tracks@)),
{
    let mut out = String::new();
    let header: [char; 8] = ['#', 'E', 'X', 'T', 'M', '3', 'U', '\n'];
    push_all(&mut out, &header);
    assert(header@ =~= extm3u_tag() + seq!['\n']);
    let mut i: usize = 0;
    while i < tracks.len()
        invariant
            0 <= i <= tracks@.len(),
            out@ == extm3u_tag() + seq!['\n'] + m3u_entries(tracks_view(tracks@).take(i as int)),
        decreases tracks@.len() - i,
    {
        push_m3u_entry(&mut out, &tracks[i]);
        assert(tracks_view(tracks@).take(i + 1).drop_last() =~= tracks_view(tracks@).take(i as int));
        assert(out@ =~= extm3u_tag() + seq!['\n'] + m3u_entries(tracks_view(tracks@).take(i + 1)));
        i = i + 1;
    }
    assert(tracks_view(tracks@).take(i as int) =~= tracks_view(tracks@));
    out
}

// ---------------------------------------------------------------------------
// PLS reading
// ---------------------------------------------------------------------------

pub open spec fn file_key() -> Seq<char> {
    seq!['f', 'i', 'l', 'e']
}

pub open spec fn title_key() -> Seq<char> {
    seq!['t', 'i', 't', 'l', 'e']
}

pub open spec fn length_key() -> Seq<char> {
    seq!['l', 'e', 'n', 'g', 't', 'h']
}

/// The `FileN`, `TitleN` and `LengthN` values read so far, by index `N`.
pub struct PlsState {
    pub files: Map<u32, Seq<char>>,
    pub titles: Map<u32, Seq<char>>,
    pub lengths: Map<u32, i64>,
}

pub open spec fn pls_start() -> PlsState {
    PlsState { files: Map::empty(), titles: Map::empty(), lengths: Map::empty() }
}

/// How one line of PLS text changes the reader's state. Keys are compared
/// case-insensitively; `NumberOfEntries`, `Version` and anything else are
/// ignored.
pub open spec fn pls_step(st: PlsState, raw: Seq<char>) -> PlsState {
    let line = trim(raw);
    let i = first_index(line, '=');
    if line.len() == 0 || line[0] == '[' || i >= line.len() {
        st
    } else {
        let key = ascii_lower(trim(line.take(i)));
        let value = trim(line.skip(i + 1));
        if starts_with(key, file_key()) && parse_u32_spec(key.skip(4)) is Some {
            PlsState {
                files: st.files.insert(parse_u32_spec(key.skip(4)).unwrap(), value),
                titles: st.titles,
                lengths: st.lengths,
            }
        } else if starts_with(key, title_key()) && parse_u32_spec(key.skip(5)) is Some {
            if value.len() > 0 {
                PlsState {
                    files: st.files,
                    titles: st.titles.insert(parse_u32_spec(key.skip(5)).unwrap(), value),
                    lengths: st.lengths,
                }
            } else {
                st
            }
        } else if starts_with(key, length_key()) && parse_u32_spec(key.skip(6)) is Some {
            match parse_i64_spec(value) {
                Some(n) => PlsState {
                    files: st.files,
                    titles: st.titles,
                    lengths: st.lengths.insert(parse_u32_spec(key.skip(6)).unwrap(), n),
                },
                None => st,
            }
        } else {
            st
        }
    }
}

pub open spec fn pls_run(st: PlsState, lines: Seq<Seq<char>>) -> PlsState
    decreases lines.len(),
{
    if lines.len() == 0 {
        st
    } else {
        pls_run(pls_step(st, lines[0]), lines.drop_first())
    }
}

/// Whether `ks` is strictly increasing.
pub open spec fn increasing(ks: Seq<u32>) -> bool {
    forall|i: int, j: int| 0 <= i < j < ks.len() ==> ks[i] < ks[j]
}

/// The indices of the `FileN` entries, in increasing order.
pub open spec fn pls_keys(st: PlsState) -> Seq<u32> {
    choose|ks: Seq<u32>| increasing(ks) && ks.to_set() == st.files.dom()
}

/// The track with index `k`.
pub open spec fn pls_track(st: PlsState, k: u32) -> TrackView {
    TrackView {
        path: st.files[k],
        title: if st.titles.contains_key(k) {
            Some(st.titles[k])
        } else {
            None
        },
        duration: if st.lengths.contains_key(k) {
            Some(st.lengths[k])
        } else {
            None
        },
        directives: seq![],
    }
}

/// The tracks PLS text `input` describes, in increasing order of index.
pub open spec fn parse_pls_spec(input: Seq<char>) -> Seq<TrackView> {
    let st = pls_run(pls_start(), split_on(input, '\n'));
    pls_keys(st).map_values(|k: u32| pls_track(st, k))
}

/// Two strictly increasing sequences with the same elements are equal.
pub proof fn lemma_increasing_unique(a: Seq<u32>, b: Seq<u32>)
    requires
        increasing(a),
        increasing(b),
        a.to_set() == b.to_set(),
    ensures
        a == b,
    decreases a.len(),
{
    if a.len() == 0 {
        if b.len() > 0 {
            assert(b.to_set().contains(b[0]));
        }
        assert(b.len() == 0);
    } else {
        assert(a.to_set().contains(a[0]));
        assert(b.len() > 0) by {
            if b.len() == 0 {
                assert(b.to_set() =~= Set::<u32>::empty());
            }
        }
        assert(b.to_set().contains(b[0]));
        let i = choose|i: int| 0 <= i < b.len() && b[i] == a[0];
        let j = choose|j: int| 0 <= j < a.len() && a[j] == b[0];
        assert(a[0] == b[0]) by {
            if i > 0 {
                assert(b[0] < b[i]);
            }
            if j > 0 {
                assert(a[0] < a[j]);
            }
        }
        let a1 = a.drop_first();
        let b1 = b.drop_first();
        assert(a1.to_set() =~= b1.to_set()) by {
            assert forall|x: u32| a1.to_set().contains(x) implies b1.to_set().contains(x) by {
                let k = choose|k: int| 0 <= k < a1.len() && a1[k] == x;
                assert(a.to_set().contains(x)) by {
                    assert(a[k + 1] == x);
                }
                let m = choose|m: int| 0 <= m < b.len() && b[m] == x;
                assert(a[0] < x);
                assert(m != 0);
                assert(b1[m - 1] == x);
            }
            assert forall|x: u32| b1.to_set().contains(x) implies a1.to_set().contains(x) by {
                let k = choose|k: int| 0 <= k < b1.len() && b1[k] == x;
                assert(b.to_set().contains(x)) by {
                    assert(b[k + 1] == x);
                }
                let m = choose|m: int| 0 <= m < a.len() && a[m] == x;
                assert(b[0] < x);
                assert(m != 0);
                assert(a1[m - 1] == x);
            }
        }
        lemma_increasing_unique(a1, b1);
        assert(a =~= seq![a[0]] + a1);
        assert(b =~= seq![b[0]] + b1);
    }
}

struct PlsReader {
    files: BTreeMap<u32, String>,
    titles: BTreeMap<u32, String>,
    lengths: BTreeMap<u32, i64>,
}

pub open spec fn strings_map(m: Map<u32, String>) -> Map<u32, Seq<char>> {
    m.map_values(|s: String| s@)
}

impl View for PlsReader {
    type V = PlsState;

    closed spec fn view(&self) -> PlsState {
        PlsState {
            files: strings_map(self.files@),
            titles: strings_map(self.titles@),
            lengths: self.lengths@,
        }
    }
}

impl PlsReader {
    fn line(&mut self, v: &[char], lo: usize, hi: usize)
        requires
            lo <= hi <= v@.len(),
        ensures
            final(self)@ == pls_step(old(self)@, v@.subrange(lo as int, hi as int)),
    {
        proof {
            crate::ordered::lemma_u32_keys_ordered();
        }
        let ghost raw = v@.subrange(lo as int, hi as int);
        let (a, b) = trim_bounds(v, lo, hi);
        let ghost line = v@.subrange(a as int, b as int);
        if a == b || v[a] == '[' {
            return;
        }
        let i = find_char(v, a, b, '=');
        if i == b {
            return;
        }
        assert(line.take(i - a) =~= v@.subrange(a as int, i as int));
        assert(line.skip(i - a + 1) =~= v@.subrange(i + 1, b as int));
        let (k0, k1) = trim_bounds(v, a, i);
        let key = lower_range(v, k0, k1);
        let (v0, v1) = trim_bounds(v, i + 1, b);
        let file: [char; 4] = ['f', 'i', 'l', 'e'];
        let title: [char; 5] = ['t', 'i', 't', 'l', 'e'];
        let length: [char; 6] = ['l', 'e', 'n', 'g', 't', 'h'];
        assert(file@ =~= file_key());
        assert(title@ =~= title_key());
        assert(length@ =~= length_key());
        assert(key@.subrange(0, key@.len() as int) =~= key@);
        if has_prefix(&key, 0, key.len(), &file) {
            assert(key@.skip(4) =~= key@.subrange(4, key@.len() as int));
            match parse_u32_range(&key, 4, key.len()) {
                Some(idx) => {
                    let value = string_of(v, v0, v1);
                    self.files.insert(idx, value);
                    assert(strings_map(self.files@) =~= strings_map(old(self).files@).insert(idx, value@));
                    return;
                },
                None => {},
            }
        }
        if has_prefix(&key, 0, key.len(), &title) {
            assert(key@.skip(5) =~= key@.subrange(5, key@.len() as int));
            match parse_u32_range(&key, 5, key.len()) {
                Some(idx) => {
                    if v0 < v1 {
                        let value = string_of(v, v0, v1);
                        self.titles.insert(idx, value);
                        assert(strings_map(self.titles@) =~= strings_map(old(self).titles@).insert(idx, value@));
                    }
                    return;
                },
                None => {},
            }
        }
        if has_prefix(&key, 0, key.len(), &length) {
            assert(key@.skip(6) =~= key@.subrange(6, key@.len() as int));
            match parse_u32_range(&key, 6, key.len()) {
                Some(idx) => {
                    match parse_i64_range(v, v0, v1) {
                        Some(n) => {
                            self.lengths.insert(idx, n);
                        },
                        None => {},
                    }
                    return;
                },
                None => {},
            }
        }
    }
}

proof fn lemma_pls_run_cons(st: PlsState, first: Seq<char>, rest: Seq<Seq<char>>)
    ensures
        pls_run(st, seq![first] + rest) == pls_run(pls_step(st, first), rest),
{
    assert((seq![first] + rest).drop_first() =~= rest);
}

/// Parses PLS text into tracks. Keys are read case-insensitively and entries
/// are reassembled by their numeric suffix rather than trusting
/// `NumberOfEntries`, since that field is often stale or wrong.
pub fn parse_pls(input: &str) -> (tracks: Vec<Track>)
    ensures
        tracks_view(tracks@) == parse_pls_spec(input@),
{
    broadcast use vstd::std_specs::btree::group_btree_axioms;

    proof {
        crate::ordered::lemma_u32_keys_ordered();
    }
    let v = chars_of(input);
    let mut r = PlsReader { files: BTreeMap::new(), titles: BTreeMap::new(), lengths: BTreeMap::new() };
    assert(r@ == pls_start()) by {
        assert(strings_map(r.files@) =~= Map::<u32, Seq<char>>::empty());
        assert(strings_map(r.titles@) =~= Map::<u32, Seq<char>>::empty());
    }
    assert(v@.skip(0) =~= v@);
    let mut pos: usize = 0;
    loop
        invariant_except_break
            pos <= v@.len(),
            pls_run(r@, split_on(v@.skip(pos as int), '\n')) == pls_run(
                pls_start(),
                split_on(v@, '\n'),
            ),
        ensures
            r@ == pls_run(pls_start(), split_on(v@, '\n')),
        decreases v@.len() - pos,
    {
        let e = find_char(&v, pos, v.len(), '\n');
        let ghost before = r@;
        r.line(&v, pos, e);
        proof {
            lemma_split_at_newline(v@, pos as int, e as int);
            if e < v@.len() {
                lemma_pls_run_cons(before, v@.subrange(pos as int, e as int), split_on(v@.skip(e + 1), '\n'));
            } else {
                lemma_pls_run_cons(before, v@.subrange(pos as int, e as int), Seq::empty());
                assert(seq![v@.subrange(pos as int, e as int)] + Seq::<Seq<char>>::empty() =~= seq![v@.subrange(pos as int, e as int)]);
            }
        }
        if e == v.len() {
            break;
        }
        pos = e + 1;
    }
    let ghost st = r@;
    let mut tracks: Vec<Track> = Vec::new();
    let ghost items = vstd::std_specs::btree::spec_btree_map_iter(&r.files).remaining();
    for kv in it: r.files.iter()
        invariant
            st == r@,
            it.seq() == items,
            tracks_view(tracks@) == it.seq().take(it.index() as int).map_values(
                |kv: (&u32, &String)| pls_track(st, *kv.0),
            ),
    {
        let (k, path) = kv;
        let title = match r.titles.get(k) {
            Some(t) => Some(t.clone()),
            None => None,
        };
        let duration = match r.lengths.get(k) {
            Some(d) => Some(*d),
            None => None,
        };
        let track = Track { path: path.clone(), title, duration, directives: Vec::new() };
        let ghost prev = tracks@;
        tracks.push(track);
        assert(it.seq().take(it.index() + 1) =~= it.seq().take(it.index() as int).push(kv));
        assert(kv == items[it.index() as int]);
        assert(r.files@.contains_key(*k) && r.files@[*k] == *path);
        assert(track@.path == pls_track(st, *k).path);
        assert(track@.title == pls_track(st, *k).title);
        assert(track@.duration == pls_track(st, *k).duration);
        assert(track@.directives =~= pls_track(st, *k).directives);
        assert(track@ == pls_track(st, *k));
        assert(tracks_view(tracks@) =~= tracks_view(prev).push(track@));
    }
    let ghost ks = items.map_values(|kv: (&u32, &String)| *kv.0);
    proof {
        crate::ordered::lemma_increasing_u32(ks);
        assert forall|x: u32| ks.to_set().contains(x) implies st.files.dom().contains(x) by {
            let i = choose|i: int| 0 <= i < ks.len() && ks[i] == x;
            assert(r.files@.contains_key(*items[i].0));
        }
        assert forall|x: u32| st.files.dom().contains(x) implies ks.to_set().contains(x) by {
            assert(r.files@.contains_key(x));
            assert(items.contains((&x, &r.files@[x])));
            let i = choose|i: int| 0 <= i < items.len() && items[i] == (&x, &r.files@[x]);
            assert(ks[i] == x);
        }
        assert(ks.to_set() =~= st.files.dom());
        lemma_increasing_unique(ks, pls_keys(st));
    }
    tracks
}

// ---------------------------------------------------------------------------
// PLS writing
// ---------------------------------------------------------------------------

/// The lines entry number `n` takes in PLS: `FileN=`, `TitleN=` when there
/// is a title, and `LengthN=` (-1 when the duration is unknown).
pub open spec fn pls_entry(n: nat, t: TrackView) -> Seq<char> {
    seq!['F', 'i', 'l', 'e'] + dec_nat(n) + seq!['='] + t.path + seq!['\n'] + match t.title {
        Some(title) => seq!['T', 'i', 't', 'l', 'e'] + dec_nat(n) + seq!['='] + title + seq!['\n'],
        None => seq![],
    } + seq!['L', 'e', 'n', 'g', 't', 'h'] + dec_nat(n) + seq!['='] + dec_int(
        duration_or_unknown(t.duration) as int,
    ) + seq!['\n']
}

/// The entries for `ts`, numbered from 1 in list order.
pub open spec fn pls_entries(ts: Seq<TrackView>) -> Seq<char>
    decreases ts.len(),
{
    if ts.len() == 0 {
        seq![]
    } else {
        pls_entries(ts.drop_last()) + pls_entry(ts.len(), ts.last())
    }
}

pub open spec fn pls_header() -> Seq<char> {
    seq!['[', 'p', 'l', 'a', 'y', 'l', 'i', 's', 't', ']', '\n']
}

pub open spec fn count_key() -> Seq<char> {
    seq!['N', 'u', 'm', 'b', 'e', 'r', 'O', 'f', 'E', 'n', 't', 'r', 'i', 'e', 's', '=']
}

pub open spec fn version_line() -> Seq<char> {
    seq!['V', 'e', 'r', 's', 'i', 'o', 'n', '=', '2', '\n']
}

/// The PLS text written for `ts`.
pub open spec fn write_pls_spec(ts: Seq<TrackView>) -> Seq<char> {
    pls_header() + pls_entries(ts) + count_key() + dec_nat(ts.len()) + seq!['\n'] + version_line()
}

fn push_pls_entry(out: &mut String, n: u64, t: &Track)
    ensures
        final(out)@ == old(out)@ + pls_entry(n as nat, t@),
{
    let file: [char; 4] = ['F', 'i', 'l', 'e'];
    let title_key: [char; 5] = ['T', 'i', 't', 'l', 'e'];
    let length: [char; 6] = ['L', 'e', 'n', 'g', 't', 'h'];
    push_all(out, &file);
    push_dec_u64(out, n);
    push_char(out, '=');
    out.append(t.path.as_str());
    push_char(out, '\n');
    let ghost mid = out@;
    match &t.title {
        Some(title) => {
            push_all(out, &title_key);
            push_dec_u64(out, n);
            push_char(out, '=');
            out.append(title.as_str());
            push_char(out, '\n');
        },
        None => {},
    }
    push_all(out, &length);
    push_dec_u64(out, n);
    push_char(out, '=');
    let duration = match t.duration {
        Some(d) => d,
        None => -1,
    };
    push_dec_i64(out, duration);
    push_char(out, '\n');
    assert(out@ =~= old(out)@ + pls_entry(n as nat, t@));
}

/// Writes tracks out as PLS, numbering entries from 1 in list order.
pub fn write_pls(tracks: &[Track]) -> (out: String)
    ensures
        out@ == write_pls_spec(tracks_view(tracks@)),
{
    let mut out = String::new();
    let header: [char; 11] = ['[', 'p', 'l', 'a', 'y', 'l', 'i', 's', 't', ']', '\n'];
    push_all(&mut out, &header);
    assert(out@ =~= pls_header() + pls_entries(tracks_view(tracks@).take(0)));
    let mut i: usize = 0;
    while i < tracks.len()
        invariant
            0 <= i <= tracks@.len(),
            out@ == pls_header() + pls_entries(tracks_view(tracks@).take(i as int)),
        decreases tracks@.len() - i,
    {
        push_pls_entry(&mut out, (i + 1) as u64, &tracks[i]);
        assert(tracks_view(tracks@).take(i + 1).drop_last() =~= tracks_view(tracks@).take(i as int));
        assert(out@ =~= pls_header() + pls_entries(tracks_view(tracks@).take(i + 1)));
        i = i + 1;
    }
    assert(tracks_view(tracks@).take(i as int) =~= tracks_view(tracks@));
    let count: [char; 16] = ['N', 'u', 'm', 'b', 'e', 'r', 'O', 'f', 'E', 'n', 't', 'r', 'i', 'e', 's', '='];
    push_all(&mut out, &count);
    push_dec_u64(&mut out, tracks.len() as u64);
    push_char(&mut out, '\n');
    let version: [char; 10] = ['V', 'e', 'r', 's', 'i', 'o', 'n', '=', '2', '\n'];
    push_all(&mut out, &version);
    assert(out@ =~= write_pls_spec(tracks_view(tracks@)));
    out
}

// ---------------------------------------------------------------------------
// XSPF
// ---------------------------------------------------------------------------

/// `ms / 1000` rounded toward zero, as Rust's integer division does.
pub open spec fn trunc_div_1000(ms: i64) -> i64 {
    if ms >= 0 {
        (ms / 1000) as i64
    } else {
        (0 - ((0 - ms) / 1000)) as i64
    }
}

fn seconds_of_millis(ms: i64) -> (s: i64)
    ensures
        s == trunc_div_1000(ms),
{
    if ms >= 0 {
        ms / 1000
    } else {
        let m: u64 = ((-(ms + 1)) as u64) + 1;
        let q = m / 1000;
        -(q as i64)
    }
}

pub open spec fn decoded(t: Option<Seq<char>>) -> Option<Seq<char>> {
    match t {
        Some(x) => Some(decode_xml_spec(x)),
        None => None,
    }
}

/// The duration in seconds of an XSPF track block (its `<duration>` is in
/// milliseconds).
pub open spec fn xspf_duration(block: Seq<char>) -> Option<i64> {
    match child_text_spec(block, "duration"@) {
        Some(t) => match parse_i64_spec(t) {
            Some(ms) => Some(trunc_div_1000(ms)),
            None => None,
        },
        None => None,
    }
}

/// The track a `<track>` block describes; a block without a `<location>`
/// describes none.
#[verifier::opaque]
pub open spec fn xspf_entry(block: Seq<char>) -> Seq<TrackView> {
    match child_text_spec(block, "location"@) {
        None => seq![],
        Some(loc) => seq![
            TrackView {
                path: location_to_path_spec(decode_xml_spec(loc)),
                title: combine_title_spec(
                    decoded(child_text_spec(block, "creator"@)),
                    decoded(child_text_spec(block, "title"@)),
                ),
                duration: xspf_duration(block),
                directives: seq![],
            },
        ],
    }
}

/// The tracks of the `<track>` elements of `s` at or after position `p`.
pub open spec fn xspf_tracks_from(s: Seq<char>, p: int) -> Seq<TrackView>
    decreases s.len() + 1 - p,
{
    match element_at(s, "track"@, p) {
        None => seq![],
        Some((cs, ce, e)) => {
            proof {
                lemma_element_at_bounds(s, "track"@, p);
            }
            xspf_entry(s.subrange(cs, ce)) + xspf_tracks_from(s, e)
        },
    }
}

proof fn lemma_xspf_tracks_step(s: Seq<char>, p: int)
    ensures
        match element_at(s, "track"@, p) {
            None => xspf_tracks_from(s, p) == Seq::<TrackView>::empty(),
            Some((cs, ce, e)) => xspf_tracks_from(s, p) == xspf_entry(s.subrange(cs, ce))
                + xspf_tracks_from(s, e),
        },
{
}

/// The tracks XSPF text `input` describes.
pub open spec fn parse_xspf_spec(input: Seq<char>) -> Seq<TrackView> {
    xspf_tracks_from(input, 0)
}

fn decode_range(v: &[char], lo: usize, hi: usize) -> (r: String)
    requires
        lo <= hi <= v@.len(),
    ensures
        r@ == decode_xml_spec(v@.subrange(lo as int, hi as int)),
{
    let part = copy_range(v, lo, hi);
    decode_xml_text(&part)
}

fn xspf_track(block: &[char], loc: (usize, usize), tags: &XspfTags) -> (t: Track)
    requires
        loc.0 <= loc.1 <= block@.len(),
        tags.wf(),
        child_text_spec(block@, "location"@) == Some(block@.subrange(loc.0 as int, loc.1 as int)),
    ensures
        seq![t@] == xspf_entry(block@),
{
    reveal(xspf_entry);
    let location = decode_range(block, loc.0, loc.1);
    let location_chars = chars_of(location.as_str());
    let path = location_to_path(&location_chars);
    let creator = match child_text(block, &tags.creator) {
        Some((a, b)) => Some(decode_range(block, a, b)),
        None => None,
    };
    let title = match child_text(block, &tags.title) {
        Some((a, b)) => Some(decode_range(block, a, b)),
        None => None,
    };
    let duration = match child_text(block, &tags.duration) {
        Some((a, b)) => match parse_i64_range(block, a, b) {
            Some(ms) => Some(seconds_of_millis(ms)),
            None => None,
        },
        None => None,
    };
    let t = Track { path, title: combine_title(creator, title), duration, directives: Vec::new() };
    assert(strings_view(t.directives@) =~= Seq::<Seq<char>>::empty());
    t
}

fn push_xspf_block(tracks: &mut Vec<Track>, block: &[char], tags: &XspfTags)
    requires
        tags.wf(),
    ensures
        tracks_view(final(tracks)@) == tracks_view(old(tracks)@) + xspf_entry(block@),
{
    let ghost before = tracks_view(tracks@);
    match child_text(block, &tags.location) {
        None => {
            reveal(xspf_entry);
            assert(tracks_view(tracks@) =~= before + xspf_entry(block@));
        },
        Some(loc) => {
            let t = xspf_track(block, loc, tags);
            tracks.push(t);
            assert(xspf_entry(block@) == seq![t@]);
            assert(tracks_view(tracks@) =~= before + xspf_entry(block@));
        },
    }
}

/// The element names XSPF reading looks for.
struct XspfTags {
    track: Vec<char>,
    location: Vec<char>,
    creator: Vec<char>,
    title: Vec<char>,
    duration: Vec<char>,
}

impl XspfTags {
    closed spec fn wf(&self) -> bool {
        &&& self.track@ == "track"@
        &&& self.location@ == "location"@
        &&& self.creator@ == "creator"@
        &&& self.title@ == "title"@
        &&& self.duration@ == "duration"@
    }

    fn new() -> (t: XspfTags)
        ensures
            t.wf(),
    {
        XspfTags {
            track: chars_of("track"),
            location: chars_of("location"),
            creator: chars_of("creator"),
            title: chars_of("title"),
            duration: chars_of("duration"),
        }
    }
}

/// Parses XSPF (XML Shareable Playlist Format) text into tracks, with a
/// small scan for the handful of elements that matter rather than a general
/// XML parser. `duration` is milliseconds in XSPF and is divided down to
/// seconds; a separate `creator` and `title` are combined as
/// "Creator - Title", so a track's title means the same thing across all
/// three formats.
pub fn parse_xspf(input: &str) -> (tracks: Vec<Track>)
    ensures
        tracks_view(tracks@) == parse_xspf_spec(input@),
{
    let v = chars_of(input);
    let tags = XspfTags::new();
    let mut tracks: Vec<Track> = Vec::new();
    let mut pos: usize = 0;
    assert(tracks_view(tracks@) =~= Seq::<TrackView>::empty());
    loop
        invariant
            tags.wf(),
            v@ == input@,
            tracks_view(tracks@) + xspf_tracks_from(v@, pos as int) == xspf_tracks_from(v@, 0),
        decreases v@.len() + 1 - pos,
    {
        proof {
            lemma_element_at_bounds(v@, "track"@, pos as int);
            lemma_xspf_tracks_step(v@, pos as int);
        }
        match next_element(&v, pos, &tags.track) {
            None => {
                assert(tracks_view(tracks@) + Seq::<TrackView>::empty() =~= tracks_view(tracks@));
                return tracks;
            },
            Some((cs, ce, e)) => {
                let block = copy_range(&v, cs, ce);
                let ghost before = tracks_view(tracks@);
                push_xspf_block(&mut tracks, &block, &tags);
                assert(before + xspf_entry(block@) + xspf_tracks_from(v@, e as int) =~= before + (
                xspf_entry(block@) + xspf_tracks_from(v@, e as int)));
                pos = e;
            },
        }
    }
}

/// Whether every known non-negative duration of `ts` still fits in an `i64`
/// once written in milliseconds.
pub open spec fn durations_fit(ts: Seq<TrackView>) -> bool {
    forall|i: int| 0 <= i < ts.len() ==> duration_fits((#[trigger] ts[i]).duration)
}

/// Whether a known non-negative duration still fits in an `i64` once
/// written in milliseconds.
pub open spec fn duration_fits(d: Option<i64>) -> bool {
    match d {
        Some(x) => x < 0 || x * 1000 <= i64::MAX,
        None => true,
    }
}

pub open spec fn xspf_header() -> Seq<char> {
    "<?xml version=\"1.0\" encoding=\"UTF-8\"?>\n"@ + "<playlist version=\"1\" xmlns=\"http://xspf.org/ns/0/\">\n  <trackList>\n"@
}

pub open spec fn xspf_footer() -> Seq<char> {
    "  </trackList>\n</playlist>\n"@
}

/// The `<track>` element written for `t`: its location, its title when it
/// has one, and its duration in milliseconds when that is known and not
/// negative.
pub open spec fn xspf_entry_text(t: TrackView) -> Seq<char> {
    "    <track>\n"@ + "      <location>"@ + escape_xml_spec(path_to_location_spec(t.path))
        + "</location>\n"@ + match t.title {
        Some(x) => "      <title>"@ + escape_xml_spec(x) + "</title>\n"@,
        None => seq![],
    } + match t.duration {
        Some(d) => if d >= 0 {
            "      <duration>"@ + dec_int(d * 1000) + "</duration>\n"@
        } else {
            seq![]
        },
        None => seq![],
    } + "    </track>\n"@
}

pub open spec fn xspf_entries(ts: Seq<TrackView>) -> Seq<char>
    decreases ts.len(),
{
    if ts.len() == 0 {
        seq![]
    } else {
        xspf_entries(ts.drop_last()) + xspf_entry_text(ts.last())
    }
}

/// The XSPF text written for `ts`.
pub open spec fn write_xspf_spec(ts: Seq<TrackView>) -> Seq<char> {
    xspf_header() + xspf_entries(ts) + xspf_footer()
}

fn push_xspf_entry(out: &mut String, t: &Track)
    requires
        duration_fits(t@.duration),
    ensures
        final(out)@ == old(out)@ + xspf_entry_text(t@),
{
    out.append("    <track>\n");
    out.append("      <location>");
    let location = path_to_location(t.path.as_str());
    let lv = chars_of(location.as_str());
    push_escaped(out, &lv);
    out.append("</location>\n");
    match &t.title {
        Some(title) => {
            out.append("      <title>");
            let tv = chars_of(title.as_str());
            push_escaped(out, &tv);
            out.append("</title>\n");
        },
        None => {},
    }
    match t.duration {
        Some(d) => {
            if d >= 0 {
                out.append("      <duration>");
                push_dec_i64(out, d * 1000);
                out.append("</duration>\n");
            }
        },
        None => {},
    }
    out.append("    </track>\n");
    assert(out@ =~= old(out)@ + xspf_entry_text(t@));
}

/// Writes tracks out as XSPF. A `<duration>` is only emitted for a genuine
/// non-negative value, since XSPF defines duration as a non-negative
/// integer; the -1 "unknown" sentinel is dropped. No separate `<creator>` is
/// written, since a combined "Creator - Title" cannot be reliably split.
pub fn write_xspf(tracks: &[Track]) -> (out: String)
    requires
        durations_fit(tracks_view(tracks@)),
    ensures
        out@ == write_xspf_spec(tracks_view(tracks@)),
{
    let mut out = String::new();
    out.append("<?xml version=\"1.0\" encoding=\"UTF-8\"?>\n");
    out.append("<playlist version=\"1\" xmlns=\"http://xspf.org/ns/0/\">\n  <trackList>\n");
    assert(out@ =~= xspf_header() + xspf_entries(tracks_view(tracks@).take(0)));
    let mut i: usize = 0;
    while i < tracks.len()
        invariant
            0 <= i <= tracks@.len(),
            durations_fit(tracks_view(tracks@)),
            out@ == xspf_header() + xspf_entries(tracks_view(tracks@).take(i as int)),
        decreases tracks@.len() - i,
    {
        assert(tracks_view(tracks@)[i as int] == tracks@[i as int]@);
        push_xspf_entry(&mut out, &tracks[i]);
        assert(tracks_view(tracks@).take(i + 1).drop_last() =~= tracks_view(tracks@).take(i as int));
        assert(out@ =~= xspf_header() + xspf_entries(tracks_view(tracks@).take(i + 1)));
        i = i + 1;
    }
    assert(tracks_view(tracks@).take(i as int) =~= tracks_view(tracks@));
    out.append("  </trackList>\n</playlist>\n");
    assert(out@ =~= write_xspf_spec(tracks_view(tracks@)));
    out
}

} // verus!
