//! What reading back a written playlist gives.
use vstd::prelude::*;

use crate::num::{
    all_digits, digit_value, digits_value,
    dec_int, dec_nat, is_digit_char, lemma_dec_int_shape, lemma_dec_nat_digits, lemma_parse_dec_i64,
    lemma_parse_dec_u32, parse_i64_spec, parse_u32_spec,
};
use crate::playlist::{
    directive_lines, duration_or_unknown, ext_tag, extinf_meta, extinf_tag, extm3u_tag, m3u_entries,
    m3u_entry, m3u_run, m3u_start, m3u_step, parse_m3u_spec, title_or_empty, write_m3u_spec,
    M3uState, TrackView, count_key, file_key, increasing, length_key, lemma_increasing_unique,
    parse_pls_spec, pls_entries, pls_entry, pls_header, pls_keys, pls_run, pls_start, pls_step,
    pls_track, title_key, version_line, write_pls_spec, PlsState,
};
use crate::text::{
    ascii_lower, crlf, first_index, is_ws, joined, lacks, lemma_split_crlf, lemma_trim_push_ws,
    lower_char, with_cr, lemma_first_index_after, lemma_joined_concat, lemma_joined_one,
    lemma_split_joined, lemma_trim_unchanged, lemma_trimmed_ends, split_on, starts_with, trim,
};

verus! {

/// A non-empty text with no surrounding whitespace and no line break, which
/// a line-based reader gives back as it was written.
pub open spec fn line_text(s: Seq<char>) -> bool {
    s.len() > 0 && trim(s) == s && lacks(s, '\n')
}

/// An extended M3U directive that reads back as a directive.
pub open spec fn directive_ok(d: Seq<char>) -> bool {
    &&& line_text(d)
    &&& starts_with(d, ext_tag())
    &&& !starts_with(d, extinf_tag())
    &&& d != extm3u_tag()
}

/// A track whose M3U entry reads back as the same track: its path, title and
/// directives are single-line texts without surrounding whitespace, the
/// path does not start with `#`, the title is not empty, and every
/// directive is an `#EXT` directive other than `#EXTINF:` and `#EXTM3U`.
pub open spec fn m3u_writable(t: TrackView) -> bool {
    &&& line_text(t.path)
    &&& t.path[0] != '#'
    &&& match t.title {
        Some(x) => line_text(x),
        None => true,
    }
    &&& forall|i: int| 0 <= i < t.directives.len() ==> directive_ok(#[trigger] t.directives[i])
}

/// `t` with an unknown duration made the explicit -1 a writer emits.
pub open spec fn with_known_duration(t: TrackView) -> TrackView {
    TrackView {
        path: t.path,
        title: t.title,
        duration: Some(duration_or_unknown(t.duration)),
        directives: t.directives,
    }
}

pub open spec fn extinf_line(t: TrackView) -> Seq<char> {
    extinf_tag() + dec_int(duration_or_unknown(t.duration) as int) + seq![','] + title_or_empty(
        t.title,
    )
}

pub open spec fn entry_lines(t: TrackView) -> Seq<Seq<char>> {
    seq![extinf_line(t)] + t.directives + seq![t.path]
}

pub open spec fn m3u_lines(ts: Seq<TrackView>) -> Seq<Seq<char>>
    decreases ts.len(),
{
    if ts.len() == 0 {
        seq![]
    } else {
        m3u_lines(ts.drop_last()) + entry_lines(ts.last())
    }
}

/// A reader state with no pending metadata or directives.
pub open spec fn settled(tracks: Seq<TrackView>) -> M3uState {
    M3uState { tracks: tracks, meta: None, directives: seq![] }
}

proof fn lemma_directive_lines(ds: Seq<Seq<char>>)
    ensures
        directive_lines(ds) == joined(ds),
    decreases ds.len(),
{
    if ds.len() > 0 {
        lemma_directive_lines(ds.drop_last());
        lemma_joined_concat(ds.drop_last(), seq![ds.last()]);
        lemma_joined_one(ds.last());
        assert(ds.drop_last() + seq![ds.last()] =~= ds);
    } else {
        assert(joined(ds) =~= Seq::<char>::empty());
    }
}

proof fn lemma_entry_joined(t: TrackView)
    ensures
        m3u_entry(t) == joined(entry_lines(t)),
{
    lemma_directive_lines(t.directives);
    lemma_joined_concat(seq![extinf_line(t)], t.directives);
    lemma_joined_concat(seq![extinf_line(t)] + t.directives, seq![t.path]);
    lemma_joined_one(extinf_line(t));
    lemma_joined_one(t.path);
    assert(m3u_entry(t) =~= joined(entry_lines(t)));
}

proof fn lemma_entries_joined(ts: Seq<TrackView>)
    ensures
        m3u_entries(ts) == joined(m3u_lines(ts)),
    decreases ts.len(),
{
    if ts.len() > 0 {
        lemma_entries_joined(ts.drop_last());
        lemma_entry_joined(ts.last());
        lemma_joined_concat(m3u_lines(ts.drop_last()), entry_lines(ts.last()));
    } else {
        assert(joined(m3u_lines(ts)) =~= Seq::<char>::empty());
    }
}

proof fn lemma_m3u_run_concat(st: M3uState, a: Seq<Seq<char>>, b: Seq<Seq<char>>)
    ensures
        m3u_run(st, a + b) == m3u_run(m3u_run(st, a), b),
    decreases a.len(),
{
    if a.len() == 0 {
        assert(a + b =~= b);
    } else {
        assert((a + b).drop_first() =~= a.drop_first() + b);
        lemma_m3u_run_concat(m3u_step(st, a[0]), a.drop_first(), b);
    }
}

proof fn lemma_m3u_run_one(st: M3uState, l: Seq<char>)
    ensures
        m3u_run(st, seq![l]) == m3u_step(st, l),
{
    assert(seq![l].drop_first() =~= Seq::<Seq<char>>::empty());
    assert(m3u_run(m3u_step(st, l), Seq::<Seq<char>>::empty()) == m3u_step(st, l));
}

proof fn lemma_no_hash_start(p: Seq<char>)
    requires
        p.len() > 0,
        p[0] != '#',
    ensures
        !starts_with(p, extinf_tag()),
        !starts_with(p, ext_tag()),
        p != extm3u_tag(),
{
    if starts_with(p, extinf_tag()) {
        assert(p.take(8)[0] == '#');
    }
    if starts_with(p, ext_tag()) {
        assert(p.take(4)[0] == '#');
    }
}

/// Reading the directives `ds` only collects them.
proof fn lemma_run_directives(st: M3uState, ds: Seq<Seq<char>>)
    requires
        forall|i: int| 0 <= i < ds.len() ==> directive_ok(#[trigger] ds[i]),
    ensures
        m3u_run(st, ds) == (M3uState {
            tracks: st.tracks,
            meta: st.meta,
            directives: st.directives + ds,
        }),
    decreases ds.len(),
{
    if ds.len() == 0 {
        assert(st.directives + ds =~= st.directives);
    } else {
        let d = ds[0];
        assert(directive_ok(d));
        assert(trim(d) == d);
        let next = M3uState { tracks: st.tracks, meta: st.meta, directives: st.directives.push(d) };
        assert(m3u_step(st, d) == next);
        let rest = ds.drop_first();
        assert forall|i: int| 0 <= i < rest.len() implies directive_ok(#[trigger] rest[i]) by {
            assert(rest[i] == ds[i + 1]);
        }
        lemma_run_directives(next, rest);
        assert(st.directives.push(d) + rest =~= st.directives + ds);
    }
}

/// Reading the `#EXTINF:` line written for `t` records its duration and
/// title.
proof fn lemma_extinf_step(st: M3uState, t: TrackView)
    requires
        m3u_writable(t),
    ensures
        m3u_step(st, extinf_line(t)) == (M3uState {
            tracks: st.tracks,
            meta: Some((Some(duration_or_unknown(t.duration)), t.title)),
            directives: st.directives,
        }),
{
    let d = duration_or_unknown(t.duration);
    let num = dec_int(d as int);
    let title = title_or_empty(t.title);
    let line = extinf_line(t);
    let rest = num + seq![','] + title;
    lemma_dec_int_shape(d as int);
    assert(lacks(num, ',')) by {
        assert forall|i: int| 0 <= i < num.len() implies num[i] != ',' by {
            if i > 0 {
                assert(is_digit_char(num[i]));
            }
        }
    }
    assert(!is_ws(num[0]));
    assert(!is_ws(num.last()));
    lemma_trim_unchanged(num);
    lemma_parse_dec_i64(d);
    if title.len() > 0 {
        lemma_trimmed_ends(title);
    }
    lemma_trim_unchanged(title);
    assert(line =~= extinf_tag() + rest);
    assert(line[0] == '#');
    assert(!is_ws(line.last())) by {
        if title.len() > 0 {
            assert(line.last() == title.last());
        } else {
            assert(line.last() == ',');
        }
    }
    lemma_trim_unchanged(line);
    assert(line.take(8) =~= extinf_tag());
    assert(line.skip(8) =~= rest);
    lemma_first_index_after(num, ',', title);
    assert(extinf_meta(rest) == (Some(d), t.title));
}

/// Reading the lines written for `t`, from a settled state, adds the track
/// with its duration made explicit.
proof fn lemma_entry_run(tracks: Seq<TrackView>, t: TrackView)
    requires
        m3u_writable(t),
    ensures
        m3u_run(settled(tracks), entry_lines(t)) == settled(tracks.push(with_known_duration(t))),
{
    let st0 = settled(tracks);
    let meta = Some((Some(duration_or_unknown(t.duration)), t.title));
    let st1 = M3uState { tracks: tracks, meta: meta, directives: seq![] };
    lemma_extinf_step(st0, t);
    lemma_m3u_run_concat(st0, seq![extinf_line(t)], t.directives);
    lemma_m3u_run_concat(st0, seq![extinf_line(t)] + t.directives, seq![t.path]);
    lemma_m3u_run_one(st0, extinf_line(t));
    lemma_run_directives(st1, t.directives);
    let st2 = M3uState { tracks: tracks, meta: meta, directives: t.directives };
    assert(Seq::<Seq<char>>::empty() + t.directives =~= t.directives);
    let p = t.path;
    lemma_m3u_run_one(st2, p);
    lemma_no_hash_start(p);
    assert(trim(p) == p);
    assert(m3u_step(st2, p) =~= settled(tracks.push(with_known_duration(t))));
}

proof fn lemma_lines_run(tracks: Seq<TrackView>, ts: Seq<TrackView>)
    requires
        forall|i: int| 0 <= i < ts.len() ==> m3u_writable(#[trigger] ts[i]),
    ensures
        m3u_run(settled(tracks), m3u_lines(ts)) == settled(
            tracks + ts.map_values(|t: TrackView| with_known_duration(t)),
        ),
    decreases ts.len(),
{
    if ts.len() == 0 {
        assert(tracks + ts.map_values(|t: TrackView| with_known_duration(t)) =~= tracks);
    } else {
        let init = ts.drop_last();
        assert forall|i: int| 0 <= i < init.len() implies m3u_writable(#[trigger] init[i]) by {
            assert(init[i] == ts[i]);
        }
        lemma_lines_run(tracks, init);
        lemma_m3u_run_concat(settled(tracks), m3u_lines(init), entry_lines(ts.last()));
        let mid = tracks + init.map_values(|t: TrackView| with_known_duration(t));
        assert(m3u_writable(ts[ts.len() - 1]));
        lemma_entry_run(mid, ts.last());
        assert(mid.push(with_known_duration(ts.last())) =~= tracks + ts.map_values(
            |t: TrackView| with_known_duration(t),
        ));
    }
}

proof fn lemma_lines_lack_newline(ts: Seq<TrackView>)
    requires
        forall|i: int| 0 <= i < ts.len() ==> m3u_writable(#[trigger] ts[i]),
    ensures
        forall|i: int| 0 <= i < m3u_lines(ts).len() ==> lacks(#[trigger] m3u_lines(ts)[i], '\n'),
    decreases ts.len(),
{
    if ts.len() > 0 {
        let init = ts.drop_last();
        assert forall|i: int| 0 <= i < init.len() implies m3u_writable(#[trigger] init[i]) by {
            assert(init[i] == ts[i]);
        }
        lemma_lines_lack_newline(init);
        let t = ts.last();
        assert(m3u_writable(ts[ts.len() - 1]));
        let ls = entry_lines(t);
        assert forall|i: int| 0 <= i < ls.len() implies lacks(#[trigger] ls[i], '\n') by {
            if i == 0 {
                let d = duration_or_unknown(t.duration);
                lemma_dec_int_shape(d as int);
                let l = extinf_line(t);
                let num = dec_int(d as int);
                assert forall|j: int| 0 <= j < l.len() implies l[j] != '\n' by {
                    if 8 <= j < 8 + num.len() {
                        assert(l[j] == num[j - 8]);
                        if j > 8 {
                            assert(is_digit_char(num[j - 8]));
                        }
                    } else if j >= 9 + num.len() {
                        assert(l[j] == title_or_empty(t.title)[j - 9 - num.len()]);
                    }
                }
            } else if i < ls.len() - 1 {
                assert(ls[i] == t.directives[i - 1]);
                assert(directive_ok(t.directives[i - 1]));
            }
        }
        let all = m3u_lines(ts);
        assert forall|i: int| 0 <= i < all.len() implies lacks(#[trigger] all[i], '\n') by {
            if i < m3u_lines(init).len() {
                assert(all[i] == m3u_lines(init)[i]);
            } else {
                assert(all[i] == ls[i - m3u_lines(init).len()]);
            }
        }
    }
}

/// Reading back what `write_m3u` wrote gives the same tracks, directives
/// included, with an unknown duration read back as the -1 that was written
/// for it; this holds for every track list whose texts are single lines
/// without surrounding whitespace, whose titles are not empty, whose paths
/// do not start with `#`, and whose directives are `#EXT` directives other
/// than `#EXTINF:` and `#EXTM3U`.
pub proof fn law_m3u_round_trip(ts: Seq<TrackView>)
    requires
        forall|i: int| 0 <= i < ts.len() ==> m3u_writable(#[trigger] ts[i]),
    ensures
        parse_m3u_spec(write_m3u_spec(ts)) == ts.map_values(|t: TrackView| with_known_duration(t)),
{
    let header = extm3u_tag();
    let lines = seq![header] + m3u_lines(ts);
    lemma_entries_joined(ts);
    lemma_joined_concat(seq![header], m3u_lines(ts));
    lemma_joined_one(header);
    assert(write_m3u_spec(ts) =~= joined(lines));
    lemma_lines_lack_newline(ts);
    assert forall|i: int| 0 <= i < lines.len() implies lacks(#[trigger] lines[i], '\n') by {
        if i > 0 {
            assert(lines[i] == m3u_lines(ts)[i - 1]);
        }
    }
    lemma_split_joined(lines);
    assert(lines.push(seq![]) =~= seq![header] + m3u_lines(ts) + seq![Seq::<char>::empty()]);
    lemma_m3u_run_concat(m3u_start(), seq![header] + m3u_lines(ts), seq![Seq::<char>::empty()]);
    lemma_m3u_run_concat(m3u_start(), seq![header], m3u_lines(ts));
    lemma_m3u_run_one(m3u_start(), header);
    lemma_trim_unchanged(header);
    assert(m3u_start() == settled(seq![]));
    assert(m3u_step(m3u_start(), header) == m3u_start());
    lemma_lines_run(seq![], ts);
    let fin = settled(Seq::<TrackView>::empty() + ts.map_values(|t: TrackView| with_known_duration(t)));
    lemma_m3u_run_one(fin, Seq::<char>::empty());
    lemma_trim_unchanged(Seq::<char>::empty());
    assert(Seq::<TrackView>::empty() + ts.map_values(|t: TrackView| with_known_duration(t)) =~= ts.map_values(
        |t: TrackView| with_known_duration(t),
    ));
}

// ---------------------------------------------------------------------------
// PLS
// ---------------------------------------------------------------------------

/// A track whose PLS entry reads back as the same track, directives aside:
/// its path and title are single lines without surrounding whitespace, and
/// its title is not empty.
pub open spec fn pls_writable(t: TrackView) -> bool {
    &&& trim(t.path) == t.path
    &&& lacks(t.path, '\n')
    &&& match t.title {
        Some(x) => line_text(x),
        None => true,
    }
}

/// `t` as PLS carries it: no directives, and an unknown duration made the
/// explicit -1 a writer emits.
pub open spec fn pls_reread(t: TrackView) -> TrackView {
    TrackView {
        path: t.path,
        title: t.title,
        duration: Some(duration_or_unknown(t.duration)),
        directives: seq![],
    }
}

pub open spec fn key_line(name: Seq<char>, n: nat, value: Seq<char>) -> Seq<char> {
    name + dec_nat(n) + seq!['='] + value
}

pub open spec fn file_name_key() -> Seq<char> {
    seq!['F', 'i', 'l', 'e']
}

pub open spec fn title_name_key() -> Seq<char> {
    seq!['T', 'i', 't', 'l', 'e']
}

pub open spec fn length_name_key() -> Seq<char> {
    seq!['L', 'e', 'n', 'g', 't', 'h']
}

pub open spec fn pls_entry_lines(n: nat, t: TrackView) -> Seq<Seq<char>> {
    seq![key_line(file_name_key(), n, t.path)] + match t.title {
        Some(x) => seq![key_line(title_name_key(), n, x)],
        None => seq![],
    } + seq![key_line(length_name_key(), n, dec_int(duration_or_unknown(t.duration) as int))]
}

pub open spec fn pls_lines(ts: Seq<TrackView>) -> Seq<Seq<char>>
    decreases ts.len(),
{
    if ts.len() == 0 {
        seq![]
    } else {
        pls_lines(ts.drop_last()) + pls_entry_lines(ts.len(), ts.last())
    }
}

/// The reader's state after the entries written for `ts`.
pub open spec fn written_state(ts: Seq<TrackView>) -> PlsState
    decreases ts.len(),
{
    if ts.len() == 0 {
        pls_start()
    } else {
        let st = written_state(ts.drop_last());
        let n = ts.len() as u32;
        let t = ts.last();
        PlsState {
            files: st.files.insert(n, t.path),
            titles: match t.title {
                Some(x) => st.titles.insert(n, x),
                None => st.titles,
            },
            lengths: st.lengths.insert(n, duration_or_unknown(t.duration)),
        }
    }
}

proof fn lemma_pls_run_concat(st: PlsState, a: Seq<Seq<char>>, b: Seq<Seq<char>>)
    ensures
        pls_run(st, a + b) == pls_run(pls_run(st, a), b),
    decreases a.len(),
{
    if a.len() == 0 {
        assert(a + b =~= b);
    } else {
        assert((a + b).drop_first() =~= a.drop_first() + b);
        lemma_pls_run_concat(pls_step(st, a[0]), a.drop_first(), b);
    }
}

proof fn lemma_pls_run_one(st: PlsState, l: Seq<char>)
    ensures
        pls_run(st, seq![l]) == pls_step(st, l),
{
    assert(seq![l].drop_first() =~= Seq::<Seq<char>>::empty());
    assert(pls_run(pls_step(st, l), Seq::<Seq<char>>::empty()) == pls_step(st, l));
}

/// A letter key followed by a number, `=` and a value reads as the
/// lower-cased key and the value.
proof fn lemma_key_line_parts(name: Seq<char>, n: nat, value: Seq<char>)
    requires
        name.len() > 0,
        forall|i: int| 0 <= i < name.len() ==> ('A' <= #[trigger] name[i] <= 'Z' || 'a' <= name[i] <= 'z'),
        trim(value) == value,
    ensures
        ({
            let line = key_line(name, n, value);
            let i = first_index(line, '=');
            &&& trim(line) == line
            &&& line.len() > 0
            &&& line[0] != '['
            &&& i < line.len()
            &&& ascii_lower(trim(line.take(i))) == ascii_lower(name) + dec_nat(n)
            &&& trim(line.skip(i + 1)) == value
        }),
{
    let num = dec_nat(n);
    lemma_dec_nat_digits(n);
    lemma_dec_int_shape(n as int);
    assert(dec_int(n as int) == num);
    let k = name + num;
    let line = key_line(name, n, value);
    assert(line =~= k + seq!['='] + value);
    assert(lacks(k, '=')) by {
        assert forall|i: int| 0 <= i < k.len() implies k[i] != '=' by {
            if i < name.len() {
                assert(k[i] == name[i]);
            } else {
                assert(k[i] == num[i - name.len()]);
                if i > name.len() {
                    assert(is_digit_char(num[i - name.len()]));
                }
            }
        }
    }
    lemma_first_index_after(k, '=', value);
    assert(k[0] == name[0]);
    assert(k.last() == num.last());
    lemma_trim_unchanged(k);
    if value.len() > 0 {
        lemma_trimmed_ends(value);
        assert(line.last() == value.last());
    } else {
        assert(line.last() == '=');
    }
    assert(line[0] == name[0]);
    lemma_trim_unchanged(line);
    assert(ascii_lower(k) =~= ascii_lower(name) + num) by {
        assert forall|i: int| 0 <= i < num.len() implies lower_char(#[trigger] num[i]) == num[i] by {
            if i > 0 {
                assert(is_digit_char(num[i]));
            }
        }
        assert forall|i: int| 0 <= i < k.len() implies #[trigger] ascii_lower(k)[i] == (ascii_lower(name) + num)[i] by {
            if i >= name.len() {
                assert(k[i] == num[i - name.len()]);
            }
        }
    }
}

proof fn lemma_lowered_keys()
    ensures
        ascii_lower(file_name_key()) == file_key(),
        ascii_lower(title_name_key()) == title_key(),
        ascii_lower(length_name_key()) == length_key(),
{
    assert(ascii_lower(file_name_key()) =~= file_key());
    assert(ascii_lower(title_name_key()) =~= title_key());
    assert(ascii_lower(length_name_key()) =~= length_key());
}

proof fn lemma_file_line(st: PlsState, n: nat, p: Seq<char>)
    requires
        1 <= n <= 0xffff_ffff,
        trim(p) == p,
    ensures
        pls_step(st, key_line(file_name_key(), n, p)) == (PlsState {
            files: st.files.insert(n as u32, p),
            titles: st.titles,
            lengths: st.lengths,
        }),
{
    lemma_key_line_parts(file_name_key(), n, p);
    lemma_lowered_keys();
    lemma_parse_dec_u32(n);
    let key = file_key() + dec_nat(n);
    assert(starts_with(key, file_key())) by {
        assert(key.take(4) =~= file_key());
    }
    assert(key.skip(4) =~= dec_nat(n));
}

proof fn lemma_title_line(st: PlsState, n: nat, x: Seq<char>)
    requires
        1 <= n <= 0xffff_ffff,
        line_text(x),
    ensures
        pls_step(st, key_line(title_name_key(), n, x)) == (PlsState {
            files: st.files,
            titles: st.titles.insert(n as u32, x),
            lengths: st.lengths,
        }),
{
    lemma_key_line_parts(title_name_key(), n, x);
    lemma_lowered_keys();
    lemma_parse_dec_u32(n);
    let key = title_key() + dec_nat(n);
    assert(!starts_with(key, file_key())) by {
        assert(key[0] == 't');
        if starts_with(key, file_key()) {
            assert(key.take(4)[0] == 'f');
        }
    }
    assert(starts_with(key, title_key())) by {
        assert(key.take(5) =~= title_key());
    }
    assert(key.skip(5) =~= dec_nat(n));
}

proof fn lemma_length_line(st: PlsState, n: nat, d: i64)
    requires
        1 <= n <= 0xffff_ffff,
    ensures
        pls_step(st, key_line(length_name_key(), n, dec_int(d as int))) == (PlsState {
            files: st.files,
            titles: st.titles,
            lengths: st.lengths.insert(n as u32, d),
        }),
{
    let v = dec_int(d as int);
    lemma_dec_int_shape(d as int);
    lemma_trim_unchanged(v);
    lemma_key_line_parts(length_name_key(), n, v);
    lemma_lowered_keys();
    lemma_parse_dec_u32(n);
    lemma_parse_dec_i64(d);
    let key = length_key() + dec_nat(n);
    assert(!starts_with(key, file_key())) by {
        assert(key[0] == 'l');
        if starts_with(key, file_key()) {
            assert(key.take(4)[0] == 'f');
        }
    }
    assert(!starts_with(key, title_key())) by {
        if starts_with(key, title_key()) {
            assert(key.take(5)[0] == 't');
        }
    }
    assert(starts_with(key, length_key())) by {
        assert(key.take(6) =~= length_key());
    }
    assert(key.skip(6) =~= dec_nat(n));
}

proof fn lemma_pls_entry_run(ts: Seq<TrackView>)
    requires
        ts.len() > 0,
        ts.len() <= 0xffff_ffff,
        pls_writable(ts.last()),
    ensures
        pls_run(written_state(ts.drop_last()), pls_entry_lines(ts.len(), ts.last())) == written_state(ts),
{
    let n = ts.len();
    let t = ts.last();
    let st0 = written_state(ts.drop_last());
    let fl = key_line(file_name_key(), n, t.path);
    let ll = key_line(length_name_key(), n, dec_int(duration_or_unknown(t.duration) as int));
    let mid = match t.title {
        Some(x) => seq![key_line(title_name_key(), n, x)],
        None => Seq::<Seq<char>>::empty(),
    };
    lemma_pls_run_concat(st0, seq![fl], mid);
    lemma_pls_run_concat(st0, seq![fl] + mid, seq![ll]);
    lemma_pls_run_one(st0, fl);
    lemma_file_line(st0, n, t.path);
    let st1 = pls_step(st0, fl);
    let st2 = pls_run(st1, mid);
    match t.title {
        Some(x) => {
            lemma_pls_run_one(st1, key_line(title_name_key(), n, x));
            lemma_title_line(st1, n, x);
        },
        None => {},
    }
    lemma_pls_run_one(st2, ll);
    lemma_length_line(st2, n, duration_or_unknown(t.duration));
}

proof fn lemma_pls_lines_run(ts: Seq<TrackView>)
    requires
        ts.len() <= 0xffff_ffff,
        forall|i: int| 0 <= i < ts.len() ==> pls_writable(#[trigger] ts[i]),
    ensures
        pls_run(pls_start(), pls_lines(ts)) == written_state(ts),
    decreases ts.len(),
{
    if ts.len() > 0 {
        let init = ts.drop_last();
        assert forall|i: int| 0 <= i < init.len() implies pls_writable(#[trigger] init[i]) by {
            assert(init[i] == ts[i]);
        }
        lemma_pls_lines_run(init);
        lemma_pls_run_concat(pls_start(), pls_lines(init), pls_entry_lines(ts.len(), ts.last()));
        assert(pls_writable(ts[ts.len() - 1]));
        lemma_pls_entry_run(ts);
    }
}

proof fn lemma_pls_entry_joined(n: nat, t: TrackView)
    ensures
        pls_entry(n, t) == joined(pls_entry_lines(n, t)),
{
    let fl = key_line(file_name_key(), n, t.path);
    let ll = key_line(length_name_key(), n, dec_int(duration_or_unknown(t.duration) as int));
    let mid = match t.title {
        Some(x) => seq![key_line(title_name_key(), n, x)],
        None => Seq::<Seq<char>>::empty(),
    };
    lemma_joined_concat(seq![fl], mid);
    lemma_joined_concat(seq![fl] + mid, seq![ll]);
    lemma_joined_one(fl);
    lemma_joined_one(ll);
    match t.title {
        Some(x) => {
            lemma_joined_one(key_line(title_name_key(), n, x));
        },
        None => {
            assert(joined(mid) =~= Seq::<char>::empty());
        },
    }
    assert(pls_entry(n, t) =~= joined(pls_entry_lines(n, t)));
}

proof fn lemma_pls_entries_joined(ts: Seq<TrackView>)
    ensures
        pls_entries(ts) == joined(pls_lines(ts)),
    decreases ts.len(),
{
    if ts.len() > 0 {
        lemma_pls_entries_joined(ts.drop_last());
        lemma_pls_entry_joined(ts.len(), ts.last());
        lemma_joined_concat(pls_lines(ts.drop_last()), pls_entry_lines(ts.len(), ts.last()));
    } else {
        assert(joined(pls_lines(ts)) =~= Seq::<char>::empty());
    }
}

proof fn lemma_key_line_lacks(name: Seq<char>, n: nat, value: Seq<char>)
    requires
        lacks(name, '\n'),
        lacks(value, '\n'),
    ensures
        lacks(key_line(name, n, value), '\n'),
{
    lemma_dec_nat_digits(n);
    lemma_dec_int_shape(n as int);
    assert(dec_int(n as int) == dec_nat(n));
    let l = key_line(name, n, value);
    let num = dec_nat(n);
    assert forall|j: int| 0 <= j < l.len() implies l[j] != '\n' by {
        if j < name.len() {
            assert(l[j] == name[j]);
        } else if j < name.len() + num.len() {
            assert(l[j] == num[j - name.len()]);
            if j > name.len() {
                assert(is_digit_char(num[j - name.len()]));
            }
        } else if j > name.len() + num.len() {
            assert(l[j] == value[j - name.len() - num.len() - 1]);
        }
    }
}

proof fn lemma_pls_lines_lack_newline(ts: Seq<TrackView>)
    requires
        forall|i: int| 0 <= i < ts.len() ==> pls_writable(#[trigger] ts[i]),
    ensures
        forall|i: int| 0 <= i < pls_lines(ts).len() ==> lacks(#[trigger] pls_lines(ts)[i], '\n'),
    decreases ts.len(),
{
    if ts.len() > 0 {
        let init = ts.drop_last();
        assert forall|i: int| 0 <= i < init.len() implies pls_writable(#[trigger] init[i]) by {
            assert(init[i] == ts[i]);
        }
        lemma_pls_lines_lack_newline(init);
        let t = ts.last();
        let n = ts.len();
        assert(pls_writable(ts[ts.len() - 1]));
        let d = dec_int(duration_or_unknown(t.duration) as int);
        lemma_dec_int_shape(duration_or_unknown(t.duration) as int);
        assert(lacks(d, '\n')) by {
            assert forall|j: int| 0 <= j < d.len() implies d[j] != '\n' by {
                if j > 0 {
                    assert(is_digit_char(d[j]));
                }
            }
        }
        assert(lacks(file_name_key(), '\n'));
        assert(lacks(title_name_key(), '\n'));
        assert(lacks(length_name_key(), '\n'));
        lemma_key_line_lacks(file_name_key(), n, t.path);
        lemma_key_line_lacks(length_name_key(), n, d);
        match t.title {
            Some(x) => {
                lemma_key_line_lacks(title_name_key(), n, x);
            },
            None => {},
        }
        let ls = pls_entry_lines(n, t);
        let all = pls_lines(ts);
        assert forall|i: int| 0 <= i < all.len() implies lacks(#[trigger] all[i], '\n') by {
            if i < pls_lines(init).len() {
                assert(all[i] == pls_lines(init)[i]);
            } else {
                assert(all[i] == ls[i - pls_lines(init).len()]);
            }
        }
    }
}

proof fn lemma_written_state(ts: Seq<TrackView>)
    requires
        ts.len() <= 0xffff_ffff,
    ensures
        ({
            let st = written_state(ts);
            &&& forall|k: u32| #[trigger] st.files.contains_key(k) <==> 1 <= k <= ts.len()
            &&& forall|k: u32| #[trigger] st.titles.contains_key(k) ==> 1 <= k <= ts.len()
            &&& forall|k: u32| #[trigger] st.lengths.contains_key(k) ==> 1 <= k <= ts.len()
            &&& forall|j: int|
                0 <= j < ts.len() ==> #[trigger] pls_track(st, (j + 1) as u32) == pls_reread(ts[j])
        }),
    decreases ts.len(),
{
    if ts.len() > 0 {
        let init = ts.drop_last();
        lemma_written_state(init);
        let st = written_state(ts);
        let n = ts.len() as u32;
        assert forall|j: int| 0 <= j < ts.len() implies #[trigger] pls_track(st, (j + 1) as u32)
            == pls_reread(ts[j]) by {
            if j < init.len() {
                assert(pls_track(written_state(init), (j + 1) as u32) == pls_reread(init[j]));
                assert(init[j] == ts[j]);
                assert(pls_track(st, (j + 1) as u32) =~= pls_track(written_state(init), (j + 1) as u32));
            } else {
                assert((j + 1) as u32 == n);
                assert(!written_state(init).titles.contains_key(n));
                assert(pls_track(st, (j + 1) as u32) =~= pls_reread(ts[j]));
            }
        }
    }
}

/// The count, version and final empty lines change nothing.
proof fn lemma_pls_tail(st: PlsState, m: nat)
    ensures
        pls_run(
            st,
            seq![
                count_key() + dec_nat(m),
                seq!['V', 'e', 'r', 's', 'i', 'o', 'n', '=', '2'],
                Seq::<char>::empty(),
            ],
        ) == st,
{
    let count = count_key() + dec_nat(m);
    let version = seq!['V', 'e', 'r', 's', 'i', 'o', 'n', '=', '2'];
    let tail = seq![count, version, Seq::<char>::empty()];
    lemma_dec_nat_digits(m);
    lemma_dec_int_shape(m as int);
    assert(dec_int(m as int) == dec_nat(m));
    assert(!is_ws(count.last())) by {
        assert(count.last() == dec_nat(m).last());
    }
        lemma_trim_unchanged(count);
        lemma_trim_unchanged(version);
        lemma_trim_unchanged(Seq::<char>::empty());
        let ck = seq!['N', 'u', 'm', 'b', 'e', 'r', 'O', 'f', 'E', 'n', 't', 'r', 'i', 'e', 's'];
        assert(count =~= ck + seq!['='] + dec_nat(m));
        assert(lacks(ck, '='));
        lemma_first_index_after(ck, '=', dec_nat(m));
        lemma_trim_unchanged(ck);
        let lk = ascii_lower(ck);
        assert(lk[0] == 'n');
        assert(!starts_with(lk, file_key())) by {
            if starts_with(lk, file_key()) {
                assert(lk.take(4)[0] == 'f');
            }
        }
        assert(!starts_with(lk, title_key())) by {
            if starts_with(lk, title_key()) {
                assert(lk.take(5)[0] == 't');
            }
        }
        assert(!starts_with(lk, length_key())) by {
            if starts_with(lk, length_key()) {
                assert(lk.take(6)[0] == 'l');
            }
        }
        assert(pls_step(st, count) == st);
        let vk = seq!['V', 'e', 'r', 's', 'i', 'o', 'n'];
        assert(version =~= vk + seq!['='] + seq!['2']);
        assert(lacks(vk, '='));
        lemma_first_index_after(vk, '=', seq!['2']);
        lemma_trim_unchanged(vk);
        let lv = ascii_lower(vk);
        assert(lv[0] == 'v');
        assert(!starts_with(lv, file_key())) by {
            if starts_with(lv, file_key()) {
                assert(lv.take(4)[0] == 'f');
            }
        }
        assert(!starts_with(lv, title_key())) by {
            if starts_with(lv, title_key()) {
                assert(lv.take(5)[0] == 't');
            }
        }
        assert(!starts_with(lv, length_key())) by {
            if starts_with(lv, length_key()) {
                assert(lv.take(6)[0] == 'l');
            }
        }
        assert(pls_step(st, version) == st);
        assert(pls_step(st, Seq::<char>::empty()) == st);
        assert(tail.drop_first() =~= seq![version, Seq::<char>::empty()]);
        assert(seq![version, Seq::<char>::empty()].drop_first() =~= seq![Seq::<char>::empty()]);
        lemma_pls_run_one(st, Seq::<char>::empty());
    
    assert(pls_run(st, tail) == pls_run(pls_step(st, count), tail.drop_first()));
    assert(pls_run(st, tail.drop_first()) == pls_run(pls_step(st, version), seq![Seq::<char>::empty()]));
}

/// Reading back what `write_pls` wrote gives the same tracks in the same
/// order, without directives (PLS has none) and with an unknown duration read
/// back as the -1 that was written for it; this holds for every list of at
/// most `u32::MAX` tracks whose paths and titles are single lines without
/// surrounding whitespace and whose titles are not empty.
pub proof fn law_pls_round_trip(ts: Seq<TrackView>)
    requires
        ts.len() <= 0xffff_ffff,
        forall|i: int| 0 <= i < ts.len() ==> pls_writable(#[trigger] ts[i]),
    ensures
        parse_pls_spec(write_pls_spec(ts)) == ts.map_values(|t: TrackView| pls_reread(t)),
{
    let count = count_key() + dec_nat(ts.len());
    let version = seq!['V', 'e', 'r', 's', 'i', 'o', 'n', '=', '2'];
    let header = seq!['[', 'p', 'l', 'a', 'y', 'l', 'i', 's', 't', ']'];
    let lines = seq![header] + pls_lines(ts) + seq![count, version];
    lemma_pls_entries_joined(ts);
    lemma_joined_concat(seq![header], pls_lines(ts));
    lemma_joined_concat(seq![header] + pls_lines(ts), seq![count, version]);
    lemma_joined_one(header);
    assert(joined(seq![count, version]) =~= count + seq!['\n'] + version + seq!['\n']) by {
        assert(seq![count, version].drop_first() =~= seq![version]);
        lemma_joined_one(version);
    }
    assert(write_pls_spec(ts) =~= joined(lines));
    lemma_pls_lines_lack_newline(ts);
    lemma_dec_nat_digits(ts.len());
    lemma_dec_int_shape(ts.len() as int);
    assert(dec_int(ts.len() as int) == dec_nat(ts.len()));
    assert forall|i: int| 0 <= i < lines.len() implies lacks(#[trigger] lines[i], '\n') by {
        if 0 < i < lines.len() - 2 {
            assert(lines[i] == pls_lines(ts)[i - 1]);
        } else if i == lines.len() - 2 {
            assert(lines[i] == count);
            assert forall|j: int| 0 <= j < count.len() implies count[j] != '\n' by {
                if j > 16 {
                    assert(is_digit_char(dec_nat(ts.len())[j - 16]));
                }
            }
        }
    }
    lemma_split_joined(lines);
    let tail = seq![count, version, Seq::<char>::empty()];
    assert(lines.push(seq![]) =~= seq![header] + pls_lines(ts) + tail);
    lemma_pls_run_concat(pls_start(), seq![header] + pls_lines(ts), tail);
    lemma_pls_run_concat(pls_start(), seq![header], pls_lines(ts));
    lemma_pls_run_one(pls_start(), header);
    lemma_trim_unchanged(header);
    assert(pls_step(pls_start(), header) == pls_start());
    lemma_pls_lines_run(ts);
    let st = written_state(ts);
    lemma_pls_tail(st, ts.len());
    // The entries are read back in index order.
    lemma_written_state(ts);
    let ks = Seq::new(ts.len(), |i: int| (i + 1) as u32);
    assert(increasing(ks));
    assert(ks.to_set() =~= st.files.dom()) by {
        assert forall|k: u32| st.files.dom().contains(k) implies ks.to_set().contains(k) by {
            assert(ks[k - 1] == k);
        }
    }
    assert(increasing(pls_keys(st)) && pls_keys(st).to_set() == st.files.dom());
    lemma_increasing_unique(ks, pls_keys(st));
    let got = ks.map_values(|k: u32| pls_track(st, k));
    assert(got =~= ts.map_values(|t: TrackView| pls_reread(t))) by {
        assert forall|i: int| 0 <= i < ts.len() implies #[trigger] got[i] == pls_reread(ts[i]) by {
            assert(pls_track(st, (i + 1) as u32) == pls_reread(ts[i]));
        }
    }
}

// ---------------------------------------------------------------------------
// Converting between the two formats
// ---------------------------------------------------------------------------

/// Converting a playlist from M3U to PLS, or from PLS to M3U, and back keeps
/// every track in order with its path, title and duration; only the M3U
/// directives, which PLS has no place for, are lost, and an unknown duration
/// comes back as the -1 that was written for it. This holds for every list
/// of at most `u32::MAX` tracks that M3U writes back as they are.
pub proof fn law_m3u_pls_conversion(ts: Seq<TrackView>)
    requires
        ts.len() <= 0xffff_ffff,
        forall|i: int| 0 <= i < ts.len() ==> m3u_writable(#[trigger] ts[i]),
    ensures
        parse_m3u_spec(write_m3u_spec(parse_pls_spec(write_pls_spec(ts)))) == ts.map_values(
            |t: TrackView| pls_reread(t),
        ),
        parse_pls_spec(write_pls_spec(parse_m3u_spec(write_m3u_spec(ts)))) == ts.map_values(
            |t: TrackView| pls_reread(t),
        ),
{
    let reread = ts.map_values(|t: TrackView| pls_reread(t));
    let known = ts.map_values(|t: TrackView| with_known_duration(t));
    assert forall|i: int| 0 <= i < ts.len() implies pls_writable(#[trigger] ts[i]) by {
        assert(m3u_writable(ts[i]));
    }
    assert forall|i: int| 0 <= i < reread.len() implies m3u_writable(#[trigger] reread[i]) by {
        assert(m3u_writable(ts[i]));
        assert(reread[i].directives.len() == 0);
    }
    assert forall|i: int| 0 <= i < known.len() implies pls_writable(#[trigger] known[i]) by {
        assert(m3u_writable(ts[i]));
    }
    law_pls_round_trip(ts);
    law_m3u_round_trip(reread);
    assert(reread.map_values(|t: TrackView| with_known_duration(t)) =~= reread);
    law_m3u_round_trip(ts);
    law_pls_round_trip(known);
    assert(known.map_values(|t: TrackView| pls_reread(t)) =~= reread);
}

// ---------------------------------------------------------------------------
// The order of PLS lines
// ---------------------------------------------------------------------------

/// The value of a PLS line `key=value`.
pub open spec fn pls_value(raw: Seq<char>) -> Seq<char> {
    let line = trim(raw);
    trim(line.skip(first_index(line, '=') + 1))
}

/// The entry a PLS line sets, as its field (0 for `FileN`, 1 for `TitleN`,
/// 2 for `LengthN`) and its index `N`; none for a line that sets nothing.
pub open spec fn pls_sets(raw: Seq<char>) -> Option<(int, u32)> {
    let line = trim(raw);
    let i = first_index(line, '=');
    if line.len() == 0 || line[0] == '[' || i >= line.len() {
        None
    } else {
        let key = ascii_lower(trim(line.take(i)));
        let value = trim(line.skip(i + 1));
        if starts_with(key, file_key()) && parse_u32_spec(key.skip(4)) is Some {
            Some((0int, parse_u32_spec(key.skip(4)).unwrap()))
        } else if starts_with(key, title_key()) && parse_u32_spec(key.skip(5)) is Some {
            if value.len() > 0 {
                Some((1int, parse_u32_spec(key.skip(5)).unwrap()))
            } else {
                None
            }
        } else if starts_with(key, length_key()) && parse_u32_spec(key.skip(6)) is Some {
            if parse_i64_spec(value) is Some {
                Some((2int, parse_u32_spec(key.skip(6)).unwrap()))
            } else {
                None
            }
        } else {
            None
        }
    }
}

proof fn lemma_pls_step_sets(st: PlsState, raw: Seq<char>)
    ensures
        pls_step(st, raw) == match pls_sets(raw) {
            None => st,
            Some((f, k)) => if f == 0 {
                PlsState {
                    files: st.files.insert(k, pls_value(raw)),
                    titles: st.titles,
                    lengths: st.lengths,
                }
            } else if f == 1 {
                PlsState {
                    files: st.files,
                    titles: st.titles.insert(k, pls_value(raw)),
                    lengths: st.lengths,
                }
            } else {
                PlsState {
                    files: st.files,
                    titles: st.titles,
                    lengths: st.lengths.insert(k, parse_i64_spec(pls_value(raw)).unwrap()),
                }
            },
        },
{
}

proof fn lemma_pls_steps_commute(st: PlsState, a: Seq<char>, b: Seq<char>)
    requires
        !(pls_sets(a) is Some && pls_sets(a) == pls_sets(b)),
    ensures
        pls_step(pls_step(st, a), b) == pls_step(pls_step(st, b), a),
{
    let sa = pls_step(st, a);
    let sb = pls_step(st, b);
    lemma_pls_step_sets(st, a);
    lemma_pls_step_sets(st, b);
    lemma_pls_step_sets(sa, b);
    lemma_pls_step_sets(sb, a);
    let x = pls_step(sa, b);
    let y = pls_step(sb, a);
    assert(x.files =~= y.files);
    assert(x.titles =~= y.titles);
    assert(x.lengths =~= y.lengths);
}

/// PLS lines can come in any order: swapping two neighbouring lines gives
/// the same tracks, unless both set the same entry (then the later one
/// wins).
pub proof fn law_pls_line_order(
    before: Seq<Seq<char>>,
    a: Seq<char>,
    b: Seq<char>,
    after: Seq<Seq<char>>,
)
    requires
        forall|i: int| 0 <= i < before.len() ==> lacks(#[trigger] before[i], '\n'),
        forall|i: int| 0 <= i < after.len() ==> lacks(#[trigger] after[i], '\n'),
        lacks(a, '\n'),
        lacks(b, '\n'),
        !(pls_sets(a) is Some && pls_sets(a) == pls_sets(b)),
    ensures
        parse_pls_spec(joined(before + seq![a, b] + after)) == parse_pls_spec(
            joined(before + seq![b, a] + after),
        ),
{
    let l1 = before + seq![a, b] + after;
    let l2 = before + seq![b, a] + after;
    assert forall|i: int| 0 <= i < l1.len() implies lacks(#[trigger] l1[i], '\n') by {
        if i >= before.len() + 2 {
            assert(l1[i] == after[i - before.len() - 2]);
        }
    }
    assert forall|i: int| 0 <= i < l2.len() implies lacks(#[trigger] l2[i], '\n') by {
        if i >= before.len() + 2 {
            assert(l2[i] == after[i - before.len() - 2]);
        }
    }
    lemma_split_joined(l1);
    lemma_split_joined(l2);
    let rest = after.push(seq![]);
    assert(l1.push(seq![]) =~= before + (seq![a, b] + rest));
    assert(l2.push(seq![]) =~= before + (seq![b, a] + rest));
    let s0 = pls_run(pls_start(), before);
    lemma_pls_run_concat(pls_start(), before, seq![a, b] + rest);
    lemma_pls_run_concat(pls_start(), before, seq![b, a] + rest);
    lemma_pls_run_concat(s0, seq![a, b], rest);
    lemma_pls_run_concat(s0, seq![b, a], rest);
    assert(seq![a, b] =~= seq![a] + seq![b]);
    assert(seq![b, a] =~= seq![b] + seq![a]);
    lemma_pls_run_concat(s0, seq![a], seq![b]);
    lemma_pls_run_concat(s0, seq![b], seq![a]);
    lemma_pls_run_one(s0, a);
    lemma_pls_run_one(s0, b);
    lemma_pls_run_one(pls_step(s0, a), b);
    lemma_pls_run_one(pls_step(s0, b), a);
    lemma_pls_steps_commute(s0, a, b);
}

// ---------------------------------------------------------------------------
// M3U comments
// ---------------------------------------------------------------------------

/// A plain comment line: after trimming, not empty, starting with `#` but
/// not with `#EXT`.
pub open spec fn m3u_comment(l: Seq<char>) -> bool {
    let line = trim(l);
    line.len() > 0 && line[0] == '#' && !starts_with(line, ext_tag())
}

proof fn lemma_m3u_comment_step(st: M3uState, l: Seq<char>)
    requires
        m3u_comment(l),
    ensures
        m3u_step(st, l) == st,
{
    let line = trim(l);
    assert(!starts_with(line, extinf_tag())) by {
        if starts_with(line, extinf_tag()) {
            assert(line.take(4) =~= line.take(8).take(4));
            assert(extinf_tag().take(4) =~= ext_tag());
        }
    }
    assert(line != extm3u_tag()) by {
        if line == extm3u_tag() {
            assert(line.take(4) =~= ext_tag());
        }
    }
}

/// A plain comment line (one starting with `#` but not `#EXT`) changes
/// nothing: taking it out of M3U text, wherever it stands, gives the same
/// tracks, with the same directives.
pub proof fn law_m3u_comment_ignored(before: Seq<Seq<char>>, c: Seq<char>, after: Seq<Seq<char>>)
    requires
        forall|i: int| 0 <= i < before.len() ==> lacks(#[trigger] before[i], '\n'),
        forall|i: int| 0 <= i < after.len() ==> lacks(#[trigger] after[i], '\n'),
        lacks(c, '\n'),
        m3u_comment(c),
    ensures
        parse_m3u_spec(joined(before + seq![c] + after)) == parse_m3u_spec(joined(before + after)),
{
    let l1 = before + seq![c] + after;
    let l2 = before + after;
    assert forall|i: int| 0 <= i < l1.len() implies lacks(#[trigger] l1[i], '\n') by {
        if i >= before.len() + 1 {
            assert(l1[i] == after[i - before.len() - 1]);
        }
    }
    assert forall|i: int| 0 <= i < l2.len() implies lacks(#[trigger] l2[i], '\n') by {
        if i >= before.len() {
            assert(l2[i] == after[i - before.len()]);
        }
    }
    lemma_split_joined(l1);
    lemma_split_joined(l2);
    let rest = after.push(seq![]);
    assert(l1.push(seq![]) =~= before + (seq![c] + rest));
    assert(l2.push(seq![]) =~= before + rest);
    let s0 = m3u_run(m3u_start(), before);
    lemma_m3u_run_concat(m3u_start(), before, seq![c] + rest);
    lemma_m3u_run_concat(m3u_start(), before, rest);
    lemma_m3u_run_concat(s0, seq![c], rest);
    lemma_m3u_run_one(s0, c);
    lemma_m3u_comment_step(s0, c);
}

// ---------------------------------------------------------------------------
// The PLS entry count
// ---------------------------------------------------------------------------

/// The `NumberOfEntries=` line `write_pls` writes, just before its closing
/// `Version=2` line, holds in decimal digits exactly the number of tracks.
pub proof fn law_pls_count_line(ts: Seq<TrackView>)
    ensures
        exists|pre: Seq<char>, x: Seq<char>|
            {
                &&& write_pls_spec(ts) == pre + seq![
                    'N',
                    'u',
                    'm',
                    'b',
                    'e',
                    'r',
                    'O',
                    'f',
                    'E',
                    'n',
                    't',
                    'r',
                    'i',
                    'e',
                    's',
                    '=',
                ] + x + seq!['\n', 'V', 'e', 'r', 's', 'i', 'o', 'n', '=', '2', '\n']
                &&& x.len() > 0
                &&& all_digits(x, 10)
                &&& digits_value(x, 10) == ts.len()
            },
        ts.len() <= 0xffff_ffff ==> exists|pre: Seq<char>, x: Seq<char>|
            {
                &&& write_pls_spec(ts) == pre + count_key() + x + seq!['\n'] + version_line()
                &&& parse_u32_spec(x) == Some(ts.len() as u32)
            },
{
    let pre = pls_header() + pls_entries(ts);
    let x = dec_nat(ts.len());
    lemma_dec_nat_digits(ts.len());
    assert(write_pls_spec(ts) =~= pre + count_key() + x + seq!['\n'] + version_line());
    assert(count_key() =~= seq![
        'N',
        'u',
        'm',
        'b',
        'e',
        'r',
        'O',
        'f',
        'E',
        'n',
        't',
        'r',
        'i',
        'e',
        's',
        '=',
    ]);
    assert(seq!['\n'] + version_line() =~= seq!['\n', 'V', 'e', 'r', 's', 'i', 'o', 'n', '=', '2', '\n']);
    assert(write_pls_spec(ts) == pre + count_key() + x + (seq!['\n'] + version_line()));
    if ts.len() <= 0xffff_ffff {
        assert(x.len() == 0 || x[0] != '+') by {
            if x.len() > 0 {
                assert(digit_value(x[0], 10) is Some);
            }
        }
        assert(parse_u32_spec(x) == Some(ts.len() as u32));
    }
}

// ---------------------------------------------------------------------------
// Line endings
// ---------------------------------------------------------------------------

proof fn lemma_m3u_run_cr(st: M3uState, ls: Seq<Seq<char>>)
    ensures
        m3u_run(st, with_cr(ls)) == m3u_run(st, ls),
    decreases ls.len(),
{
    if ls.len() == 1 {
        assert(with_cr(ls) =~= ls);
    } else if ls.len() > 1 {
        let w = with_cr(ls);
        lemma_trim_push_ws(ls[0], '\r');
        assert(w[0] == ls[0].push('\r'));
        assert(m3u_step(st, w[0]) == m3u_step(st, ls[0]));
        assert(w.drop_first() =~= with_cr(ls.drop_first()));
        lemma_m3u_run_cr(m3u_step(st, ls[0]), ls.drop_first());
    } else {
        assert(with_cr(ls) =~= ls);
    }
}

proof fn lemma_pls_run_cr(st: PlsState, ls: Seq<Seq<char>>)
    ensures
        pls_run(st, with_cr(ls)) == pls_run(st, ls),
    decreases ls.len(),
{
    if ls.len() == 1 {
        assert(with_cr(ls) =~= ls);
    } else if ls.len() > 1 {
        let w = with_cr(ls);
        lemma_trim_push_ws(ls[0], '\r');
        assert(w[0] == ls[0].push('\r'));
        assert(pls_step(st, w[0]) == pls_step(st, ls[0]));
        assert(w.drop_first() =~= with_cr(ls.drop_first()));
        lemma_pls_run_cr(pls_step(st, ls[0]), ls.drop_first());
    } else {
        assert(with_cr(ls) =~= ls);
    }
}

/// M3U text with Windows line endings reads exactly as the same text with
/// Unix line endings.
pub proof fn law_m3u_crlf(s: Seq<char>)
    ensures
        parse_m3u_spec(crlf(s)) == parse_m3u_spec(s),
{
    lemma_split_crlf(s);
    lemma_m3u_run_cr(m3u_start(), split_on(s, '\n'));
}

/// PLS text with Windows line endings reads exactly as the same text with
/// Unix line endings.
pub proof fn law_pls_crlf(s: Seq<char>)
    ensures
        parse_pls_spec(crlf(s)) == parse_pls_spec(s),
{
    lemma_split_crlf(s);
    lemma_pls_run_cr(pls_start(), split_on(s, '\n'));
}

} // verus!
