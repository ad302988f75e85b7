//! Converting a playlist: reading it in one format, rebasing its relative
//! paths from the input's directory to the output's, and writing it in
//! another format.
use vstd::prelude::*;

use crate::resolve::{law_rebase_same_target, rebase_reaches, resolved};
use crate::playlist::{
    dir_of, dir_of_spec, duration_fits, durations_fit, format_of_path, parse_m3u, parse_m3u_spec,
    parse_pls, parse_pls_spec, parse_xspf, parse_xspf_spec, rebase_path, rebase_spec,
    tracks_view, write_m3u, write_m3u_spec, write_pls, write_pls_spec, write_xspf,
    write_xspf_spec, Format, Track, TrackView,
};

verus! {

/// The tracks text in format `f` describes.
pub open spec fn parse_spec(f: Format, s: Seq<char>) -> Seq<TrackView> {
    match f {
        Format::M3u => parse_m3u_spec(s),
        Format::Pls => parse_pls_spec(s),
        Format::Xspf => parse_xspf_spec(s),
    }
}

/// The text written for `ts` in format `f`.
pub open spec fn write_spec(f: Format, ts: Seq<TrackView>) -> Seq<char> {
    match f {
        Format::M3u => write_m3u_spec(ts),
        Format::Pls => write_pls_spec(ts),
        Format::Xspf => write_xspf_spec(ts),
    }
}

/// `t` with its path rebased from `from_dir` to `to_dir`.
pub open spec fn rebased_track(t: TrackView, from_dir: Seq<char>, to_dir: Seq<char>) -> TrackView {
    TrackView {
        path: rebase_spec(t.path, from_dir, to_dir),
        title: t.title,
        duration: t.duration,
        directives: t.directives,
    }
}

/// `ts` with every path rebased from `from_dir` to `to_dir`.
pub open spec fn rebased(ts: Seq<TrackView>, from_dir: Seq<char>, to_dir: Seq<char>) -> Seq<
    TrackView,
> {
    ts.map_values(|t: TrackView| rebased_track(t, from_dir, to_dir))
}

/// The tracks a conversion writes: those of `contents` read in format
/// `from`, rebased from the input file's directory to the output file's.
pub open spec fn converted_tracks(
    contents: Seq<char>,
    from: Format,
    input_path: Seq<char>,
    output_path: Seq<char>,
) -> Seq<TrackView> {
    rebased(parse_spec(from, contents), dir_of_spec(input_path), dir_of_spec(output_path))
}

/// Whether the tracks can be written in format `to`: XSPF writes durations
/// in milliseconds, which must fit in an `i64`.
pub open spec fn writable_as(to: Format, ts: Seq<TrackView>) -> bool {
    to == Format::Xspf ==> durations_fit(ts)
}

/// The format of one side of a conversion: the one given by a flag, else
/// the one the file's extension names.
pub fn pick_format(flag: Option<Format>, path: &str) -> (r: Option<Format>)
    ensures
        r == match flag {
            Some(f) => Some(f),
            None => format_of_path(path@),
        },
{
    match flag {
        Some(f) => Some(f),
        None => Format::from_path(path),
    }
}

/// Reads playlist text in format `from`.
pub fn read_tracks(contents: &str, from: Format) -> (tracks: Vec<Track>)
    ensures
        tracks_view(tracks@) == parse_spec(from, contents@),
{
    match from {
        Format::M3u => parse_m3u(contents),
        Format::Pls => parse_pls(contents),
        Format::Xspf => parse_xspf(contents),
    }
}

/// Writes tracks in format `to`.
pub fn write_tracks(tracks: &[Track], to: Format) -> (out: String)
    requires
        writable_as(to, tracks_view(tracks@)),
    ensures
        out@ == write_spec(to, tracks_view(tracks@)),
{
    match to {
        Format::M3u => write_m3u(tracks),
        Format::Pls => write_pls(tracks),
        Format::Xspf => write_xspf(tracks),
    }
}

/// Rebases the path of every track from `from_dir` to `to_dir`.
pub fn rebase_tracks(tracks: &mut Vec<Track>, from_dir: &str, to_dir: &str)
    ensures
        tracks_view(final(tracks)@) == rebased(tracks_view(old(tracks)@), from_dir@, to_dir@),
{
    let ghost orig = tracks_view(tracks@);
    let mut i: usize = 0;
    while i < tracks.len()
        invariant
            0 <= i <= tracks@.len(),
            tracks@.len() == orig.len(),
            forall|j: int| 0 <= j < i ==> #[trigger] tracks@[j]@ == rebased_track(
                orig[j],
                from_dir@,
                to_dir@,
            ),
            forall|j: int| i <= j < tracks@.len() ==> #[trigger] tracks@[j]@ == orig[j],
        decreases tracks@.len() - i,
    {
        let mut t = Track { path: String::new(), title: None, duration: None, directives: Vec::new() };
        tracks.set_and_swap(i, &mut t);
        assert(t@ == orig[i as int]);
        let path = rebase_path(t.path.as_str(), from_dir, to_dir);
        let mut moved = Track { path, title: t.title, duration: t.duration, directives: t.directives };
        tracks.set_and_swap(i, &mut moved);
        i = i + 1;
    }
    assert(tracks_view(tracks@) =~= rebased(orig, from_dir@, to_dir@));
}

/// Whether every known non-negative duration fits in an `i64` once written
/// in milliseconds.
pub fn durations_fit_of(tracks: &[Track]) -> (b: bool)
    ensures
        b == durations_fit(tracks_view(tracks@)),
{
    let mut i: usize = 0;
    while i < tracks.len()
        invariant
            0 <= i <= tracks@.len(),
            forall|j: int| 0 <= j < i ==> duration_fits(#[trigger] tracks@[j]@.duration),
        decreases tracks@.len() - i,
    {
        match tracks[i].duration {
            Some(d) => {
                assert(d < 0 || (d * 1000 <= i64::MAX <==> d <= 9_223_372_036_854_775))
                    by (nonlinear_arith);
                if d >= 0 && d > 9_223_372_036_854_775 {
                    assert(!duration_fits(tracks_view(tracks@)[i as int].duration));
                    return false;
                }
            },
            None => {},
        }
        i = i + 1;
    }
    assert forall|j: int| 0 <= j < tracks_view(tracks@).len() implies duration_fits(
        #[trigger] tracks_view(tracks@)[j].duration,
    ) by {
        assert(tracks_view(tracks@)[j] == tracks@[j]@);
    }
    true
}

/// Converts playlist text in format `from`, read from `input_path`, into
/// text in format `to` for `output_path`: each relative path is rebased from
/// the input file's directory to the output file's.
pub fn convert(contents: &str, from: Format, to: Format, input_path: &str, output_path: &str) -> (out:
    String)
    requires
        writable_as(to, converted_tracks(contents@, from, input_path@, output_path@)),
    ensures
        out@ == write_spec(to, converted_tracks(contents@, from, input_path@, output_path@)),
{
    let mut tracks = read_tracks(contents, from);
    let from_dir = dir_of(input_path);
    let to_dir = dir_of(output_path);
    rebase_tracks(&mut tracks, from_dir.as_str(), to_dir.as_str());
    write_tracks(tracks.as_slice(), to)
}

/// `convert` for any input: None exactly when the converted tracks cannot
/// be written in format `to` (an XSPF duration too large for milliseconds).
pub fn convert_checked(
    contents: &str,
    from: Format,
    to: Format,
    input_path: &str,
    output_path: &str,
) -> (out: Option<String>)
    ensures
        match out {
            Some(text) => writable_as(to, converted_tracks(contents@, from, input_path@, output_path@))
                && text@ == write_spec(to, converted_tracks(contents@, from, input_path@, output_path@)),
            None => !writable_as(to, converted_tracks(contents@, from, input_path@, output_path@)),
        },
{
    let mut tracks = read_tracks(contents, from);
    let from_dir = dir_of(input_path);
    let to_dir = dir_of(output_path);
    rebase_tracks(&mut tracks, from_dir.as_str(), to_dir.as_str());
    if to == Format::Xspf && !durations_fit_of(tracks.as_slice()) {
        return None;
    }
    Some(write_tracks(tracks.as_slice(), to))
}

/// A conversion keeps every track in order with its title, duration and
/// directives, and the path of each one that can still be reached (see
/// `rebase_reaches`) names, from the output file's directory, the same file
/// it named from the input file's directory.
pub proof fn law_convert_same_files(
    contents: Seq<char>,
    from: Format,
    input_path: Seq<char>,
    output_path: Seq<char>,
    i: int,
)
    requires
        0 <= i < parse_spec(from, contents).len(),
        rebase_reaches(
            parse_spec(from, contents)[i].path,
            dir_of_spec(input_path),
            dir_of_spec(output_path),
        ),
    ensures
        converted_tracks(contents, from, input_path, output_path).len() == parse_spec(
            from,
            contents,
        ).len(),
        converted_tracks(contents, from, input_path, output_path)[i].title == parse_spec(
            from,
            contents,
        )[i].title,
        converted_tracks(contents, from, input_path, output_path)[i].duration == parse_spec(
            from,
            contents,
        )[i].duration,
        converted_tracks(contents, from, input_path, output_path)[i].directives == parse_spec(
            from,
            contents,
        )[i].directives,
        resolved(
            dir_of_spec(output_path),
            converted_tracks(contents, from, input_path, output_path)[i].path,
        ) == resolved(dir_of_spec(input_path), parse_spec(from, contents)[i].path),
{
    law_rebase_same_target(
        parse_spec(from, contents)[i].path,
        dir_of_spec(input_path),
        dir_of_spec(output_path),
    );
}

} // verus!
