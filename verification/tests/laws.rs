use playlist_bridge::playlist::{parse_m3u, parse_pls, rebase_path, write_m3u, write_pls, Track};
use playlist_bridge::xspf::{decode_xml_text, push_escaped};

fn track(path: &str, title: Option<&str>, duration: Option<i64>, directives: &[&str]) -> Track {
    Track {
        path: path.to_string(),
        title: title.map(str::to_string),
        duration,
        directives: directives.iter().map(|s| s.to_string()).collect(),
    }
}

fn chars(s: &str) -> Vec<char> {
    s.chars().collect()
}

#[test]
fn m3u_round_trip_keeps_every_field() {
    let tracks = vec![
        track("music/a.mp3", Some("Artist, Feat. X - Song"), Some(245), &["#EXTVLCOPT:network-caching=1000"]),
        track("http://stream.example.com/live", None, None, &[]),
        track("b.flac", Some("B"), Some(-1), &["#EXTGRP:Rock", "#EXTVLCOPT:start-time=10"]),
        track("c.ogg", None, Some(0), &[]),
    ];
    let back = parse_m3u(&write_m3u(&tracks));
    let expected = vec![
        track("music/a.mp3", Some("Artist, Feat. X - Song"), Some(245), &["#EXTVLCOPT:network-caching=1000"]),
        track("http://stream.example.com/live", None, Some(-1), &[]),
        track("b.flac", Some("B"), Some(-1), &["#EXTGRP:Rock", "#EXTVLCOPT:start-time=10"]),
        track("c.ogg", None, Some(0), &[]),
    ];
    assert_eq!(back, expected);
}

#[test]
fn m3u_round_trip_of_nothing_is_nothing() {
    assert_eq!(write_m3u(&[]), "#EXTM3U\n");
    assert_eq!(parse_m3u(&write_m3u(&[])), Vec::<Track>::new());
}

#[test]
fn pls_round_trip_keeps_order_and_drops_directives() {
    let tracks = vec![
        track("z.mp3", Some("Last, first"), Some(9_223_372_036_854_775_807), &["#EXTGRP:x"]),
        track("a.mp3", None, None, &[]),
        track("", Some("Empty path"), Some(-9_223_372_036_854_775_808), &[]),
    ];
    let back = parse_pls(&write_pls(&tracks));
    let expected = vec![
        track("z.mp3", Some("Last, first"), Some(9_223_372_036_854_775_807), &[]),
        track("a.mp3", None, Some(-1), &[]),
        track("", Some("Empty path"), Some(-9_223_372_036_854_775_808), &[]),
    ];
    assert_eq!(back, expected);
}

#[test]
fn crlf_reads_as_lf() {
    let lf_m3u = "#EXTM3U\n#EXTINF:10,One\n#EXTGRP:g\none.mp3\n# note\ntwo.mp3\n";
    let crlf_m3u = lf_m3u.replace('\n', "\r\n");
    assert_eq!(parse_m3u(&crlf_m3u), parse_m3u(lf_m3u));
    assert_eq!(parse_m3u(&crlf_m3u).len(), 2);

    let lf_pls = "[playlist]\nFile2=b.mp3\nfile1=a.mp3\nTitle1=A\nLength1=5\nNumberOfEntries=7\n";
    let crlf_pls = lf_pls.replace('\n', "\r\n");
    assert_eq!(parse_pls(&crlf_pls), parse_pls(lf_pls));
    assert_eq!(parse_pls(&crlf_pls), vec![track("a.mp3", Some("A"), Some(5), &[]), track("b.mp3", None, None, &[])]);
}

#[test]
fn escaped_text_decodes_back() {
    for text in ["AC&DC <live> & \"more\"", "&amp; already escaped", "&lt;", "plain", "", "a&b;c>d<e"] {
        let mut escaped = String::new();
        push_escaped(&mut escaped, &chars(text));
        assert_eq!(decode_xml_text(&chars(&escaped)), text, "text: {}", text);
    }
}

#[test]
fn escaping_replaces_exactly_three_characters() {
    let mut escaped = String::new();
    push_escaped(&mut escaped, &chars("a&b<c>d\"e'f"));
    assert_eq!(escaped, "a&amp;b&lt;c&gt;d\"e'f");
}

#[test]
fn rebased_path_reaches_the_same_file() {
    // music/road_trip.m3u -> out/road_trip.pls: "boc/roygbiv.mp3" is
    // music/boc/roygbiv.mp3, which from out/ is ../music/boc/roygbiv.mp3.
    assert_eq!(rebase_path("boc/roygbiv.mp3", "music", "out"), "../music/boc/roygbiv.mp3");
    assert_eq!(rebase_path("../shared/x.mp3", "a/b", "a"), "shared/x.mp3");
    assert_eq!(rebase_path("x.mp3", "a/./b/..", "a"), "x.mp3");
    assert_eq!(rebase_path("x.mp3", ".", "deep/er"), "../../x.mp3");
    assert_eq!(rebase_path("x.mp3", "/abs/dir", "/abs/other"), "../dir/x.mp3");
    assert_eq!(rebase_path("../../x.mp3", ".", "."), "../../x.mp3");
    assert_eq!(rebase_path("../../x.mp3", "a/b/c", "a"), "x.mp3");
    assert_eq!(rebase_path("../x.mp3", "..", "a"), "../../../x.mp3");
}

#[test]
fn rebase_without_common_footing_keeps_the_resolved_target() {
    // A relative source directory and an absolute target directory cannot
    // be related, so the resolved target is written as it is.
    assert_eq!(rebase_path("a.mp3", "music", "/out"), "music/a.mp3");
    assert_eq!(rebase_path("a.mp3", "/music", "out"), "/music/a.mp3");
}

#[test]
fn m3u_pls_conversion_keeps_tracks() {
    let tracks = vec![
        track("a.mp3", Some("Artist, Song"), Some(245), &["#EXTGRP:Rock"]),
        track("http://example.com/live", None, None, &[]),
    ];
    let expected = vec![
        track("a.mp3", Some("Artist, Song"), Some(245), &[]),
        track("http://example.com/live", None, Some(-1), &[]),
    ];
    assert_eq!(parse_m3u(&write_m3u(&parse_pls(&write_pls(&tracks)))), expected);
    assert_eq!(parse_pls(&write_pls(&parse_m3u(&write_m3u(&tracks)))), expected);
}

#[test]
fn pls_line_order_does_not_matter() {
    let a = parse_pls("[playlist]\nFile2=b.mp3\nTitle1=A\nFile1=a.mp3\nLength2=7\n");
    let b = parse_pls("[playlist]\nFile1=a.mp3\nFile2=b.mp3\nLength2=7\nTitle1=A\n");
    assert_eq!(a, b);
    assert_eq!(a, vec![track("a.mp3", Some("A"), None, &[]), track("b.mp3", None, Some(7), &[])]);
}

#[test]
fn pls_later_line_wins_for_the_same_entry() {
    assert_eq!(parse_pls("File1=a.mp3\nfile1=b.mp3\n"), vec![track("b.mp3", None, None, &[])]);
    assert_eq!(parse_pls("file1=b.mp3\nFile1=a.mp3\n"), vec![track("a.mp3", None, None, &[])]);
}
