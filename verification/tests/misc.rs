use playlist_bridge::cli::{parse_args, USAGE};
use playlist_bridge::playlist::{decode_playlist_bytes, dir_of, is_absolute_like, is_url, Format};
use playlist_bridge::xspf::{decode_xml_text, percent_decode};
use std::path::PathBuf;

fn args(strs: &[&str]) -> Vec<String> {
    strs.iter().map(|s| s.to_string()).collect()
}

fn chars(s: &str) -> Vec<char> {
    s.chars().collect()
}

#[test]
fn formats_from_paths() {
    assert_eq!(Format::from_path("a.M3U"), Some(Format::M3u));
    assert_eq!(Format::from_path("dir/list.m3u8"), Some(Format::M3u));
    assert_eq!(Format::from_path("x.PLS"), Some(Format::Pls));
    assert_eq!(Format::from_path("/abs/list.XsPf"), Some(Format::Xspf));
    assert_eq!(Format::from_path("archive.tar.pls"), Some(Format::Pls));
    assert_eq!(Format::from_path("dir.m3u/"), Some(Format::M3u));
    assert_eq!(Format::from_path("noext"), None);
    assert_eq!(Format::from_path(".m3u"), None);
    assert_eq!(Format::from_path("a."), None);
    assert_eq!(Format::from_path("a.txt"), None);
    assert_eq!(Format::from_path("music.pls/file"), None);
    assert_eq!(Format::from_path("dir/.."), None);
    assert_eq!(Format::from_path("/"), None);
    assert_eq!(Format::from_path(""), None);
}

#[test]
fn formats_from_names() {
    assert_eq!(Format::from_name("m3u"), Some(Format::M3u));
    assert_eq!(Format::from_name("M3u8"), Some(Format::M3u));
    assert_eq!(Format::from_name("PLS"), Some(Format::Pls));
    assert_eq!(Format::from_name("xspf"), Some(Format::Xspf));
    assert_eq!(Format::from_name(".m3u"), None);
    assert_eq!(Format::from_name("m3u "), None);
    assert_eq!(Format::from_name(""), None);
}

#[test]
fn parse_args_error_messages() {
    assert_eq!(parse_args(&args(&[])), Err(USAGE.to_string()));
    assert_eq!(parse_args(&args(&["a", "b", "c"])), Err(USAGE.to_string()));
    assert_eq!(parse_args(&args(&["a", "b", "--from"])), Err("--from requires a value".to_string()));
    assert_eq!(parse_args(&args(&["--to"])), Err("--to requires a value".to_string()));
    assert_eq!(parse_args(&args(&["--from", "ogg", "a", "b"])), Err("unknown format: ogg".to_string()));
    assert_eq!(parse_args(&args(&["a", "b", "--to", "wav"])), Err("unknown format: wav".to_string()));
    // A bad --from is reported before a bad --to, and a wrong count first.
    assert_eq!(parse_args(&args(&["--to", "x", "--from", "y", "a", "b"])), Err("unknown format: y".to_string()));
    assert_eq!(parse_args(&args(&["--from", "y", "a"])), Err(USAGE.to_string()));
}

#[test]
fn parse_args_later_flag_wins() {
    let parsed = parse_args(&args(&["--from", "pls", "--from", "m3u", "a", "b"])).unwrap();
    assert_eq!(parsed.from, Some(Format::M3u));
    // A flag's value is taken as it is, even when it looks like a flag.
    assert_eq!(parse_args(&args(&["--from", "--to", "a", "b"])), Err("unknown format: --to".to_string()));
}

#[test]
fn decoding_bytes() {
    assert_eq!(decode_playlist_bytes(b""), "");
    assert_eq!(decode_playlist_bytes(&[0xEF, 0xBB, 0xBF]), "");
    assert_eq!(decode_playlist_bytes(&[0xEF, 0xBB, 0xBF, 0xEF, 0xBB, 0xBF]), "\u{feff}");
    assert_eq!(decode_playlist_bytes(&[0xEF, 0xBB]), "\u{ef}\u{bb}");
    assert_eq!(decode_playlist_bytes(&[0xEF, 0xBB, 0xBF, b'C', b'a', b'f', 0xE9]), "Caf\u{e9}");
    assert_eq!(decode_playlist_bytes(&[0xE2, 0x82, 0xAC]), "\u{20ac}");
    assert_eq!(decode_playlist_bytes(&[0xFF, 0x00, 0x41]), "\u{ff}\u{0}A");
}

#[test]
fn utf8_validity_decides_the_reading() {
    // Valid multi-byte UTF-8 is read as UTF-8, not byte by byte.
    assert_eq!(decode_playlist_bytes("Caf\u{e9}".as_bytes()), "Caf\u{e9}");
    // An encoded surrogate is not valid UTF-8.
    assert_eq!(decode_playlist_bytes(&[0xED, 0xA0, 0x80]), "\u{ed}\u{a0}\u{80}");
    assert_eq!(percent_decode("%ED%A0%80"), "%ED%A0%80");
    assert_eq!(percent_decode("%E2%82%AC"), "\u{20ac}");
}

#[test]
fn character_references_need_a_scalar_value() {
    assert_eq!(decode_xml_text(&chars("&#xD7FF;&#xE000;&#x10FFFF;")), "\u{d7ff}\u{e000}\u{10ffff}");
    assert_eq!(decode_xml_text(&chars("&#xDFFF;&#x110000;&#0;")), "&#xDFFF;&#x110000;\u{0}");
}

#[test]
fn urls_and_absolute_paths() {
    assert!(is_url(&chars("http://example.com/x")));
    assert!(is_url(&chars("svn+ssh://host/repo")));
    assert!(!is_url(&chars("://nothing")));
    assert!(!is_url(&chars("c:\\x://y")));
    assert!(!is_url(&chars("music/song.mp3")));
    assert!(is_absolute_like(&chars("/music/a.mp3")));
    assert!(is_absolute_like(&chars("C:\\Music\\a.mp3")));
    assert!(is_absolute_like(&chars("d:/a.mp3")));
    assert!(!is_absolute_like(&chars("C:a.mp3")));
    assert!(!is_absolute_like(&chars("1:/a.mp3")));
    assert!(!is_absolute_like(&chars("music/a.mp3")));
}

#[test]
fn dir_of_edges() {
    let dir = |p: &str| PathBuf::from(dir_of(p));
    assert_eq!(dir(""), PathBuf::from("."));
    assert_eq!(dir("/"), PathBuf::from("."));
    assert_eq!(dir("/list.m3u"), PathBuf::from("/"));
    assert_eq!(dir("./list.m3u"), PathBuf::from("."));
    assert_eq!(dir("a/../list.m3u"), PathBuf::from("a/.."));
    assert_eq!(dir("a//b/list.m3u"), PathBuf::from("a/b"));
}

#[test]
fn utf8_text_reads_back_as_itself() {
    for text in ["", "plain", "Caf\u{e9} \u{1F600} \u{20ac}", "a\u{feff}b"] {
        assert_eq!(decode_playlist_bytes(text.as_bytes()), text);
        let mut with_bom = vec![0xEF, 0xBB, 0xBF];
        with_bom.extend_from_slice(text.as_bytes());
        assert_eq!(decode_playlist_bytes(&with_bom), text);
    }
    // A text that itself starts with a byte-order mark loses it.
    assert_eq!(decode_playlist_bytes("\u{feff}abc".as_bytes()), "abc");
    assert_eq!(decode_playlist_bytes(&[0xEF, 0xBB, 0xBF, 0xEF, 0xBB, 0xBF, b'x']), "\u{feff}x");
}
