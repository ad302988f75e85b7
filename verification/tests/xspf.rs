use playlist_bridge::playlist::{parse_xspf, write_xspf, Track};
use playlist_bridge::xspf::{
    child_text, combine_title, decode_xml_text, location_to_path, next_element, path_to_location, percent_decode,
};

fn track(path: &str, title: Option<&str>, duration: Option<i64>) -> Track {
    Track { path: path.to_string(), title: title.map(str::to_string), duration, directives: Vec::new() }
}

fn chars(s: &str) -> Vec<char> {
    s.chars().collect()
}

fn decoded(s: &str) -> String {
    decode_xml_text(&chars(s))
}

#[test]
fn parse_xspf_reads_tracks() {
    let input = "<?xml version=\"1.0\" encoding=\"UTF-8\"?>\n\
        <playlist version=\"1\" xmlns=\"http://xspf.org/ns/0/\">\n\
          <trackList>\n\
            <track>\n\
              <location>file:///music/My%20Song.mp3</location>\n\
              <creator>AC&amp;DC</creator>\n\
              <title>Back in Black</title>\n\
              <duration>255000</duration>\n\
            </track>\n\
            <track>\n\
              <location>http://example.com/a%20b</location>\n\
              <title>  Stream  </title>\n\
            </track>\n\
            <track>\n\
              <title>No location, skipped</title>\n\
            </track>\n\
            <track id=\"4\">\n\
              <location>songs/caf%C3%A9.ogg</location>\n\
              <duration>1999</duration>\n\
              <creator/>\n\
            </track>\n\
            <track>\n\
              <location>neg.mp3</location>\n\
              <creator>Only Creator</creator>\n\
              <duration>-1500</duration>\n\
            </track>\n\
            <track>\n\
              <location>bad.mp3</location>\n\
              <duration>abc</duration>\n\
            </track>\n\
          </trackList>\n\
        </playlist>\n";
    let expected = vec![
        track("/music/My Song.mp3", Some("AC&DC - Back in Black"), Some(255)),
        track("http://example.com/a%20b", Some("Stream"), None),
        track("songs/caf\u{e9}.ogg", None, Some(1)),
        track("neg.mp3", Some("Only Creator"), Some(-1)),
        track("bad.mp3", None, None),
    ];
    assert_eq!(parse_xspf(input), expected);
}

#[test]
fn parse_xspf_of_text_without_tracks_is_empty() {
    assert_eq!(parse_xspf(""), Vec::<Track>::new());
    assert_eq!(parse_xspf("<playlist><trackList></trackList></playlist>"), Vec::<Track>::new());
    assert_eq!(parse_xspf("<track><location>a.mp3</location>"), Vec::<Track>::new());
}

#[test]
fn write_xspf_exact_text() {
    let tracks = vec![
        track("music/a & b.mp3", Some("<Live>"), Some(245)),
        track("http://example.com/stream", None, Some(-1)),
        track("c.ogg", Some("C"), None),
    ];
    let expected = "<?xml version=\"1.0\" encoding=\"UTF-8\"?>\n\
        <playlist version=\"1\" xmlns=\"http://xspf.org/ns/0/\">\n  <trackList>\n\
        \x20   <track>\n\
        \x20     <location>music/a &amp; b.mp3</location>\n\
        \x20     <title>&lt;Live&gt;</title>\n\
        \x20     <duration>245000</duration>\n\
        \x20   </track>\n\
        \x20   <track>\n\
        \x20     <location>http://example.com/stream</location>\n\
        \x20   </track>\n\
        \x20   <track>\n\
        \x20     <location>c.ogg</location>\n\
        \x20     <title>C</title>\n\
        \x20   </track>\n\
        \x20 </trackList>\n</playlist>\n";
    assert_eq!(write_xspf(&tracks), expected);
}

#[test]
fn write_xspf_keeps_a_location_that_reads_back() {
    let out = write_xspf(&[track("C:x", None, None), track("a%20b", None, None)]);
    assert!(out.contains("<location>C:x</location>"));
    assert!(out.contains("<location>a%2520b</location>"));
}

#[test]
fn write_then_parse_xspf() {
    let tracks = vec![
        track("music/a & b.mp3", Some("<Live>"), Some(245)),
        track("x.mp3", None, Some(-1)),
        track("http://h/a%20b", Some("Two\nlines &amp; more"), None),
        track("odd%zz.mp3", Some("</track>"), Some(0)),
        track("file:///music/x.mp3", None, None),
        track("a%20b:c.mp3", None, None),
        Track {
            path: "d.mp3".to_string(),
            title: None,
            duration: Some(9_223_372_036_854_775),
            directives: vec!["#EXTGRP:dropped".to_string()],
        },
    ];
    let expected = vec![
        track("music/a & b.mp3", Some("<Live>"), Some(245)),
        track("x.mp3", None, None),
        track("http://h/a%20b", Some("Two\nlines &amp; more"), None),
        track("odd%zz.mp3", Some("</track>"), Some(0)),
        track("file:///music/x.mp3", None, None),
        track("a%20b:c.mp3", None, None),
        track("d.mp3", None, Some(9_223_372_036_854_775)),
    ];
    assert_eq!(parse_xspf(&write_xspf(&tracks)), expected);
}

#[test]
fn xml_entities_decode() {
    assert_eq!(decoded("&lt;&gt;&quot;&apos;&amp;"), "<>\"'&");
    assert_eq!(decoded("&#65;&#x42;&#X43;&#+68;"), "ABCD");
    assert_eq!(decoded("caf&#233;"), "caf\u{e9}");
    assert_eq!(decoded("&#x1F600;"), "\u{1F600}");
}

#[test]
fn xml_entities_left_as_written() {
    assert_eq!(decoded("a & b"), "a & b");
    assert_eq!(decoded("&unknown;"), "&unknown;");
    assert_eq!(decoded("&#xD800;"), "&#xD800;");
    assert_eq!(decoded("&#1114112;"), "&#1114112;");
    assert_eq!(decoded("&#;&#x;&#-1;"), "&#;&#x;&#-1;");
    assert_eq!(decoded("&#99999999999;"), "&#99999999999;");
    assert_eq!(decoded("trailing &"), "trailing &");
    assert_eq!(decoded("&abcdefghijklmno;"), "&abcdefghijklmno;");
}

#[test]
fn long_entity_name_stops_the_scan() {
    // The name is cut after 11 bytes; what follows is read as plain text,
    // so a later entity still decodes.
    assert_eq!(decoded("&abcdefghijk&amp;"), "&abcdefghijk&");
    assert_eq!(decoded("&abcdefghij;"), "&abcdefghij;");
}

#[test]
fn percent_decoding() {
    assert_eq!(percent_decode("My%20Song.mp3"), "My Song.mp3");
    assert_eq!(percent_decode("caf%C3%A9"), "caf\u{e9}");
    assert_eq!(percent_decode("%41%4a%4A"), "AJJ");
    assert_eq!(percent_decode("100%"), "100%");
    assert_eq!(percent_decode("%4"), "%4");
    assert_eq!(percent_decode("%zz%20"), "%zz ");
    assert_eq!(percent_decode("%+f"), "\u{f}");
    assert_eq!(percent_decode(""), "");
}

#[test]
fn percent_decoding_to_invalid_utf8_keeps_the_input() {
    assert_eq!(percent_decode("bad%FFbyte"), "bad%FFbyte");
    assert_eq!(percent_decode("half%C3"), "half%C3");
}

#[test]
fn locations_to_paths() {
    assert_eq!(location_to_path(&chars("file:///music/a%20b.mp3")), "/music/a b.mp3");
    assert_eq!(location_to_path(&chars("file://rel/x%2Ey")), "rel/x.y");
    assert_eq!(location_to_path(&chars("http://h/a%20b")), "http://h/a%20b");
    assert_eq!(location_to_path(&chars("a%20b.mp3")), "a b.mp3");
    assert_eq!(location_to_path(&chars("://x%20y")), "://x y");
    assert_eq!(path_to_location("music/a b.mp3"), "music/a b.mp3");
}

#[test]
fn locations_read_back_as_their_paths() {
    assert_eq!(path_to_location("file://x"), "file%3A//x");
    assert_eq!(path_to_location("a%20b.mp3"), "a%2520b.mp3");
    assert_eq!(path_to_location("C:\\Music\\a.mp3"), "C:\\Music\\a.mp3");
    assert_eq!(path_to_location("C:x"), "C:x");
    assert_eq!(path_to_location("100%"), "100%");
    assert_eq!(path_to_location("odd%zz:1"), "odd%zz:1");
    assert_eq!(path_to_location("a%41:b"), "a%2541%3Ab");
    assert_eq!(path_to_location("http://h/a%20b"), "http://h/a%20b");
    for path in ["file://x", "a%20b.mp3", "C:\\Music\\a.mp3", "http://h/a%20b", "file:///abs", "100%", "caf\u{e9}:%"] {
        assert_eq!(location_to_path(&chars(&path_to_location(path))), path, "path: {}", path);
    }
}

#[test]
fn titles_combine() {
    let s = |x: &str| Some(x.to_string());
    assert_eq!(combine_title(s("Artist"), s("Song")), s("Artist - Song"));
    assert_eq!(combine_title(s("Artist"), None), s("Artist"));
    assert_eq!(combine_title(None, s("Song")), s("Song"));
    assert_eq!(combine_title(None, None), None);
}

#[test]
fn elements_are_found() {
    let text = chars("<trackList><track a=\"1\">x</track><track/></trackList>");
    // "<trackList" is not a <track> element; the first one has attributes.
    assert_eq!(next_element(&text, 0, &chars("track")), Some((24, 25, 33)));
    assert_eq!(next_element(&text, 33, &chars("track")), Some((41, 41, 41)));
    assert_eq!(next_element(&text, 41, &chars("track")), None);
    assert_eq!(next_element(&text, 0, &chars("title")), None);
}

#[test]
fn child_text_is_trimmed() {
    let block = chars("<title>  Hi there \n</title><creator>   </creator>");
    assert_eq!(child_text(&block, &chars("title")), Some((9, 17)));
    assert_eq!(child_text(&block, &chars("creator")), None);
    assert_eq!(child_text(&block, &chars("location")), None);
}
