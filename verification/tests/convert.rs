use playlist_bridge::convert::{convert, convert_checked, pick_format, read_tracks, write_tracks};
use playlist_bridge::playlist::{Format, Track};

const ROAD_TRIP: &str = "#EXTM3U\n#EXTINF:245,Boards of Canada - Roygbiv\nmusic/boc/roygbiv.mp3\n\
                         #EXTINF:-1,Live Radio\nhttp://stream.example.com/live\n";

#[test]
fn convert_m3u_to_pls_in_the_same_directory() {
    let expected = "[playlist]\nFile1=music/boc/roygbiv.mp3\nTitle1=Boards of Canada - Roygbiv\nLength1=245\n\
                    File2=http://stream.example.com/live\nTitle2=Live Radio\nLength2=-1\nNumberOfEntries=2\nVersion=2\n";
    assert_eq!(convert(ROAD_TRIP, Format::M3u, Format::Pls, "road_trip.m3u", "road_trip.pls"), expected);
}

#[test]
fn convert_rebases_into_the_output_directory() {
    let input = "#EXTM3U\n#EXTINF:245,Roygbiv\nboc/roygbiv.mp3\n#EXTINF:10,Abs\n/lib/a.mp3\n";
    let expected = "[playlist]\nFile1=../music/boc/roygbiv.mp3\nTitle1=Roygbiv\nLength1=245\n\
                    File2=/lib/a.mp3\nTitle2=Abs\nLength2=10\nNumberOfEntries=2\nVersion=2\n";
    assert_eq!(convert(input, Format::M3u, Format::Pls, "music/road_trip.m3u", "out/road_trip.pls"), expected);
}

#[test]
fn convert_pls_to_xspf_and_back() {
    let pls = "[playlist]\nFile1=a b.mp3\nTitle1=A & B\nLength1=3\n";
    let xspf = convert(pls, Format::Pls, Format::Xspf, "in.pls", "out.xspf");
    assert!(xspf.contains("<location>a b.mp3</location>"));
    assert!(xspf.contains("<title>A &amp; B</title>"));
    assert!(xspf.contains("<duration>3000</duration>"));
    let m3u = convert(&xspf, Format::Xspf, Format::M3u, "out.xspf", "back.m3u");
    assert_eq!(m3u, "#EXTM3U\n#EXTINF:3,A & B\na b.mp3\n");
}

#[test]
fn convert_checked_refuses_durations_too_large_for_xspf() {
    let pls = "[playlist]\nFile1=a.mp3\nLength1=9223372036854776\n";
    assert_eq!(convert_checked(pls, Format::Pls, Format::Xspf, "a.pls", "a.xspf"), None);
    let fits = "[playlist]\nFile1=a.mp3\nLength1=9223372036854775\n";
    let out = convert_checked(fits, Format::Pls, Format::Xspf, "a.pls", "a.xspf").unwrap();
    assert!(out.contains("<duration>9223372036854775000</duration>"));
    // Other formats take any duration.
    assert!(convert_checked(pls, Format::Pls, Format::M3u, "a.pls", "a.m3u").is_some());
}

#[test]
fn formats_are_picked_from_the_flag_first() {
    assert_eq!(pick_format(Some(Format::Pls), "list.m3u"), Some(Format::Pls));
    assert_eq!(pick_format(None, "list.m3u"), Some(Format::M3u));
    assert_eq!(pick_format(None, "list.txt"), None);
    assert_eq!(pick_format(Some(Format::Xspf), "list.txt"), Some(Format::Xspf));
}

#[test]
fn read_and_write_dispatch_on_the_format() {
    let tracks = read_tracks("File1=a.mp3\n", Format::Pls);
    assert_eq!(
        tracks,
        vec![Track { path: "a.mp3".to_string(), title: None, duration: None, directives: Vec::new() }]
    );
    assert_eq!(write_tracks(&tracks, Format::M3u), "#EXTM3U\n#EXTINF:-1,\na.mp3\n");
}
