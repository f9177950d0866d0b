use shotsort::clock::Moment;
use shotsort::datesrc::{
    exif_capture, exif_capture_key, extract, parse_exif_dt, parse_subsec_ms, read_head, read_whole,
    video_capture, MvhdSearch,
};
use shotsort::types::{CaptureKey, FileKind};

fn at(hour: u32, minute: u32, second: u32) -> Moment {
    Moment {
        year: 2026,
        month: 7,
        day: 13,
        hour,
        minute,
        second,
        nano: 0,
    }
}

/// A minimal little-endian TIFF with a camera make, and an EXIF directory with
/// the original time and its fraction.
fn tiff(dt: &str, subsec: &str) -> Vec<u8> {
    let mut t: Vec<u8> = Vec::new();
    t.extend_from_slice(b"II");
    t.extend_from_slice(&0x2Au16.to_le_bytes());
    t.extend_from_slice(&8u32.to_le_bytes());
    // The first directory: make, and the pointer to the EXIF directory.
    t.extend_from_slice(&2u16.to_le_bytes());
    t.extend_from_slice(&0x010Fu16.to_le_bytes());
    t.extend_from_slice(&2u16.to_le_bytes());
    t.extend_from_slice(&4u32.to_le_bytes());
    t.extend_from_slice(b"ABC\0");
    t.extend_from_slice(&0x8769u16.to_le_bytes());
    t.extend_from_slice(&4u16.to_le_bytes());
    t.extend_from_slice(&1u32.to_le_bytes());
    t.extend_from_slice(&38u32.to_le_bytes());
    t.extend_from_slice(&0u32.to_le_bytes());
    assert_eq!(t.len(), 38);
    // The EXIF directory.
    t.extend_from_slice(&2u16.to_le_bytes());
    t.extend_from_slice(&0x9003u16.to_le_bytes());
    t.extend_from_slice(&2u16.to_le_bytes());
    t.extend_from_slice(&20u32.to_le_bytes());
    t.extend_from_slice(&68u32.to_le_bytes());
    t.extend_from_slice(&0x9291u16.to_le_bytes());
    t.extend_from_slice(&2u16.to_le_bytes());
    t.extend_from_slice(&4u32.to_le_bytes());
    let mut inline = [0u8; 4];
    inline[..subsec.len()].copy_from_slice(subsec.as_bytes());
    t.extend_from_slice(&inline);
    t.extend_from_slice(&0u32.to_le_bytes());
    assert_eq!(t.len(), 68);
    t.extend_from_slice(dt.as_bytes());
    t.push(0);
    t
}

fn atom(kind: &[u8; 4], body: &[u8]) -> Vec<u8> {
    let mut v = Vec::new();
    v.extend_from_slice(&((body.len() + 8) as u32).to_be_bytes());
    v.extend_from_slice(kind);
    v.extend_from_slice(body);
    v
}

fn mvhd_body(version: u8, time: u64) -> Vec<u8> {
    let mut v = vec![version, 0, 0, 0];
    if version == 1 {
        v.extend_from_slice(&time.to_be_bytes());
    } else {
        v.extend_from_slice(&(time as u32).to_be_bytes());
    }
    v.extend_from_slice(&[0u8; 16]);
    v
}

fn creation(file: &[u8]) -> Option<i64> {
    let mut s = MvhdSearch::new(file.len() as u64);
    let mut rounds = 0;
    while let Some((at, len)) = s.need() {
        rounds += 1;
        assert!(rounds < 1000);
        let (at, len) = (at as usize, len as usize);
        if at + len <= file.len() {
            s.give(Some(file[at..at + len].to_vec()));
        } else {
            s.give(None);
        }
    }
    s.result()
}

#[test]
fn subsec_normalizes_to_milliseconds() {
    assert_eq!(parse_subsec_ms("851"), 851); // already ms
    assert_eq!(parse_subsec_ms("221"), 221);
    assert_eq!(parse_subsec_ms("85"), 850); // centiseconds -> ms
    assert_eq!(parse_subsec_ms("8"), 800); // deciseconds -> ms
    assert_eq!(parse_subsec_ms("8510"), 851); // excess digits dropped
    assert_eq!(parse_subsec_ms(""), 0);
    assert_eq!(parse_subsec_ms("  "), 0);
    assert_eq!(parse_subsec_ms("12 "), 120); // trailing junk after digits
}

#[test]
fn exif_dates_are_wall_clock() {
    assert_eq!(parse_exif_dt("2026:07:13 17:00:05"), Some(at(17, 0, 5)));
    assert_eq!(parse_exif_dt("  2026:07:13 17:00:05 "), Some(at(17, 0, 5)));
    assert_eq!(parse_exif_dt("0000:00:00 00:00:00"), None);
    assert_eq!(parse_exif_dt("    "), None);
    assert_eq!(parse_exif_dt("yesterday"), None);
    assert_eq!(parse_exif_dt("2026-07-13 17:00:05"), None);
}

#[test]
fn image_metadata_is_read() {
    let bytes = tiff("2026:07:13 17:00:05", "451");
    let meta = read_head(&bytes).expect("has a capture time");
    let info = exif_capture(&meta);
    assert_eq!(info.datetime, Some(at(17, 0, 5)));
    assert_eq!(info.make.as_deref(), Some("ABC"));
    assert_eq!(info.model, None);
    assert_eq!(
        exif_capture_key(&meta),
        Some(CaptureKey {
            dt: at(17, 0, 5),
            subsec_ms: 451
        })
    );
    let info = extract(FileKind::Raw, Some(meta), None, None);
    assert_eq!(info.datetime, Some(at(17, 0, 5)));
    assert_eq!(info.make.as_deref(), Some("ABC"));
}

#[test]
fn an_unset_date_sends_the_reader_to_the_whole_file() {
    let bytes = tiff("0000:00:00 00:00:00", "451");
    assert!(read_head(&bytes).is_none());
    let meta = read_whole(&bytes).expect("has attributes");
    assert_eq!(exif_capture(&meta).datetime, None);
    assert_eq!(exif_capture(&meta).make.as_deref(), Some("ABC"));
    assert_eq!(exif_capture_key(&meta), None);
}

#[test]
fn bytes_that_are_no_image_have_no_metadata() {
    let junk = b"noexif".to_vec();
    assert!(read_head(&junk).is_none());
    assert!(read_whole(&junk).is_none());
    let info = extract(FileKind::Jpeg, None, None, None);
    assert_eq!(info.datetime, None);
    assert_eq!(info.make, None);
}

#[test]
fn movie_time_is_found_below_moov() {
    // 2026-06-20 00:00:00 UTC is 1781913600.
    let raw = 1781913600u64 + 2082844800;
    let mut file = atom(b"ftyp", b"isom");
    file.extend(atom(b"moov", &atom(b"mvhd", &mvhd_body(0, raw))));
    assert_eq!(creation(&file), Some(1781913600));
    let mut long = atom(b"free", &[0; 5]);
    long.extend(atom(b"moov", &atom(b"mvhd", &mvhd_body(1, raw))));
    assert_eq!(creation(&long), Some(1781913600));
}

#[test]
fn movie_time_edge_cases() {
    assert_eq!(creation(b""), None);
    assert_eq!(creation(b"1234567"), None);
    // An unset time.
    assert_eq!(creation(&atom(b"moov", &atom(b"mvhd", &mvhd_body(0, 0)))), None);
    // The search goes on behind a movie box without a header.
    let mut file = atom(b"moov", &atom(b"free", &[]));
    file.extend(atom(b"moov", &atom(b"mvhd", &mvhd_body(0, 2082844801))));
    assert_eq!(creation(&file), Some(1));
    // A box that reaches beyond the end stops the search.
    let mut bad = vec![0, 0, 1, 0];
    bad.extend_from_slice(b"free");
    bad.extend(atom(b"mvhd", &mvhd_body(0, 2082844801)));
    assert_eq!(creation(&bad), None);
    // A size of zero reaches to the end.
    let inner = atom(b"mvhd", &mvhd_body(0, 2082844805));
    let mut rest = vec![0, 0, 0, 0];
    rest.extend_from_slice(b"moov");
    rest.extend(inner);
    assert_eq!(creation(&rest), Some(5));
    // A 64-bit size.
    let inner = atom(b"mvhd", &mvhd_body(0, 2082844807));
    let mut large = vec![0, 0, 0, 1];
    large.extend_from_slice(b"moov");
    large.extend_from_slice(&((inner.len() + 16) as u64).to_be_bytes());
    large.extend(inner);
    assert_eq!(creation(&large), Some(7));
}

#[test]
fn movie_boxes_are_searched_six_levels_deep() {
    let mut deep = atom(b"mvhd", &mvhd_body(0, 2082844803));
    for _ in 0..6 {
        deep = atom(b"moov", &deep);
    }
    assert_eq!(creation(&deep), Some(3));
    assert_eq!(creation(&atom(b"moov", &deep)), None);
}

#[test]
fn an_offset_pins_the_wall_clock_of_a_movie() {
    // Ten seconds before midnight UTC.
    let unix = 1781913600i64 - 10;
    let utc = video_capture(unix, Some(0)).unwrap();
    assert_eq!((utc.month, utc.day, utc.hour, utc.minute, utc.second), (6, 19, 23, 59, 50));
    let east = video_capture(unix, Some(8 * 3600)).unwrap();
    assert_eq!((east.day, east.hour, east.minute, east.second), (20, 7, 59, 50));
    let west = video_capture(unix, Some(-(5 * 3600 + 1800))).unwrap();
    assert_eq!((west.day, west.hour, west.minute), (19, 18, 29));
    assert_eq!(video_capture(i64::MAX, Some(0)), None);
    let info = extract(FileKind::Video, None, Some(unix), Some(0));
    assert_eq!(info.datetime, Some(utc));
    assert_eq!(extract(FileKind::Video, None, None, Some(0)).datetime, None);
}

#[test]
fn without_an_offset_the_clock_is_local() {
    let m = video_capture(1781913600, None).unwrap();
    // Whatever the zone, less than a day away from UTC.
    assert!(m.year == 2026 && m.month == 6 && (19..=21).contains(&m.day));
}
