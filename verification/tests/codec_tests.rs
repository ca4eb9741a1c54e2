use caption_engine::{CaptionEditor, FormatId, ParseError};
use caption_engine::codec::{format_timestamp, parse_timestamp};

fn chars(s: &str) -> Vec<char> {
    s.chars().collect()
}

fn string(v: &Vec<char>) -> String {
    v.iter().collect()
}

#[test]
fn timestamp_parses_reference_value() {
    assert_eq!(parse_timestamp(&chars("01:02:03,450")), Ok(3723450));
}

#[test]
fn timestamp_formats_reference_value() {
    assert_eq!(string(&format_timestamp(3723450, ',')), "01:02:03,450");
}

#[test]
fn timestamp_round_trips_across_the_range() {
    for &ms in &[0, 1, 999, 1000, 59999, 60000, 3599999, 3600000, 86399999, 2147483647] {
        let text = format_timestamp(ms, ',');
        assert_eq!(parse_timestamp(&text), Ok(ms), "at {ms}");
    }
}

#[test]
fn timestamp_accepts_dot_separator_and_padding() {
    // the fractional part is right-padded with zeros to three digits
    assert_eq!(parse_timestamp(&chars("00:00:01.5")), Ok(1500));
    // and cut to three when longer
    assert_eq!(parse_timestamp(&chars("00:00:01.23456")), Ok(1234));
    assert_eq!(parse_timestamp(&chars("  00:00:02,250  ")), Ok(2250));
    assert_eq!(parse_timestamp(&chars("00:00:03")), Ok(3000));
}

#[test]
fn timestamp_failures_name_the_field() {
    assert_eq!(parse_timestamp(&chars("0102:03,450")), Err(ParseError::Format));
    assert_eq!(parse_timestamp(&chars("aa:02:03,450")), Err(ParseError::Hours));
    assert_eq!(parse_timestamp(&chars("01:xx:03,450")), Err(ParseError::Minutes));
    assert_eq!(parse_timestamp(&chars("01:02:zz,450")), Err(ParseError::Seconds));
    assert_eq!(parse_timestamp(&chars("01:02:03,4x0")), Err(ParseError::Millis));
    assert_eq!(parse_timestamp(&chars("999999:00:00,000")), Err(ParseError::Range));
}

#[test]
fn export_format_matches_reference_layout() {
    let mut ed = CaptionEditor::new();
    ed.add_caption(0, 1000, &chars("Hello"));
    ed.add_caption(1500, 2750, &chars("two\nlines"));
    let out = ed.export_captions(FormatId::Srt).unwrap();
    assert_eq!(
        string(&out),
        "1\n00:00:00,000 --> 00:00:01,000\nHello\n\n\
         2\n00:00:01,500 --> 00:00:02,750\ntwo\nlines\n\n"
    );
}

#[test]
fn export_vtt_layout() {
    let mut ed = CaptionEditor::new();
    ed.add_caption(0, 1000, &chars("Hi"));
    let out = ed.export_captions(FormatId::Vtt).unwrap();
    assert_eq!(string(&out), "WEBVTT\n\n00:00:00.000 --> 00:00:01.000\nHi\n\n");
}

#[test]
fn export_stub_headers() {
    let ed = CaptionEditor::new();
    assert_eq!(
        string(&ed.export_captions(FormatId::Ass).unwrap()),
        "[Script Info]\n[V4+ Styles]\n[Events]\n"
    );
    assert_eq!(
        string(&ed.export_captions(FormatId::FcpXml).unwrap()),
        "<?xml version=\"1.0\" encoding=\"UTF-8\"?>\n<fcpxml version=\"1.9\">\n</fcpxml>"
    );
    assert_eq!(
        string(&ed.export_captions(FormatId::Edl).unwrap()),
        "TITLE: Caption EDL\nFCM: NON-DROP FRAME\n\n"
    );
    assert_eq!(ed.export_captions(FormatId::Json), Err(ParseError::UnsupportedFormat));
}

#[test]
fn import_parses_blocks_and_renumbers() {
    let mut ed = CaptionEditor::new();
    ed.create_caption(5);
    let doc = "1\n00:00:02,000 --> 00:00:03,000\nsecond\n\n\
               2\n00:00:00,000 --> 00:00:01,000\nfirst\n\n";
    ed.import_captions(FormatId::Srt, &chars(doc)).unwrap();
    let caps = ed.get_captions();
    assert_eq!(caps.len(), 2);
    // the import replaced the collection, re-sorted it, and renumbered from zero
    assert_eq!(string(&caps[0].text), "first");
    assert_eq!(caps[0].start_ms, 0);
    assert_eq!(string(&caps[0].id), "caption_1");
    assert_eq!(string(&caps[1].text), "second");
    assert_eq!(string(&caps[1].id), "caption_0");
    assert_eq!(ed.id_nonce(), 2);
}

#[test]
fn import_skips_thin_blocks_and_fails_hard_on_bad_timestamps() {
    let mut ed = CaptionEditor::new();
    // a block with fewer than two lines is skipped, not an error
    let doc = "lonely\n\n1\n00:00:00,000 --> 00:00:01,000\nkept\n\n";
    ed.import_captions(FormatId::Srt, &chars(doc)).unwrap();
    assert_eq!(ed.get_captions().len(), 1);
    // a malformed timestamp aborts the import and leaves everything unchanged
    let before = ed.history_len();
    let bad = "1\n00:00:aa,000 --> 00:00:01,000\nbad\n\n";
    assert_eq!(
        ed.import_captions(FormatId::Srt, &chars(bad)),
        Err(ParseError::Seconds)
    );
    assert_eq!(ed.get_captions().len(), 1);
    assert_eq!(ed.history_len(), before);
}

#[test]
fn import_round_trip_preserves_timing_and_text() {
    let mut ed = CaptionEditor::new();
    ed.add_caption(0, 1200, &chars("alpha beta"));
    ed.add_caption(2000, 3500, &chars("gamma"));
    ed.add_caption(3600000, 3723450, &chars("late entry"));
    let first = ed.export_captions(FormatId::Srt).unwrap();
    ed.import_captions(FormatId::Srt, &first).unwrap();
    let second = ed.export_captions(FormatId::Srt).unwrap();
    // formatting what was parsed from formatted output reproduces it exactly
    assert_eq!(string(&first), string(&second));
    let caps = ed.get_captions();
    assert_eq!(caps.len(), 3);
    assert_eq!((caps[0].start_ms, caps[0].end_ms), (0, 1200));
    assert_eq!(string(&caps[0].text), "alpha beta");
    assert_eq!((caps[1].start_ms, caps[1].end_ms), (2000, 3500));
    assert_eq!((caps[2].start_ms, caps[2].end_ms), (3600000, 3723450));
    assert_eq!(string(&caps[2].text), "late entry");
}

#[test]
fn import_stub_formats_keep_the_collection() {
    let mut ed = CaptionEditor::new();
    ed.add_caption(0, 1000, &chars("kept"));
    let before = ed.history_len();
    ed.import_captions(FormatId::Vtt, &chars("whatever")).unwrap();
    assert_eq!(ed.get_captions().len(), 1);
    assert_eq!(ed.history_len(), before + 1);
    assert_eq!(
        ed.import_captions(FormatId::Json, &chars("[]")),
        Err(ParseError::UnsupportedFormat)
    );
}
