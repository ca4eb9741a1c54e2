use caption_engine::{CaptionEditor, SpeedKind, WaveformProcessor};
use caption_engine::TimelineTransform;
use caption_engine::timeline::{
    transform_get_time_from_click,
    transform_handle_pan_move,
    transform_handle_wheel,
};

fn chars(s: &str) -> Vec<char> {
    s.chars().collect()
}

fn string(v: &Vec<char>) -> String {
    v.iter().collect()
}

#[test]
fn conflicts_on_reference_intervals() {
    let mut ed = CaptionEditor::new();
    ed.add_caption(0, 1000, &chars("a"));
    ed.add_caption(500, 1500, &chars("b"));
    ed.add_caption(2000, 3000, &chars("c"));
    assert_eq!(ed.detect_conflicts(), vec![(0, 1)]);
}

#[test]
fn conflicts_report_all_pairs_not_just_adjacent() {
    let mut ed = CaptionEditor::new();
    ed.add_caption(0, 5000, &chars("long"));
    ed.add_caption(100, 200, &chars("x"));
    ed.add_caption(300, 400, &chars("y"));
    assert_eq!(ed.detect_conflicts(), vec![(0, 1), (0, 2)]);
}

#[test]
fn touching_intervals_do_not_conflict() {
    let mut ed = CaptionEditor::new();
    ed.add_caption(0, 1000, &chars("a"));
    ed.add_caption(1000, 2000, &chars("b"));
    assert_eq!(ed.detect_conflicts(), vec![]);
}

#[test]
fn reading_speed_flags_thirty_chars_in_one_second() {
    let mut ed = CaptionEditor::new();
    ed.add_caption(0, 1000, &chars("abcdefghijklmnopqrstuvwxyz0123"));
    let warnings = ed.analyze_reading_speed();
    assert_eq!(warnings, vec![(0, SpeedKind::TooFast)]);
}

#[test]
fn reading_speed_slow_needs_more_than_ten_chars() {
    let mut ed = CaptionEditor::new();
    // 11 chars over 10 seconds: 1.1 cps, slow
    ed.add_caption(0, 10000, &chars("hello there"));
    // 5 chars over 10 seconds: short captions are exempt
    ed.add_caption(20000, 30000, &chars("hi ho"));
    // comfortable speed
    ed.add_caption(40000, 41000, &chars("ten chars!"));
    let warnings = ed.analyze_reading_speed();
    assert_eq!(warnings, vec![(0, SpeedKind::TooSlow)]);
}

#[test]
fn reading_speed_zero_duration_counts_as_too_fast() {
    let mut ed = CaptionEditor::new();
    ed.add_caption(100, 100, &chars("instant"));
    ed.add_caption(200, 200, &chars(""));
    let warnings = ed.analyze_reading_speed();
    // unbounded speed for any text; an empty zero-length caption earns nothing
    assert_eq!(warnings, vec![(0, SpeedKind::TooFast)]);
}

#[test]
fn punctuate_capitalizes_and_terminates() {
    let mut ed = CaptionEditor::new();
    ed.add_caption(0, 1000, &chars("hello world"));
    ed.add_caption(2000, 3000, &chars("Done?"));
    ed.auto_punctuate();
    let caps = ed.get_captions();
    assert_eq!(string(&caps[0].text), "Hello world.");
    assert_eq!(string(&caps[1].text), "Done?");
}

#[test]
fn punctuate_cleanup_is_single_pass() {
    let mut ed = CaptionEditor::new();
    ed.add_caption(0, 1000, &chars("so , it goes ."));
    ed.add_caption(2000, 3000, &chars("a   b"));
    ed.auto_punctuate();
    let caps = ed.get_captions();
    assert_eq!(string(&caps[0].text), "So, it goes.");
    // one pass over three spaces leaves a double space behind
    assert_eq!(string(&caps[1].text), "A  b.");
}

#[test]
fn find_replace_case_sensitive_and_not() {
    let mut ed = CaptionEditor::new();
    ed.add_caption(0, 1000, &chars("Cat cat CAT"));
    ed.find_replace(&chars("cat"), &chars("dog"), true);
    assert_eq!(string(&ed.get_captions()[0].text), "Cat dog CAT");
    ed.find_replace(&chars("cat"), &chars("dog"), false);
    // matches found ignoring case, the literal replacement substituted
    assert_eq!(string(&ed.get_captions()[0].text), "dog dog dog");
}

#[test]
fn find_replace_folds_beyond_ascii() {
    let mut ed = CaptionEditor::new();
    ed.add_caption(0, 1000, &chars("\u{c9}l\u{e9}gant"));
    // the accented capital E matches its lowercase form under the fold
    ed.find_replace(&chars("\u{e9}l\u{e9}gant"), &chars("plain"), false);
    assert_eq!(string(&ed.get_captions()[0].text), "plain");
}

#[test]
fn wheel_zoom_multiplies_far_beyond_use() {
    let width = 1000u64;
    let mut t = TimelineTransform::new(1000, 0);
    // a long run of zoom-ins multiplies by exactly 1.2 each step until the
    // machine bound, and never breaks validity
    for _ in 0..200 {
        let before = t.scale_milli;
        t = transform_handle_wheel(t, 60000, width, 0, -1);
        let expected = (before * 6 / 5).min(1000000000000000);
        assert_eq!(t.scale_milli, expected.max(1000));
        let world = ((width as u128) * (t.scale_milli as u128) / 1000) as i64;
        assert!(t.offset >= 0 && t.offset <= world - width as i64);
    }
    // the bound was reached and held
    assert_eq!(t.scale_milli, 1000000000000000);
}

#[test]
fn profanity_filter_stars_and_bleeps() {
    let mut ed = CaptionEditor::new();
    ed.add_caption(0, 1000, &chars("damn it Hell"));
    ed.apply_profanity_filter(false);
    assert_eq!(string(&ed.get_captions()[0].text), "**** it ****");
    let mut ed2 = CaptionEditor::new();
    ed2.add_caption(0, 1000, &chars("shit happens"));
    ed2.apply_profanity_filter(true);
    assert_eq!(string(&ed2.get_captions()[0].text), "[bleep] happens");
    // only the leading-capital variant is matched, not arbitrary case
    let mut ed3 = CaptionEditor::new();
    ed3.add_caption(0, 1000, &chars("DAMN"));
    ed3.apply_profanity_filter(false);
    assert_eq!(string(&ed3.get_captions()[0].text), "DAMN");
}

#[test]
fn envelope_means_absolute_chunks() {
    let mut wp = WaveformProcessor::new(44100);
    // 100 samples of -3, then 100 of 5, then a partial chunk of 50 sevens
    let mut audio: Vec<i32> = Vec::new();
    audio.extend(std::iter::repeat(-3).take(100));
    audio.extend(std::iter::repeat(5).take(100));
    audio.extend(std::iter::repeat(7).take(50));
    wp.process_audio_buffer(&audio);
    assert_eq!(wp.get_waveform_data(), vec![3, 5, 7]);
}

#[test]
fn envelope_truncates_the_mean() {
    let mut wp = WaveformProcessor::new(8000);
    // partial chunk: mean of |1|,|2| is 1.5, truncated to 1
    wp.process_audio_buffer(&vec![1, 2]);
    assert_eq!(wp.get_waveform_data(), vec![1]);
}

#[test]
fn peaks_are_strict_interior_maxima() {
    let mut wp = WaveformProcessor::new(8000);
    let mut audio: Vec<i32> = Vec::new();
    for &level in &[1, 9, 2, 9, 9, 1, 7, 1] {
        audio.extend(std::iter::repeat(level).take(100));
    }
    wp.process_audio_buffer(&audio);
    assert_eq!(wp.get_waveform_data(), vec![1, 9, 2, 9, 9, 1, 7, 1]);
    // index 1 exceeds both neighbors; the 9,9 plateau has no strict maximum;
    // index 6 qualifies; ends are excluded
    assert_eq!(wp.get_peaks(5), vec![1, 6]);
    // a high threshold filters peaks out
    assert_eq!(wp.get_peaks(8), vec![1]);
}

#[test]
fn wheel_zoom_keeps_scale_and_offset_in_bounds() {
    let width = 1000u64;
    let mut t = TimelineTransform::new(1000, 0);
    // zooming out at the floor never drops the scale below 1.0
    t = transform_handle_wheel(t, 60000, width, 500, 1);
    assert_eq!(t.scale_milli, 1000);
    assert_eq!(t.offset, 0);
    // any mixed sequence of wheel events keeps the transform valid
    let deltas = [-1, -1, -1, 1, -1, 1, 1, -1, -1, 1, 1, 1, 1, 1];
    for &d in &deltas {
        t = transform_handle_wheel(t, 60000, width, 750, d);
        assert!(t.scale_milli >= 1000);
        let world = (width * t.scale_milli / 1000) as i64;
        assert!(t.offset >= 0);
        assert!(t.offset <= world - width as i64);
    }
}

#[test]
fn wheel_zoom_in_multiplies_by_six_fifths() {
    let t = TimelineTransform::new(1000, 0);
    let z = transform_handle_wheel(t, 60000, 1000, 0, -1);
    assert_eq!(z.scale_milli, 1200);
    // zooming at the left edge keeps the offset at zero
    assert_eq!(z.offset, 0);
}

#[test]
fn pan_clamps_to_world_bounds() {
    let t = TimelineTransform::new(2000, 100);
    // world width 2000, window 1000, so offsets live in [0, 1000]
    let p = transform_handle_pan_move(t, 1000, 0, -5000);
    assert_eq!(p.offset, 1000);
    let q = transform_handle_pan_move(t, 1000, 0, 5000);
    assert_eq!(q.offset, 0);
    let r = transform_handle_pan_move(t, 1000, 50, 25);
    assert_eq!(r.offset, 125);
    assert_eq!(r.scale_milli, 2000);
}

#[test]
fn click_time_maps_pixels_to_milliseconds() {
    // unzoomed 1000-pixel timeline over one minute: 250 px is 15 s
    let t = TimelineTransform::new(1000, 0);
    assert_eq!(transform_get_time_from_click(t, 60000, 1000, 250), 15000);
    // zoomed to 2.0 with a pan: (250 + 750) / 2000 of one minute is 30 s
    let z = TimelineTransform::new(2000, 750);
    assert_eq!(transform_get_time_from_click(z, 60000, 1000, 250), 30000);
}
