use caption_engine::{CaptionEditor, EditError};

fn chars(s: &str) -> Vec<char> {
    s.chars().collect()
}

fn string(v: &Vec<char>) -> String {
    v.iter().collect()
}

#[test]
fn create_assigns_sequential_ids() {
    let mut ed = CaptionEditor::new();
    let a = ed.create_caption(100);
    let b = ed.create_caption(50);
    assert_eq!(string(&a), "caption_0");
    assert_eq!(string(&b), "caption_1");
    let caps = ed.get_captions();
    assert_eq!(caps.len(), 2);
    // create appends without re-sorting and with zero duration
    assert_eq!(caps[0].start_ms, 100);
    assert_eq!(caps[0].end_ms, 100);
    assert_eq!(caps[1].start_ms, 50);
    assert_eq!(string(&caps[0].text), "");
    assert_eq!(caps[0].confidence_milli, 1000);
}

#[test]
fn add_caption_sorts_stably() {
    let mut ed = CaptionEditor::new();
    ed.add_caption(500, 900, &chars("late"));
    ed.add_caption(100, 200, &chars("early"));
    ed.add_caption(500, 600, &chars("late too"));
    let caps = ed.get_captions();
    assert_eq!(string(&caps[0].text), "early");
    assert_eq!(string(&caps[1].text), "late");
    // equal start times keep their original relative order
    assert_eq!(string(&caps[2].text), "late too");
}

#[test]
fn update_text_hits_and_misses() {
    let mut ed = CaptionEditor::new();
    let id = ed.create_caption(0);
    let before = ed.history_len();
    ed.update_caption_text(&id, &chars("words"));
    assert_eq!(string(&ed.get_captions()[0].text), "words");
    assert_eq!(ed.history_len(), before + 1);
    // a missing id is a graceful miss: nothing changes, nothing recorded
    ed.update_caption_text(&chars("caption_99"), &chars("lost"));
    assert_eq!(string(&ed.get_captions()[0].text), "words");
    assert_eq!(ed.history_len(), before + 1);
}

#[test]
fn update_timing_by_id() {
    let mut ed = CaptionEditor::new();
    let id = ed.create_caption(0);
    ed.update_caption_timing(&id, 250, 750);
    assert_eq!(ed.get_captions()[0].start_ms, 250);
    assert_eq!(ed.get_captions()[0].end_ms, 750);
}

#[test]
fn delete_removes_matching_ids_only() {
    let mut ed = CaptionEditor::new();
    let a = ed.create_caption(0);
    let _b = ed.create_caption(10);
    let c = ed.create_caption(20);
    ed.delete_captions(&vec![a, c, chars("caption_77")]);
    let caps = ed.get_captions();
    assert_eq!(caps.len(), 1);
    assert_eq!(string(&caps[0].id), "caption_1");
}

#[test]
fn undo_reverses_a_run_of_edits() {
    // a run of mutations followed by as many undos restores the initial state
    let mut ed = CaptionEditor::new();
    for k in 0..5 {
        ed.create_caption(k * 10);
    }
    assert_eq!(ed.get_captions().len(), 5);
    for _ in 0..5 {
        assert!(ed.undo());
    }
    assert_eq!(ed.get_captions().len(), 0);
    // nothing older than the initial snapshot
    assert!(!ed.undo());
}

#[test]
fn redo_unavailable_after_fresh_mutation() {
    let mut ed = CaptionEditor::new();
    ed.create_caption(0);
    ed.create_caption(10);
    assert!(ed.undo());
    // the redo branch exists now
    assert!(ed.redo());
    assert!(ed.undo());
    // a fresh mutation destroys the redo branch for good
    ed.create_caption(99);
    assert!(!ed.redo());
}

#[test]
fn history_bounded_at_one_hundred_snapshots() {
    let mut ed = CaptionEditor::new();
    for k in 0..130 {
        ed.create_caption(k);
    }
    assert_eq!(ed.history_len(), 100);
    // the oldest snapshots were evicted first: undoing to the floor leaves
    // the state recorded 99 edits before the last one
    let mut undos = 0;
    while ed.undo() {
        undos += 1;
    }
    assert_eq!(undos, 99);
    assert_eq!(ed.get_captions().len(), 31);
}

#[test]
fn undo_replaces_live_collection_with_snapshot() {
    let mut ed = CaptionEditor::new();
    let id = ed.create_caption(0);
    ed.update_caption_text(&id, &chars("one"));
    ed.update_caption_text(&id, &chars("two"));
    assert!(ed.undo());
    assert_eq!(string(&ed.get_captions()[0].text), "one");
    assert!(ed.redo());
    assert_eq!(string(&ed.get_captions()[0].text), "two");
}

#[test]
fn split_caption_divides_words_proportionally() {
    let mut ed = CaptionEditor::new();
    ed.add_caption(0, 1000, &chars("Hello world"));
    let id = ed.get_captions()[0].id.clone();
    ed.split_caption(&id, 500).unwrap();
    let caps = ed.get_captions();
    assert_eq!(caps.len(), 2);
    assert_eq!(string(&caps[0].text), "Hello");
    assert_eq!(caps[0].start_ms, 0);
    assert_eq!(caps[0].end_ms, 500);
    assert_eq!(string(&caps[0].id), "caption_0");
    assert_eq!(string(&caps[1].text), "world");
    assert_eq!(caps[1].start_ms, 500);
    assert_eq!(caps[1].end_ms, 1000);
    assert_eq!(string(&caps[1].id), "caption_0_split");
    // rejoining the halves with one space reproduces the original text
    let rejoined = format!("{} {}", string(&caps[0].text), string(&caps[1].text));
    assert_eq!(rejoined, "Hello world");
}

#[test]
fn split_point_must_lie_strictly_inside() {
    let mut ed = CaptionEditor::new();
    ed.add_caption(0, 1000, &chars("Hello world"));
    let id = ed.get_captions()[0].id.clone();
    let before = ed.history_len();
    assert_eq!(ed.split_caption(&id, 0), Err(EditError::InvalidSplitPoint));
    assert_eq!(ed.split_caption(&id, 1000), Err(EditError::InvalidSplitPoint));
    // failure left state and history unchanged
    assert_eq!(ed.get_captions().len(), 1);
    assert_eq!(ed.history_len(), before);
    // a missing id is a graceful miss, not a failure
    assert_eq!(ed.split_caption(&chars("caption_9"), 500), Ok(()));
    assert_eq!(ed.history_len(), before);
}

#[test]
fn split_early_may_leave_empty_first_half() {
    let mut ed = CaptionEditor::new();
    ed.add_caption(0, 1000, &chars("Hi"));
    let id = ed.get_captions()[0].id.clone();
    ed.split_caption(&id, 400).unwrap();
    let caps = ed.get_captions();
    assert_eq!(string(&caps[0].text), "");
    assert_eq!(string(&caps[1].text), "Hi");
}

#[test]
fn merge_selected_joins_texts_and_spans() {
    let mut ed = CaptionEditor::new();
    ed.add_caption(0, 1000, &chars("Hello"));
    ed.add_caption(1500, 2500, &chars("world"));
    ed.set_selection(&vec![0, 1]).unwrap();
    ed.merge_selected().unwrap();
    let caps = ed.get_captions();
    assert_eq!(caps.len(), 1);
    assert_eq!(string(&caps[0].text), "Hello world");
    assert_eq!(caps[0].start_ms, 0);
    assert_eq!(caps[0].end_ms, 2500);
    assert_eq!(string(&caps[0].id), "caption_0");
}

#[test]
fn merge_needs_two_selected_positions() {
    let mut ed = CaptionEditor::new();
    ed.add_caption(0, 1000, &chars("only"));
    assert_eq!(ed.merge_selected(), Err(EditError::InsufficientSelection));
    ed.set_selection(&vec![0]).unwrap();
    assert_eq!(ed.merge_selected(), Err(EditError::InsufficientSelection));
}

#[test]
fn selection_is_validated() {
    let mut ed = CaptionEditor::new();
    ed.add_caption(0, 1000, &chars("a"));
    ed.add_caption(1000, 2000, &chars("b"));
    assert_eq!(ed.set_selection(&vec![0, 2]), Err(EditError::InvalidSelection));
    assert_eq!(ed.set_selection(&vec![1, 0]), Err(EditError::InvalidSelection));
    assert_eq!(ed.set_selection(&vec![0, 0]), Err(EditError::InvalidSelection));
    assert_eq!(ed.set_selection(&vec![0, 1]), Ok(()));
}

#[test]
fn shift_moves_both_ends_and_may_go_negative() {
    let mut ed = CaptionEditor::new();
    ed.add_caption(100, 400, &chars("a"));
    ed.shift_all_captions(-250);
    let caps = ed.get_captions();
    assert_eq!(caps[0].start_ms, -150);
    assert_eq!(caps[0].end_ms, 150);
}

#[test]
fn stretch_truncates_toward_zero() {
    let mut ed = CaptionEditor::new();
    ed.add_caption(333, 999, &chars("a"));
    ed.shift_all_captions(-666);
    // now at (-333, 333)
    ed.stretch_captions(1500);
    let caps = ed.get_captions();
    // 333 * 1.5 = 499.5 truncates to 499, toward zero on both signs
    assert_eq!(caps[0].start_ms, -499);
    assert_eq!(caps[0].end_ms, 499);
}

#[test]
fn global_style_records_even_when_empty() {
    let mut ed = CaptionEditor::new();
    let before = ed.history_len();
    let style = caption_engine::caption::default_style();
    ed.update_global_style(&style);
    assert_eq!(ed.history_len(), before + 1);
}
