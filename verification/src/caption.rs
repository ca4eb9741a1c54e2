//! The caption data model: a timed text unit with identifier, speaker,
//! confidence and presentation style, together with its mathematical model
//! and deep-copy operations used by the history mechanism.
//!
//! Fractional quantities of the original presentation metadata (confidence,
//! animation duration, shadow blur, border radius, letter spacing) are held
//! as integers in thousandths, so that every field is an exact plain value.
use vstd::prelude::*;
use crate::text::copy_text;

verus! {

/// Vertical placement of a caption on screen.
#[derive(Clone, Copy, PartialEq, Eq, Structural, Debug)]
pub enum Position {
    Bottom,
    Top,
    Middle,
    Custom(i32, i32),
}

/// Horizontal text alignment.
#[derive(Clone, Copy, PartialEq, Eq, Structural, Debug)]
pub enum TextAlign {
    Left,
    Center,
    Right,
}

/// Presentation metadata carried through edits unchanged unless explicitly
/// updated; it has no relationship to timing.
pub struct CaptionStyle {
    pub position: Position,
    pub font_size: u32,
    pub color: Vec<char>,
    pub background: Vec<char>,
    pub font_family: Vec<char>,
    pub bold: bool,
    pub italic: bool,
    pub underline: bool,
    pub alignment: TextAlign,
    pub outline_color: Option<Vec<char>>,
    pub outline_width: u32,
    pub shadow_color: Option<Vec<char>>,
    pub shadow_offset_x: i32,
    pub shadow_offset_y: i32,
    pub animation_type: Option<Vec<char>>,
    pub animation_duration_milli: u32,
    pub shadow_blur_milli: u32,
    pub border_radius_milli: u32,
    pub letter_spacing_milli: i32,
}

/// The mathematical model of a [`CaptionStyle`].
pub struct StyleModel {
    pub position: Position,
    pub font_size: u32,
    pub color: Seq<char>,
    pub background: Seq<char>,
    pub font_family: Seq<char>,
    pub bold: bool,
    pub italic: bool,
    pub underline: bool,
    pub alignment: TextAlign,
    pub outline_color: Option<Seq<char>>,
    pub outline_width: u32,
    pub shadow_color: Option<Seq<char>>,
    pub shadow_offset_x: i32,
    pub shadow_offset_y: i32,
    pub animation_type: Option<Seq<char>>,
    pub animation_duration_milli: u32,
    pub shadow_blur_milli: u32,
    pub border_radius_milli: u32,
    pub letter_spacing_milli: i32,
}

impl View for CaptionStyle {
    type V = StyleModel;

    open spec fn view(&self) -> StyleModel {
        StyleModel {
            position: self.position,
            font_size: self.font_size,
            color: self.color@,
            background: self.background@,
            font_family: self.font_family@,
            bold: self.bold,
            italic: self.italic,
            underline: self.underline,
            alignment: self.alignment,
            outline_color: self.outline_color.deep_view(),
            outline_width: self.outline_width,
            shadow_color: self.shadow_color.deep_view(),
            shadow_offset_x: self.shadow_offset_x,
            shadow_offset_y: self.shadow_offset_y,
            animation_type: self.animation_type.deep_view(),
            animation_duration_milli: self.animation_duration_milli,
            shadow_blur_milli: self.shadow_blur_milli,
            border_radius_milli: self.border_radius_milli,
            letter_spacing_milli: self.letter_spacing_milli,
        }
    }
}

impl DeepView for CaptionStyle {
    type V = StyleModel;

    open spec fn deep_view(&self) -> StyleModel {
        self.view()
    }
}

/// A timed text unit.
pub struct Caption {
    /// Unique identifier assigned by the store, stable across edits, never
    /// reused.
    pub id: Vec<char>,
    /// Timeline-absolute start, integer milliseconds.
    pub start_ms: i32,
    /// Timeline-absolute end, integer milliseconds.
    pub end_ms: i32,
    /// The caption text, possibly multi-line.
    pub text: Vec<char>,
    /// Optional speaker label, no uniqueness constraint.
    pub speaker: Option<Vec<char>>,
    /// Transcription confidence in thousandths: 1000 for user-authored or
    /// imported-as-trusted text. Stored and echoed only.
    pub confidence_milli: u32,
    /// Presentation metadata.
    pub style: CaptionStyle,
}

/// The mathematical model of a [`Caption`].
pub struct CaptionModel {
    pub id: Seq<char>,
    pub start_ms: int,
    pub end_ms: int,
    pub text: Seq<char>,
    pub speaker: Option<Seq<char>>,
    pub confidence_milli: int,
    pub style: StyleModel,
}

impl View for Caption {
    type V = CaptionModel;

    open spec fn view(&self) -> CaptionModel {
        CaptionModel {
            id: self.id@,
            start_ms: self.start_ms as int,
            end_ms: self.end_ms as int,
            text: self.text@,
            speaker: self.speaker.deep_view(),
            confidence_milli: self.confidence_milli as int,
            style: self.style@,
        }
    }
}

impl DeepView for Caption {
    type V = CaptionModel;

    open spec fn deep_view(&self) -> CaptionModel {
        self.view()
    }
}

/// Copies an optional text field.
pub fn copy_opt_text(v: &Option<Vec<char>>) -> (out: Option<Vec<char>>)
    ensures
        out.deep_view() == v.deep_view(),
{
    match v {
        Option::None => Option::None,
        Option::Some(t) => Option::Some(copy_text(t)),
    }
}

/// Deep copy of a style; the copy models identically.
pub fn copy_style(s: &CaptionStyle) -> (out: CaptionStyle)
    ensures
        out@ == s@,
{
    CaptionStyle {
        position: s.position,
        font_size: s.font_size,
        color: copy_text(&s.color),
        background: copy_text(&s.background),
        font_family: copy_text(&s.font_family),
        bold: s.bold,
        italic: s.italic,
        underline: s.underline,
        alignment: s.alignment,
        outline_color: copy_opt_text(&s.outline_color),
        outline_width: s.outline_width,
        shadow_color: copy_opt_text(&s.shadow_color),
        shadow_offset_x: s.shadow_offset_x,
        shadow_offset_y: s.shadow_offset_y,
        animation_type: copy_opt_text(&s.animation_type),
        animation_duration_milli: s.animation_duration_milli,
        shadow_blur_milli: s.shadow_blur_milli,
        border_radius_milli: s.border_radius_milli,
        letter_spacing_milli: s.letter_spacing_milli,
    }
}

/// Deep copy of a caption; the copy models identically.
pub fn copy_caption(c: &Caption) -> (out: Caption)
    ensures
        out@ == c@,
{
    Caption {
        id: copy_text(&c.id),
        start_ms: c.start_ms,
        end_ms: c.end_ms,
        text: copy_text(&c.text),
        speaker: copy_opt_text(&c.speaker),
        confidence_milli: c.confidence_milli,
        style: copy_style(&c.style),
    }
}

/// Deep copy of a caption collection; the copy models identically, element
/// for element. History snapshots are made with this, so they are immune to
/// later in-place mutation of the live collection.
pub fn copy_captions(v: &Vec<Caption>) -> (out: Vec<Caption>)
    ensures
        out.deep_view() == v.deep_view(),
{
    let mut out: Vec<Caption> = Vec::new();
    let mut i: usize = 0;
    while i < v.len()
        invariant
            0 <= i <= v.len(),
            out.len() == i,
            forall|j: int| 0 <= j < i ==> out.deep_view()[j] == v.deep_view()[j],
        decreases v.len() - i,
    {
        let c = copy_caption(&v[i]);
        let ghost prev = out.deep_view();
        out.push(c);
        proof {
            assert forall|j: int| 0 <= j < i + 1 implies out.deep_view()[j] == v.deep_view()[j] by {
                if j < i {
                    assert(out@[j] == out@.drop_last()[j]);
                    assert(prev[j] == v.deep_view()[j]);
                }
            }
        }
        i += 1;
    }
    proof {
        assert(out.deep_view() =~~= v.deep_view());
    }
    out
}

/// The default style of newly created and imported captions: bottom-centered
/// white 16-pixel text on a translucent black background.
pub open spec fn default_style_spec() -> StyleModel {
    StyleModel {
        position: Position::Bottom,
        font_size: 16,
        color: seq!['#', 'F', 'F', 'F', 'F', 'F', 'F'],
        background: seq!['#', '0', '0', '0', '0', '0', '0', 'C', 'C'],
        font_family: seq!['A', 'r', 'i', 'a', 'l'],
        bold: false,
        italic: false,
        underline: false,
        alignment: TextAlign::Center,
        outline_color: Option::None,
        outline_width: 0,
        shadow_color: Option::None,
        shadow_offset_x: 0,
        shadow_offset_y: 0,
        animation_type: Option::None,
        animation_duration_milli: 0,
        shadow_blur_milli: 0,
        border_radius_milli: 0,
        letter_spacing_milli: 0,
    }
}

fn push_chars7(out: &mut Vec<char>, c0: char, c1: char, c2: char, c3: char, c4: char, c5: char, c6: char)
    ensures
        final(out)@ == old(out)@ + seq![c0, c1, c2, c3, c4, c5, c6],
{
    out.push(c0);
    out.push(c1);
    out.push(c2);
    out.push(c3);
    out.push(c4);
    out.push(c5);
    out.push(c6);
    proof {
        assert(out@ =~= old(out)@ + seq![c0, c1, c2, c3, c4, c5, c6]);
    }
}

/// Builds the default style value.
pub fn default_style() -> (out: CaptionStyle)
    ensures
        out@ == default_style_spec(),
{
    let mut color: Vec<char> = Vec::new();
    push_chars7(&mut color, '#', 'F', 'F', 'F', 'F', 'F', 'F');
    let mut background: Vec<char> = Vec::new();
    push_chars7(&mut background, '#', '0', '0', '0', '0', '0', '0');
    background.push('C');
    background.push('C');
    let mut font_family: Vec<char> = Vec::new();
    font_family.push('A');
    font_family.push('r');
    font_family.push('i');
    font_family.push('a');
    font_family.push('l');
    proof {
        assert(color@ =~= default_style_spec().color);
        assert(background@ =~= default_style_spec().background);
        assert(font_family@ =~= default_style_spec().font_family);
    }
    CaptionStyle {
        position: Position::Bottom,
        font_size: 16,
        color,
        background,
        font_family,
        bold: false,
        italic: false,
        underline: false,
        alignment: TextAlign::Center,
        outline_color: Option::None,
        outline_width: 0,
        shadow_color: Option::None,
        shadow_offset_x: 0,
        shadow_offset_y: 0,
        animation_type: Option::None,
        animation_duration_milli: 0,
        shadow_blur_milli: 0,
        border_radius_milli: 0,
        letter_spacing_milli: 0,
    }
}

} // verus!
