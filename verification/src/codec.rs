//! The format codec layer: millisecond/timestamp text conversion and the
//! timestamp-block text formats — the comma-separated one in full, the
//! dot-separated variant, and constant-header stubs for the remaining export
//! formats.
use vstd::prelude::*;
use crate::digits::{
    dec_spec,
    dec_val,
    parses_to_i32,
    parse_digits,
    render_padded,
    render_u32,
    zero_pad_spec,
};
use vstd::arithmetic::div_mod::{lemma_div_is_ordered, lemma_fundamental_div_mod, lemma_mod_mod};
use crate::text::{
    copy_text,
    join_spec,
    join_texts,
    lines_spec,
    replace_text,
    replace_text_spec,
    split_lines,
    split_spec,
    split_text,
    trim_spec,
    trim_text,
};

verus! {

/// A parse failure, naming the offending field, or an unsupported format.
#[derive(Clone, Copy, Debug, PartialEq, Eq, Structural)]
pub enum ParseError {
    /// A timestamp line does not have exactly three colon-separated fields.
    Format,
    /// The hours field is not a plain number in range.
    Hours,
    /// The minutes field is not a plain number in range.
    Minutes,
    /// The seconds field is not a plain number in range.
    Seconds,
    /// The milliseconds field is not a plain number in range.
    Millis,
    /// A value does not fit in the millisecond range.
    Range,
    /// The named format is not handled by this codec.
    UnsupportedFormat,
}

/// A closed format identifier: dispatch is a compile-time-visible decision.
#[derive(Clone, Copy, Debug, PartialEq, Eq, Structural)]
pub enum FormatId {
    /// The comma-separated timestamp-block text format, fully supported.
    Srt,
    /// The dot-separated variant with a header; export only.
    Vtt,
    /// Advanced SubStation Alpha; stub.
    Ass,
    /// JSON interchange; handled outside this codec.
    Json,
    /// A clip-tool export format; stub.
    OpusExport,
    /// A video-editor XML interchange; stub header only.
    FcpXml,
    /// An edit decision list; stub header only.
    Edl,
}

/// The timestamp text for non-negative `ms`: zero-padded hours, minutes and
/// seconds separated by colons, then `sep` and three millisecond digits.
pub open spec fn ts_nonneg_spec(ms: int, sep: char) -> Seq<char> {
    zero_pad_spec(dec_spec(ms / 3600000), 2) + seq![':'] + zero_pad_spec(
        dec_spec((ms % 3600000) / 60000),
        2,
    ) + seq![':'] + zero_pad_spec(dec_spec((ms % 60000) / 1000), 2) + seq![sep] + zero_pad_spec(
        dec_spec(ms % 1000),
        3,
    )
}

/// The timestamp text of `ms`; a negative time renders as a minus sign
/// before the text of its magnitude.
pub open spec fn timestamp_spec(ms: int, sep: char) -> Seq<char> {
    if ms >= 0 {
        ts_nonneg_spec(ms, sep)
    } else {
        seq!['-'] + ts_nonneg_spec(-ms, sep)
    }
}

/// Renders a timestamp, satisfying [`timestamp_spec`].
pub fn format_timestamp(ms: i32, sep: char) -> (out: Vec<char>)
    ensures
        out@ == timestamp_spec(ms as int, sep),
{
    let mag: u32 = if ms >= 0 {
        ms as u32
    } else {
        (-(ms as i64)) as u32
    };
    let (h, mi, se, mil) = crate::split_ms(mag);
    let mut out: Vec<char> = Vec::new();
    if ms < 0 {
        out.push('-');
    }
    let mut hp = render_padded(h, 2);
    out.append(&mut hp);
    out.push(':');
    let mut mp = render_padded(mi, 2);
    out.append(&mut mp);
    out.push(':');
    let mut sp = render_padded(se, 2);
    out.append(&mut sp);
    out.push(sep);
    let mut ml = render_padded(mil, 3);
    out.append(&mut ml);
    proof {
        if ms >= 0 {
            assert(out@ =~= ts_nonneg_spec(ms as int, sep));
        } else {
            assert(out@ =~= seq!['-'] + ts_nonneg_spec(-(ms as int), sep));
        }
    }
    out
}

/// The arrow separating the two timestamps of a block line.
pub open spec fn arrow_spec() -> Seq<char> {
    seq![' ', '-', '-', '>', ' ']
}

fn arrow_vec() -> (out: Vec<char>)
    ensures
        out@ == arrow_spec(),
{
    let out: Vec<char> = vec![' ', '-', '-', '>', ' '];
    proof {
        assert(out@ =~= arrow_spec());
    }
    out
}

/// One block of the comma-separated format: a one-based index line, the
/// timestamp line, the text, and a blank separator line.
#[verifier::opaque]
pub open spec fn srt_block_spec(c: crate::caption::CaptionModel, idx: int) -> Seq<char> {
    dec_spec(idx) + seq!['\n'] + timestamp_spec(c.start_ms, ',') + arrow_spec() + timestamp_spec(
        c.end_ms,
        ',',
    ) + seq!['\n'] + c.text + seq!['\n', '\n']
}

/// The whole comma-separated document: the blocks in collection order.
pub open spec fn srt_format_spec(s: Seq<crate::caption::CaptionModel>) -> Seq<char>
    decreases s.len(),
{
    if s.len() == 0 {
        Seq::empty()
    } else {
        srt_format_spec(s.drop_last()) + srt_block_spec(s.last(), s.len() as int)
    }
}

/// One block of the dot-separated variant: no index line.
pub open spec fn vtt_block_spec(c: crate::caption::CaptionModel) -> Seq<char> {
    timestamp_spec(c.start_ms, '.') + arrow_spec() + timestamp_spec(c.end_ms, '.') + seq!['\n']
        + c.text + seq!['\n', '\n']
}

/// The blocks of the dot-separated variant in collection order.
pub open spec fn vtt_blocks_spec(s: Seq<crate::caption::CaptionModel>) -> Seq<char>
    decreases s.len(),
{
    if s.len() == 0 {
        Seq::empty()
    } else {
        vtt_blocks_spec(s.drop_last()) + vtt_block_spec(s.last())
    }
}

/// The dot-separated document: header line, blank line, then the blocks.
pub open spec fn vtt_format_spec(s: Seq<crate::caption::CaptionModel>) -> Seq<char> {
    seq!['W', 'E', 'B', 'V', 'T', 'T', '\n', '\n'] + vtt_blocks_spec(s)
}

/// Renders the comma-separated document, satisfying [`srt_format_spec`].
#[verifier::rlimit(60)]
pub fn format_srt(v: &Vec<crate::caption::Caption>) -> (out: Vec<char>)
    requires
        v.len() < 0xffffffff,
    ensures
        out@ == srt_format_spec(v.deep_view()),
{
    let mut out: Vec<char> = Vec::new();
    let mut i: usize = 0;
    proof {
        assert(out@ =~= srt_format_spec(v.deep_view().take(0)));
    }
    while i < v.len()
        invariant
            0 <= i <= v.len(),
            v.len() < 0xffffffff,
            out@ == srt_format_spec(v.deep_view().take(i as int)),
        decreases v.len() - i,
    {
        let c = &v[i];
        let mut idx = render_u32((i + 1) as u32);
        out.append(&mut idx);
        out.push('\n');
        let mut st = format_timestamp(c.start_ms, ',');
        out.append(&mut st);
        let mut ar = arrow_vec();
        out.append(&mut ar);
        let mut en = format_timestamp(c.end_ms, ',');
        out.append(&mut en);
        out.push('\n');
        let mut tx = copy_text(&c.text);
        out.append(&mut tx);
        out.push('\n');
        out.push('\n');
        proof {
            reveal(srt_block_spec);
            let dv = v.deep_view();
            assert(dv.take(i + 1 as int).drop_last() =~= dv.take(i as int));
            assert(dv.take(i + 1 as int).last() == dv[i as int]);
            assert(dv[i as int] == v[i as int]@);
            assert(out@ =~= srt_format_spec(dv.take(i as int)) + srt_block_spec(
                dv[i as int],
                i + 1,
            ));
        }
        i += 1;
    }
    proof {
        assert(v.deep_view().take(v.deep_view().len() as int) =~= v.deep_view());
    }
    out
}

/// Renders the dot-separated document, satisfying [`vtt_format_spec`].
#[verifier::rlimit(60)]
pub fn format_vtt(v: &Vec<crate::caption::Caption>) -> (out: Vec<char>)
    ensures
        out@ == vtt_format_spec(v.deep_view()),
{
    let mut out: Vec<char> = vec!['W', 'E', 'B', 'V', 'T', 'T', '\n', '\n'];
    let ghost header = out@;
    proof {
        assert(header =~= seq!['W', 'E', 'B', 'V', 'T', 'T', '\n', '\n']);
        assert(out@ =~= header + vtt_blocks_spec(v.deep_view().take(0)));
    }
    let mut i: usize = 0;
    while i < v.len()
        invariant
            0 <= i <= v.len(),
            header == seq!['W', 'E', 'B', 'V', 'T', 'T', '\n', '\n'],
            out@ == header + vtt_blocks_spec(v.deep_view().take(i as int)),
        decreases v.len() - i,
    {
        let c = &v[i];
        let mut st = format_timestamp(c.start_ms, '.');
        out.append(&mut st);
        let mut ar = arrow_vec();
        out.append(&mut ar);
        let mut en = format_timestamp(c.end_ms, '.');
        out.append(&mut en);
        out.push('\n');
        let mut tx = copy_text(&c.text);
        out.append(&mut tx);
        out.push('\n');
        out.push('\n');
        proof {
            let dv = v.deep_view();
            assert(dv.take(i + 1 as int).drop_last() =~= dv.take(i as int));
            assert(dv.take(i + 1 as int).last() == dv[i as int]);
            assert(dv[i as int] == v[i as int]@);
            assert(out@ =~= header + (vtt_blocks_spec(dv.take(i as int)) + vtt_block_spec(
                dv[i as int],
            )));
        }
        i += 1;
    }
    proof {
        assert(v.deep_view().take(v.deep_view().len() as int) =~= v.deep_view());
    }
    out
}

/// The constant header of the SubStation stub export.
pub open spec fn ass_stub_spec() -> Seq<char> {
    seq![
        '[', 'S', 'c', 'r', 'i', 'p', 't', ' ', 'I', 'n', 'f', 'o', ']', '\n', '[', 'V', '4', '+',
        ' ', 'S', 't', 'y', 'l', 'e', 's', ']', '\n', '[', 'E', 'v', 'e', 'n', 't', 's', ']', '\n',
    ]
}

/// Builds the SubStation stub text.
pub fn ass_stub() -> (out: Vec<char>)
    ensures
        out@ == ass_stub_spec(),
{
    let out: Vec<char> = vec![
        '[', 'S', 'c', 'r', 'i', 'p', 't', ' ', 'I', 'n', 'f', 'o', ']', '\n', '[', 'V', '4', '+',
        ' ', 'S', 't', 'y', 'l', 'e', 's', ']', '\n', '[', 'E', 'v', 'e', 'n', 't', 's', ']', '\n',
    ];
    proof {
        assert(out@ =~= ass_stub_spec());
    }
    out
}

/// The constant header of the video-editor XML stub export.
pub open spec fn fcpxml_stub_spec() -> Seq<char> {
    seq![
        '<', '?', 'x', 'm', 'l', ' ', 'v', 'e', 'r', 's', 'i', 'o', 'n', '=', '"', '1', '.', '0',
        '"', ' ', 'e', 'n', 'c', 'o', 'd', 'i', 'n', 'g', '=', '"', 'U', 'T', 'F', '-', '8', '"',
        '?', '>', '\n', '<', 'f', 'c', 'p', 'x', 'm', 'l', ' ', 'v', 'e', 'r', 's', 'i', 'o', 'n',
        '=', '"', '1', '.', '9', '"', '>', '\n', '<', '/', 'f', 'c', 'p', 'x', 'm', 'l', '>',
    ]
}

/// Builds the video-editor XML stub text.
pub fn fcpxml_stub() -> (out: Vec<char>)
    ensures
        out@ == fcpxml_stub_spec(),
{
    let out: Vec<char> = vec![
        '<', '?', 'x', 'm', 'l', ' ', 'v', 'e', 'r', 's', 'i', 'o', 'n', '=', '"', '1', '.', '0',
        '"', ' ', 'e', 'n', 'c', 'o', 'd', 'i', 'n', 'g', '=', '"', 'U', 'T', 'F', '-', '8', '"',
        '?', '>', '\n', '<', 'f', 'c', 'p', 'x', 'm', 'l', ' ', 'v', 'e', 'r', 's', 'i', 'o', 'n',
        '=', '"', '1', '.', '9', '"', '>', '\n', '<', '/', 'f', 'c', 'p', 'x', 'm', 'l', '>',
    ];
    proof {
        assert(out@ =~= fcpxml_stub_spec());
    }
    out
}

/// The constant header of the edit-decision-list stub export.
pub open spec fn edl_stub_spec() -> Seq<char> {
    seq![
        'T', 'I', 'T', 'L', 'E', ':', ' ', 'C', 'a', 'p', 't', 'i', 'o', 'n', ' ', 'E', 'D', 'L',
        '\n', 'F', 'C', 'M', ':', ' ', 'N', 'O', 'N', '-', 'D', 'R', 'O', 'P', ' ', 'F', 'R', 'A',
        'M', 'E', '\n', '\n',
    ]
}

/// Builds the edit-decision-list stub text.
pub fn edl_stub() -> (out: Vec<char>)
    ensures
        out@ == edl_stub_spec(),
{
    let out: Vec<char> = vec![
        'T', 'I', 'T', 'L', 'E', ':', ' ', 'C', 'a', 'p', 't', 'i', 'o', 'n', ' ', 'E', 'D', 'L',
        '\n', 'F', 'C', 'M', ':', ' ', 'N', 'O', 'N', '-', 'D', 'R', 'O', 'P', ' ', 'F', 'R', 'A',
        'M', 'E', '\n', '\n',
    ];
    proof {
        assert(out@ =~= edl_stub_spec());
    }
    out
}

/// `s` right-padded with zeros and cut to exactly three characters, the
/// treatment of a fractional-seconds field.
pub open spec fn right_pad3(s: Seq<char>) -> Seq<char> {
    (s + seq!['0', '0', '0']).take(3)
}

/// Parsing one timestamp: the text is trimmed, a comma millisecond
/// separator is turned into a dot, and the three colon-separated fields are
/// read as numbers; the seconds field may carry a dot-separated fractional
/// part, right-padded with zeros to three digits and cut to three. Any
/// non-numeric field is a failure naming the field; a total beyond the
/// 32-bit millisecond range is a range failure.
pub open spec fn parse_timestamp_spec(s: Seq<char>) -> Result<int, ParseError> {
    let t = replace_text_spec(trim_spec(s), seq![','], seq!['.'], false);
    let parts = split_spec(t, seq![':']);
    if parts.len() != 3 {
        Result::Err(ParseError::Format)
    } else if !parses_to_i32(parts[0]) {
        Result::Err(ParseError::Hours)
    } else if !parses_to_i32(parts[1]) {
        Result::Err(ParseError::Minutes)
    } else {
        let secs_parts = split_spec(parts[2], seq!['.']);
        if !parses_to_i32(secs_parts[0]) {
            Result::Err(ParseError::Seconds)
        } else if secs_parts.len() > 1 && !parses_to_i32(right_pad3(secs_parts[1])) {
            Result::Err(ParseError::Millis)
        } else {
            let millis = if secs_parts.len() > 1 {
                dec_val(right_pad3(secs_parts[1]))
            } else {
                0
            };
            let total = dec_val(parts[0]) * 3600000 + dec_val(parts[1]) * 60000 + dec_val(
                secs_parts[0],
            ) * 1000 + millis;
            if total > 0x7fffffff {
                Result::Err(ParseError::Range)
            } else {
                Result::Ok(total)
            }
        }
    }
}

/// Parses one timestamp, satisfying [`parse_timestamp_spec`].
pub fn parse_timestamp(s: &Vec<char>) -> (r: Result<i32, ParseError>)
    ensures
        match r {
            Result::Ok(v) => parse_timestamp_spec(s@) == Result::<int, ParseError>::Ok(
                v as int,
            ),
            Result::Err(e) => parse_timestamp_spec(s@) == Result::<int, ParseError>::Err(e),
        },
{
    let trimmed = trim_text(s);
    let comma: Vec<char> = vec![','];
    let dot: Vec<char> = vec!['.'];
    proof {
        assert(comma@ =~= seq![',']);
        assert(dot@ =~= seq!['.']);
    }
    let t = replace_text(&trimmed, &comma, &dot, false);
    let colon: Vec<char> = vec![':'];
    proof {
        assert(colon@ =~= seq![':']);
    }
    let parts = split_text(&t, &colon);
    if parts.len() != 3 {
        return Result::Err(ParseError::Format);
    }
    proof {
        assert(parts.deep_view()[0] == parts@[0]@);
        assert(parts.deep_view()[1] == parts@[1]@);
        assert(parts.deep_view()[2] == parts@[2]@);
    }
    let hours = match parse_digits(&parts[0]) {
        Option::Some(v) => v,
        Option::None => {
            return Result::Err(ParseError::Hours);
        },
    };
    let minutes = match parse_digits(&parts[1]) {
        Option::Some(v) => v,
        Option::None => {
            return Result::Err(ParseError::Minutes);
        },
    };
    let secs_parts = split_text(&parts[2], &dot);
    proof {
        assert(secs_parts.deep_view()[0] == secs_parts@[0]@);
    }
    let seconds = match parse_digits(&secs_parts[0]) {
        Option::Some(v) => v,
        Option::None => {
            return Result::Err(ParseError::Seconds);
        },
    };
    let millis: i32 = if secs_parts.len() > 1 {
        proof {
            assert(secs_parts.deep_view()[1] == secs_parts@[1]@);
        }
        let mut padded = copy_text(&secs_parts[1]);
        padded.push('0');
        padded.push('0');
        padded.push('0');
        let cut = crate::text::copy_range(&padded, 0, 3);
        proof {
            assert(padded@ =~= secs_parts@[1]@ + seq!['0', '0', '0']);
            assert(cut@ =~= right_pad3(secs_parts.deep_view()[1]));
        }
        match parse_digits(&cut) {
            Option::Some(v) => v,
            Option::None => {
                return Result::Err(ParseError::Millis);
            },
        }
    } else {
        0
    };
    let total: i64 = (hours as i64) * 3600000 + (minutes as i64) * 60000 + (seconds as i64) * 1000
        + (millis as i64);
    if total > 0x7fffffff {
        return Result::Err(ParseError::Range);
    }
    Result::Ok(total as i32)
}

/// Parsing one block: fewer than two lines, or a timestamp line without
/// exactly one arrow, is skipped rather than an error; a bad timestamp is a
/// hard failure. The text is the remaining lines joined with newlines.
pub open spec fn parse_block_spec(b: Seq<char>) -> Result<
    Option<(int, int, Seq<char>)>,
    ParseError,
> {
    let lines = lines_spec(trim_spec(b));
    if lines.len() < 2 {
        Result::Ok(Option::None)
    } else {
        let parts = split_spec(lines[1], arrow_spec());
        if parts.len() != 2 {
            Result::Ok(Option::None)
        } else {
            match parse_timestamp_spec(parts[0]) {
                Result::Err(e) => Result::Err(e),
                Result::Ok(st) => match parse_timestamp_spec(parts[1]) {
                    Result::Err(e) => Result::Err(e),
                    Result::Ok(en) => Result::Ok(
                        Option::Some((st, en, join_spec(lines.skip(2), '\n'))),
                    ),
                },
            }
        }
    }
}

/// Parsing a block sequence: results in order, skipped blocks left out, the
/// first failure aborting the whole parse.
pub open spec fn parse_blocks_spec(bs: Seq<Seq<char>>) -> Result<
    Seq<(int, int, Seq<char>)>,
    ParseError,
>
    decreases bs.len(),
{
    if bs.len() == 0 {
        Result::Ok(Seq::empty())
    } else {
        match parse_block_spec(bs[0]) {
            Result::Err(e) => Result::Err(e),
            Result::Ok(Option::None) => parse_blocks_spec(bs.skip(1)),
            Result::Ok(Option::Some(t)) => match parse_blocks_spec(bs.skip(1)) {
                Result::Err(e) => Result::Err(e),
                Result::Ok(rest) => Result::Ok(seq![t] + rest),
            },
        }
    }
}

/// Parsing a whole document: it is trimmed and split at blank lines, and
/// the blocks are parsed in order.
pub open spec fn parse_srt_spec(content: Seq<char>) -> Result<
    Seq<(int, int, Seq<char>)>,
    ParseError,
> {
    parse_blocks_spec(split_spec(trim_spec(content), seq!['\n', '\n']))
}

/// The integer view of parsed caption tuples.
pub open spec fn tuple_views(s: Seq<(i32, i32, Vec<char>)>) -> Seq<(int, int, Seq<char>)> {
    s.map_values(|t: (i32, i32, Vec<char>)| (t.0 as int, t.1 as int, t.2@))
}

fn parse_block(b: &Vec<char>) -> (r: Result<Option<(i32, i32, Vec<char>)>, ParseError>)
    ensures
        match r {
            Result::Ok(Option::None) => parse_block_spec(b@) == Result::<
                Option<(int, int, Seq<char>)>,
                ParseError,
            >::Ok(Option::None),
            Result::Ok(Option::Some(t)) => parse_block_spec(b@) == Result::<
                Option<(int, int, Seq<char>)>,
                ParseError,
            >::Ok(Option::Some((t.0 as int, t.1 as int, t.2@))),
            Result::Err(e) => parse_block_spec(b@) == Result::<
                Option<(int, int, Seq<char>)>,
                ParseError,
            >::Err(e),
        },
{
    let trimmed = trim_text(b);
    let lines = split_lines(&trimmed);
    if lines.len() < 2 {
        return Result::Ok(Option::None);
    }
    let arrow = arrow_vec();
    proof {
        assert(lines.deep_view()[1] == lines@[1]@);
    }
    let parts = split_text(&lines[1], &arrow);
    if parts.len() != 2 {
        return Result::Ok(Option::None);
    }
    proof {
        assert(parts.deep_view()[0] == parts@[0]@);
        assert(parts.deep_view()[1] == parts@[1]@);
    }
    let st = match parse_timestamp(&parts[0]) {
        Result::Ok(v) => v,
        Result::Err(e) => {
            return Result::Err(e);
        },
    };
    let en = match parse_timestamp(&parts[1]) {
        Result::Ok(v) => v,
        Result::Err(e) => {
            return Result::Err(e);
        },
    };
    let rest = crate::store::slice_words(&lines, 2, lines.len());
    let text = join_texts(&rest, '\n');
    proof {
        assert(lines.deep_view().subrange(2, lines.deep_view().len() as int) =~= lines_spec(
            trim_spec(b@),
        ).skip(2));
    }
    Result::Ok(Option::Some((st, en, text)))
}

/// Parses a whole document into caption tuples, satisfying
/// [`parse_srt_spec`].
pub fn parse_srt_tuples(content: &Vec<char>) -> (r: Result<Vec<(i32, i32, Vec<char>)>, ParseError>)
    ensures
        match r {
            Result::Ok(ts) => parse_srt_spec(content@) == Result::<
                Seq<(int, int, Seq<char>)>,
                ParseError,
            >::Ok(tuple_views(ts@)),
            Result::Err(e) => parse_srt_spec(content@) == Result::<
                Seq<(int, int, Seq<char>)>,
                ParseError,
            >::Err(e),
        },
{
    let trimmed = trim_text(content);
    let blank: Vec<char> = vec!['\n', '\n'];
    proof {
        assert(blank@ =~= seq!['\n', '\n']);
    }
    let blocks = split_text(&trimmed, &blank);
    let ghost bdv = blocks.deep_view();
    let mut out: Vec<(i32, i32, Vec<char>)> = Vec::new();
    let mut i: usize = 0;
    proof {
        assert(bdv.skip(0) =~= bdv);
        assert(tuple_views(out@) =~= Seq::<(int, int, Seq<char>)>::empty());
        if parse_blocks_spec(bdv) is Ok {
            let rest = parse_blocks_spec(bdv)->Ok_0;
            assert(Seq::<(int, int, Seq<char>)>::empty() + rest =~= rest);
        }
    }
    while i < blocks.len()
        invariant
            0 <= i <= blocks.len(),
            bdv == blocks.deep_view(),
            bdv == split_spec(trim_spec(content@), seq!['\n', '\n']),
            parse_blocks_spec(bdv) == match parse_blocks_spec(bdv.skip(i as int)) {
                Result::<Seq<(int, int, Seq<char>)>, ParseError>::Err(e) => Result::<
                    Seq<(int, int, Seq<char>)>,
                    ParseError,
                >::Err(e),
                Result::<Seq<(int, int, Seq<char>)>, ParseError>::Ok(rest) => Result::<
                    Seq<(int, int, Seq<char>)>,
                    ParseError,
                >::Ok(tuple_views(out@) + rest),
            },
        decreases blocks.len() - i,
    {
        proof {
            assert(blocks.deep_view()[i as int] == blocks@[i as int]@);
            assert(bdv.skip(i as int)[0] == bdv[i as int]);
            assert(bdv.skip(i as int).skip(1) =~= bdv.skip(i + 1));
        }
        match parse_block(&blocks[i]) {
            Result::Err(e) => {
                return Result::Err(e);
            },
            Result::Ok(Option::None) => {},
            Result::Ok(Option::Some(t)) => {
                let ghost prev = out@;
                out.push(t);
                proof {
                    let tint = (t.0 as int, t.1 as int, t.2@);
                    assert(tuple_views(out@) =~= tuple_views(prev).push(tint));
                    if parse_blocks_spec(bdv.skip(i + 1)) is Ok {
                        let rest = parse_blocks_spec(bdv.skip(i + 1))->Ok_0;
                        assert(tuple_views(prev) + (seq![tint] + rest) =~= tuple_views(out@)
                            + rest);
                    }
                }
            },
        }
        i += 1;
    }
    proof {
        assert(bdv.skip(bdv.len() as int) =~= Seq::<Seq<char>>::empty());
        assert(parse_blocks_spec(bdv.skip(bdv.len() as int)) == Result::<
            Seq<(int, int, Seq<char>)>,
            ParseError,
        >::Ok(Seq::empty()));
        assert(tuple_views(out@) + Seq::<(int, int, Seq<char>)>::empty() =~= tuple_views(out@));
    }
    Result::Ok(out)
}


/// Shorthand for single-character replacement.
pub open spec fn replace1(s: Seq<char>, f: char, r: char) -> Seq<char> {
    replace_text_spec(s, seq![f], seq![r], false)
}

proof fn lemma_replace1_concat(a: Seq<char>, b: Seq<char>, f: char, r: char)
    ensures
        replace1(a + b, f, r) == replace1(a, f, r) + replace1(b, f, r),
    decreases a.len(),
{
    if a.len() == 0 {
        assert(a + b =~= b);
        assert(replace1(a, f, r) == a);
        assert(a + replace1(b, f, r) =~= replace1(b, f, r));
    } else {
        let s = a + b;
        assert(s.len() >= 1);
        lemma_replace1_concat(a.skip(1), b, f, r);
        assert(s.skip(1) =~= a.skip(1) + b);
        if s[0] == f {
            assert(crate::text::char_matches(s[0], seq![f][0], false));
            assert(crate::text::match_at(s, seq![f], 0, false));
            assert(crate::text::match_at(a, seq![f], 0, false));
            assert(replace1(s, f, r) == seq![r] + replace1(s.skip(1), f, r));
            assert(replace1(a, f, r) == seq![r] + replace1(a.skip(1), f, r));
            assert(seq![r] + (replace1(a.skip(1), f, r) + replace1(b, f, r)) =~= (seq![r]
                + replace1(a.skip(1), f, r)) + replace1(b, f, r));
        } else {
            if crate::text::match_at(s, seq![f], 0, false) {
                assert(crate::text::char_matches(s[0], seq![f][0], false));
            }
            if crate::text::match_at(a, seq![f], 0, false) {
                assert(crate::text::char_matches(a[0], seq![f][0], false));
                assert(a[0] == s[0]);
            }
            assert(replace1(s, f, r) == seq![s[0]] + replace1(s.skip(1), f, r));
            assert(replace1(a, f, r) == seq![a[0]] + replace1(a.skip(1), f, r));
            assert(seq![s[0]] + (replace1(a.skip(1), f, r) + replace1(b, f, r)) =~= (seq![a[0]]
                + replace1(a.skip(1), f, r)) + replace1(b, f, r));
        }
    }
}

proof fn lemma_replace1_absent(s: Seq<char>, f: char, r: char)
    requires
        forall|k: int| 0 <= k < s.len() ==> s[k] != f,
    ensures
        replace1(s, f, r) == s,
    decreases s.len(),
{
    if s.len() > 0 {
        lemma_replace1_absent(s.skip(1), f, r);
        if crate::text::match_at(s, seq![f], 0, false) {
            assert(crate::text::char_matches(s[0], seq![f][0], false));
        }
        assert(replace1(s, f, r) == seq![s[0]] + replace1(s.skip(1), f, r));
        assert(seq![s[0]] + s.skip(1) =~= s);
    }
}

proof fn lemma_replace1_hit(f: char, r: char)
    ensures
        replace1(seq![f], f, r) == seq![r],
{
    let s = seq![f];
    assert(crate::text::char_matches(s[0], seq![f][0], false));
    assert(crate::text::match_at(s, seq![f], 0, false));
    assert(s.skip(1).len() == 0);
    assert(replace1(s.skip(1), f, r) == s.skip(1));
    assert(seq![r] + s.skip(1) =~= seq![r]);
}

proof fn lemma_split1_absent(s: Seq<char>, c: char)
    requires
        forall|k: int| 0 <= k < s.len() ==> s[k] != c,
    ensures
        split_spec(s, seq![c]) == seq![s],
    decreases s.len(),
{
    if s.len() == 0 {
    } else {
        lemma_split1_absent(s.skip(1), c);
        if crate::text::match_at(s, seq![c], 0, false) {
            assert(crate::text::char_matches(s[0], seq![c][0], false));
        }
        let rest = split_spec(s.skip(1), seq![c]);
        assert(rest == seq![s.skip(1)]);
        assert(seq![s[0]] + rest[0] =~= s);
        assert(seq![seq![s[0]] + rest[0]] + rest.skip(1) =~~= seq![s]);
    }
}

proof fn lemma_split1_concat(a: Seq<char>, b: Seq<char>, c: char)
    requires
        forall|k: int| 0 <= k < a.len() ==> a[k] != c,
    ensures
        split_spec(a + seq![c] + b, seq![c]) == seq![a] + split_spec(b, seq![c]),
    decreases a.len(),
{
    let s = a + seq![c] + b;
    assert(s.len() >= 1);
    if a.len() == 0 {
        assert(s[0] == c);
        assert(crate::text::char_matches(s[0], seq![c][0], false));
        assert(crate::text::match_at(s, seq![c], 0, false));
        assert(s.skip(1) =~= b);
        assert(seq![Seq::<char>::empty()] + split_spec(b, seq![c]) =~~= seq![a] + split_spec(
            b,
            seq![c],
        ));
    } else {
        lemma_split1_concat(a.skip(1), b, c);
        assert(s[0] == a[0]);
        if crate::text::match_at(s, seq![c], 0, false) {
            assert(crate::text::char_matches(s[0], seq![c][0], false));
        }
        assert(s.skip(1) =~= a.skip(1) + seq![c] + b);
        let rest = split_spec(s.skip(1), seq![c]);
        assert(rest == seq![a.skip(1)] + split_spec(b, seq![c]));
        assert(rest[0] == a.skip(1));
        assert(seq![s[0]] + rest[0] =~= a);
        assert(rest.skip(1) =~= split_spec(b, seq![c]));
        assert(seq![seq![s[0]] + rest[0]] + rest.skip(1) =~~= seq![a] + split_spec(b, seq![c]));
    }
}

proof fn lemma_trim_id(s: Seq<char>)
    requires
        s.len() > 0,
        !crate::text::is_space_char(s[0]),
        !crate::text::is_space_char(s.last()),
    ensures
        trim_spec(s) == s,
{
    assert(crate::text::drop_leading_ws(s) == s);
    assert(crate::text::drop_trailing_ws(s) == s);
}

proof fn lemma_digits_plain(s: Seq<char>)
    requires
        crate::digits::all_digits(s),
    ensures
        forall|k: int| 0 <= k < s.len() ==> s[k] != ',' && s[k] != ':' && s[k] != '.'
            && !crate::text::is_space_char(s[k]),
{
    assert forall|k: int|
        0 <= k < s.len() implies s[k] != ',' && s[k] != ':' && s[k] != '.'
        && !crate::text::is_space_char(s[k]) by {
        assert(crate::digits::is_digit_char(s[k]));
    }
}

proof fn lemma_dec_len3(n: int)
    requires
        0 <= n < 1000,
    ensures
        dec_spec(n).len() <= 3,
{
    if n >= 10 {
        assert(n / 10 < 100);
        if n / 10 >= 10 {
            assert(n / 10 / 10 < 10);
            assert(dec_spec(n / 10 / 10).len() == 1);
            assert(dec_spec(n / 10).len() == 2);
        } else {
            assert(dec_spec(n / 10).len() == 1);
        }
    }
}

/// One field of a rendered timestamp: the numeral of `v` zero-padded to
/// width `w`, a nonempty all-digit string denoting `v` back.
proof fn lemma_field_facts(v: int, w: int)
    requires
        0 <= v,
        0 <= w,
    ensures
        crate::digits::all_digits(zero_pad_spec(dec_spec(v), w)),
        zero_pad_spec(dec_spec(v), w).len() >= 1,
        dec_val(zero_pad_spec(dec_spec(v), w)) == v,
{
    crate::digits::lemma_dec_spec_digits(v);
    crate::digits::lemma_dec_roundtrip(v);
    crate::digits::lemma_zero_pad_val(dec_spec(v), w);
}

/// Parsing a rendered timestamp gives the time back: the round-trip of the
/// codec's two timestamp directions, for every representable non-negative
/// millisecond count.
pub proof fn lemma_timestamp_roundtrip(ms: int)
    requires
        0 <= ms <= 0x7fffffff,
    ensures
        parse_timestamp_spec(timestamp_spec(ms, ',')) == Result::<int, ParseError>::Ok(ms),
{
    let h = ms / 3600000;
    let mi = (ms % 3600000) / 60000;
    let se = (ms % 60000) / 1000;
    let mmm = ms % 1000;
    let fa = zero_pad_spec(dec_spec(h), 2);
    let fb = zero_pad_spec(dec_spec(mi), 2);
    let fc = zero_pad_spec(dec_spec(se), 2);
    let fd = zero_pad_spec(dec_spec(mmm), 3);
    lemma_field_facts(h, 2);
    lemma_field_facts(mi, 2);
    lemma_field_facts(se, 2);
    lemma_field_facts(mmm, 3);
    lemma_digits_plain(fa);
    lemma_digits_plain(fb);
    lemma_digits_plain(fc);
    lemma_digits_plain(fd);
    let ts = timestamp_spec(ms, ',');
    assert(ts == fa + seq![':'] + fb + seq![':'] + fc + seq![','] + fd);

    // trimming changes nothing: the ends are digits
    assert(ts[0] == fa[0]);
    assert(ts.last() == fd.last());
    assert(crate::digits::is_digit_char(fa[0]));
    assert(crate::digits::is_digit_char(fd.last()));
    lemma_trim_id(ts);

    // the comma becomes a dot; every other character is kept
    let t = replace1(ts, ',', '.');
    assert(ts =~= (fa + seq![':'] + fb + seq![':'] + fc) + (seq![','] + fd));
    lemma_replace1_concat(fa + seq![':'] + fb + seq![':'] + fc, seq![','] + fd, ',', '.');
    assert(fa + seq![':'] + fb + seq![':'] + fc =~= (fa + seq![':'] + fb + seq![':']) + fc);
    lemma_replace1_concat(fa + seq![':'] + fb + seq![':'], fc, ',', '.');
    assert(fa + seq![':'] + fb + seq![':'] =~= (fa + seq![':'] + fb) + seq![':']);
    lemma_replace1_concat(fa + seq![':'] + fb, seq![':'], ',', '.');
    assert(fa + seq![':'] + fb =~= (fa + seq![':']) + fb);
    lemma_replace1_concat(fa + seq![':'], fb, ',', '.');
    lemma_replace1_concat(fa, seq![':'], ',', '.');
    lemma_replace1_concat(seq![','], fd, ',', '.');
    lemma_replace1_absent(fa, ',', '.');
    lemma_replace1_absent(fb, ',', '.');
    lemma_replace1_absent(fc, ',', '.');
    lemma_replace1_absent(fd, ',', '.');
    assert(forall|k: int| 0 <= k < seq![':'].len() ==> seq![':'][k] != ',');
    lemma_replace1_absent(seq![':'], ',', '.');
    lemma_replace1_hit(',', '.');
    assert(t =~= fa + seq![':'] + fb + seq![':'] + fc + seq!['.'] + fd);

    // splitting at colons gives exactly the three fields
    let f3 = fc + seq!['.'] + fd;
    assert(t =~= fa + seq![':'] + (fb + seq![':'] + f3));
    lemma_split1_concat(fa, fb + seq![':'] + f3, ':');
    lemma_split1_concat(fb, f3, ':');
    assert(forall|k: int|
        0 <= k < f3.len() ==> f3[k] == fc[k] || f3[k] == (seq!['.'] + fd)[k - fc.len()]);
    assert forall|k: int| 0 <= k < f3.len() implies f3[k] != ':' by {
        if k < fc.len() {
            assert(f3[k] == fc[k]);
        } else if k == fc.len() {
            assert(f3[k] == '.');
        } else {
            assert(f3[k] == fd[k - fc.len() - 1]);
        }
    }
    lemma_split1_absent(f3, ':');
    let parts = split_spec(t, seq![':']);
    assert(parts =~~= seq![fa, fb, f3]);
    assert(parts.len() == 3);
    assert(parts[0] == fa && parts[1] == fb && parts[2] == f3);

    // bounds of the fields
    assert(0 <= ms % 3600000 < 3600000);
    assert(0 <= ms % 60000 < 60000);
    assert(0 <= mmm < 1000);
    lemma_div_is_ordered(ms % 3600000, 3599999, 60000);
    lemma_div_is_ordered(ms % 60000, 59999, 1000);
    assert(mi <= 3599999int / 60000);
    assert(se <= 59999int / 1000);
    assert(h <= ms);
    assert(crate::digits::parses_to_i32(parts[0]));
    assert(crate::digits::parses_to_i32(parts[1]));

    // the seconds field splits once at the dot
    lemma_split1_concat(fc, fd, '.');
    lemma_split1_absent(fd, '.');
    let secs_parts = split_spec(f3, seq!['.']);
    assert(secs_parts =~~= seq![fc, fd]);
    assert(secs_parts[0] == fc && secs_parts[1] == fd);
    assert(crate::digits::parses_to_i32(secs_parts[0]));

    // the millisecond field is exactly three digits, so padding returns it
    lemma_dec_len3(mmm);
    crate::digits::lemma_zero_pad_val(dec_spec(mmm), 3);
    assert(fd.len() == 3);
    assert(right_pad3(fd) =~= fd);
    assert(crate::digits::parses_to_i32(right_pad3(secs_parts[1])));

    // the field values recompose the original count
    lemma_fundamental_div_mod(ms, 3600000);
    lemma_fundamental_div_mod(ms % 3600000, 60000);
    lemma_mod_mod(ms, 60000, 60);
    lemma_fundamental_div_mod(ms % 60000, 1000);
    lemma_mod_mod(ms, 1000, 60);
    assert(60000 * 60 == 3600000);
    assert(1000 * 60 == 60000);
    assert(h * 3600000 + mi * 60000 + se * 1000 + mmm == ms);
}


proof fn lemma_match_shift(s: Seq<char>, sep: Seq<char>, p: int)
    requires
        s.len() >= 1,
        0 <= p,
    ensures
        crate::text::match_at(s.skip(1), sep, p, false) == crate::text::match_at(
            s,
            sep,
            p + 1,
            false,
        ),
{
    if crate::text::match_at(s.skip(1), sep, p, false) {
        assert forall|k: int| 0 <= k < sep.len() implies crate::text::char_matches(
            s[p + 1 + k],
            sep[k],
            false,
        ) by {
            assert(crate::text::char_matches(s.skip(1)[p + k], sep[k], false));
            assert(s.skip(1)[p + k] == s[p + 1 + k]);
        }
    }
    if crate::text::match_at(s, sep, p + 1, false) {
        assert forall|k: int| 0 <= k < sep.len() implies crate::text::char_matches(
            s.skip(1)[p + k],
            sep[k],
            false,
        ) by {
            assert(crate::text::char_matches(s[p + 1 + k], sep[k], false));
            assert(s.skip(1)[p + k] == s[p + 1 + k]);
        }
    }
}

proof fn lemma_split_absent_gen(s: Seq<char>, sep: Seq<char>)
    requires
        sep.len() >= 1,
        forall|p: int| 0 <= p ==> !crate::text::match_at(s, sep, p, false),
    ensures
        split_spec(s, sep) == seq![s],
    decreases s.len(),
{
    if s.len() < sep.len() {
    } else {
        assert(!crate::text::match_at(s, sep, 0, false));
        assert forall|p: int| 0 <= p implies !crate::text::match_at(
            s.skip(1),
            sep,
            p,
            false,
        ) by {
            lemma_match_shift(s, sep, p);
        }
        lemma_split_absent_gen(s.skip(1), sep);
        let rest = split_spec(s.skip(1), sep);
        assert(rest == seq![s.skip(1)]);
        assert(seq![seq![s[0]] + rest[0]] + rest.skip(1) =~~= seq![s]);
    }
}

proof fn lemma_split_concat_gen(a: Seq<char>, b: Seq<char>, sep: Seq<char>)
    requires
        sep.len() >= 1,
        forall|p: int| 0 <= p < a.len() ==> !crate::text::match_at(a + sep + b, sep, p, false),
    ensures
        split_spec(a + sep + b, sep) == seq![a] + split_spec(b, sep),
    decreases a.len(),
{
    let s = a + sep + b;
    assert(s.len() >= sep.len());
    if a.len() == 0 {
        assert forall|k: int| 0 <= k < sep.len() implies crate::text::char_matches(
            s[0 + k],
            sep[k],
            false,
        ) by {
            assert(s[k] == sep[k - a.len()]);
        }
        assert(crate::text::match_at(s, sep, 0, false));
        assert(s.skip(sep.len() as int) =~= b);
        assert(seq![Seq::<char>::empty()] + split_spec(b, sep) =~~= seq![a] + split_spec(b, sep));
    } else {
        assert(!crate::text::match_at(s, sep, 0, false));
        assert(s.skip(1) =~= a.skip(1) + sep + b);
        assert forall|p: int| 0 <= p < a.len() - 1 implies !crate::text::match_at(
            a.skip(1) + sep + b,
            sep,
            p,
            false,
        ) by {
            lemma_match_shift(s, sep, p);
            assert(!crate::text::match_at(s, sep, p + 1, false));
        }
        lemma_split_concat_gen(a.skip(1), b, sep);
        let rest = split_spec(s.skip(1), sep);
        assert(rest == seq![a.skip(1)] + split_spec(b, sep));
        assert(rest[0] == a.skip(1));
        assert(seq![s[0]] + rest[0] =~= a);
        assert(rest.skip(1) =~= split_spec(b, sep));
        assert(seq![seq![s[0]] + rest[0]] + rest.skip(1) =~~= seq![a] + split_spec(b, sep));
    }
}

proof fn lemma_join_cons_prefix(x: Seq<char>, y: Seq<char>, z: Seq<Seq<char>>, c: char)
    ensures
        join_spec(seq![x + y] + z, c) == x + join_spec(seq![y] + z, c),
{
    if z.len() == 0 {
        assert(seq![x + y] + z =~= seq![x + y]);
        assert(seq![y] + z =~= seq![y]);
        assert(join_spec(seq![x + y], c) == x + y);
        assert(join_spec(seq![y], c) == y);
    } else {
        crate::text::lemma_join_concat(seq![x + y], z, c);
        assert(seq![x + y] + z =~= seq![x + y] + z);
        crate::text::lemma_join_concat(seq![y], z, c);
        assert(join_spec(seq![x + y], c) == x + y);
        assert(join_spec(seq![y], c) == y);
        assert((x + y) + seq![c] + join_spec(z, c) =~= x + (y + seq![c] + join_spec(z, c)));
    }
}

proof fn lemma_join1_split1(s: Seq<char>, c: char)
    ensures
        join_spec(split_spec(s, seq![c]), c) == s,
    decreases s.len(),
{
    crate::text::lemma_split_nonempty(s, seq![c]);
    if s.len() == 0 {
        assert(split_spec(s, seq![c]) == seq![s]);
        assert(join_spec(seq![s], c) == s);
    } else {
        lemma_join1_split1(s.skip(1), c);
        let rest = split_spec(s.skip(1), seq![c]);
        crate::text::lemma_split_nonempty(s.skip(1), seq![c]);
        if crate::text::match_at(s, seq![c], 0, false) {
            assert(crate::text::char_matches(s[0], seq![c][0], false));
            assert(s[0] == c);
            assert(split_spec(s, seq![c]) == seq![Seq::<char>::empty()] + rest);
            crate::text::lemma_join_concat(seq![Seq::<char>::empty()], rest, c);
            assert(join_spec(seq![Seq::<char>::empty()], c) == Seq::<char>::empty());
            assert(Seq::<char>::empty() + seq![c] + join_spec(rest, c) =~= seq![c] + s.skip(1));
            assert(seq![c] + s.skip(1) =~= s);
        } else {
            if s[0] == c {
                assert(crate::text::char_matches(s[0], seq![c][0], false));
            }
            assert(split_spec(s, seq![c]) == seq![seq![s[0]] + rest[0]] + rest.skip(1));
            lemma_join_cons_prefix(seq![s[0]], rest[0], rest.skip(1), c);
            assert(seq![seq![s[0]] + rest[0]] + rest.skip(1) =~~= seq![seq![s[0]] + rest[0]]
                + rest.skip(1));
            assert(seq![rest[0]] + rest.skip(1) =~~= rest);
            assert(join_spec(split_spec(s, seq![c]), c) == seq![s[0]] + join_spec(rest, c));
            assert(seq![s[0]] + s.skip(1) =~= s);
        }
    }
}

proof fn lemma_split1_pieces_keep_chars(s: Seq<char>, c: char, x: char)
    requires
        forall|k: int| 0 <= k < s.len() ==> s[k] != x,
    ensures
        forall|i: int, j: int|
            0 <= i < split_spec(s, seq![c]).len() && 0 <= j < split_spec(s, seq![c])[i].len()
                ==> split_spec(s, seq![c])[i][j] != x,
    decreases s.len(),
{
    if s.len() == 0 {
    } else {
        lemma_split1_pieces_keep_chars(s.skip(1), c, x);
        let rest = split_spec(s.skip(1), seq![c]);
        crate::text::lemma_split_nonempty(s.skip(1), seq![c]);
        if crate::text::match_at(s, seq![c], 0, false) {
            assert(split_spec(s, seq![c]) == seq![Seq::<char>::empty()] + rest);
            assert forall|i: int, j: int|
                0 <= i < split_spec(s, seq![c]).len() && 0 <= j < split_spec(s, seq![c])[i].len()
                    implies split_spec(s, seq![c])[i][j] != x by {
                if i >= 1 {
                    assert(split_spec(s, seq![c])[i] == rest[i - 1]);
                }
            }
        } else {
            assert(split_spec(s, seq![c]) == seq![seq![s[0]] + rest[0]] + rest.skip(1));
            assert forall|i: int, j: int|
                0 <= i < split_spec(s, seq![c]).len() && 0 <= j < split_spec(s, seq![c])[i].len()
                    implies split_spec(s, seq![c])[i][j] != x by {
                if i == 0 {
                    let piece = seq![s[0]] + rest[0];
                    if j == 0 {
                        assert(piece[0] == s[0]);
                    } else {
                        assert(piece[j] == rest[0][j - 1]);
                    }
                } else {
                    assert(split_spec(s, seq![c])[i] == rest.skip(1)[i - 1]);
                    assert(rest.skip(1)[i - 1] == rest[i]);
                }
            }
        }
    }
}

/// Every character of a rendered non-negative timestamp is a digit, a colon
/// or the millisecond separator.
proof fn lemma_ts_chars(ms: int, sep: char)
    requires
        0 <= ms,
    ensures
        forall|k: int|
            0 <= k < timestamp_spec(ms, sep).len() ==> crate::digits::is_digit_char(
                #[trigger] timestamp_spec(ms, sep)[k],
            ) || timestamp_spec(ms, sep)[k] == ':' || timestamp_spec(ms, sep)[k] == sep,
        timestamp_spec(ms, sep).len() >= 1,
{
    let fa = zero_pad_spec(dec_spec(ms / 3600000), 2);
    let fb = zero_pad_spec(dec_spec((ms % 3600000) / 60000), 2);
    let fc = zero_pad_spec(dec_spec((ms % 60000) / 1000), 2);
    let fd = zero_pad_spec(dec_spec(ms % 1000), 3);
    lemma_field_facts(ms / 3600000, 2);
    lemma_field_facts((ms % 3600000) / 60000, 2);
    lemma_field_facts((ms % 60000) / 1000, 2);
    lemma_field_facts(ms % 1000, 3);
    let ts = timestamp_spec(ms, sep);
    assert(ts == fa + seq![':'] + fb + seq![':'] + fc + seq![sep] + fd);
    let la = fa.len() as int;
    let lb = fb.len() as int;
    let lc = fc.len() as int;
    assert forall|k: int|
        0 <= k < ts.len() implies crate::digits::is_digit_char(#[trigger] ts[k]) || ts[k] == ':'
        || ts[k] == sep by {
        if k < la {
            assert(ts[k] == fa[k]);
        } else if k == la {
            assert(ts[k] == ':');
        } else if k < la + 1 + lb {
            assert(ts[k] == fb[k - la - 1]);
        } else if k == la + 1 + lb {
            assert(ts[k] == ':');
        } else if k < la + 1 + lb + 1 + lc {
            assert(ts[k] == fc[k - la - 1 - lb - 1]);
        } else if k == la + 1 + lb + 1 + lc {
            assert(ts[k] == sep);
        } else {
            assert(ts[k] == fd[k - la - 1 - lb - 1 - lc - 1]);
        }
    }
}


/// Text that survives the block format: nonempty, no leading or trailing
/// whitespace, no blank line inside, no carriage returns.
pub open spec fn block_safe_text(t: Seq<char>) -> bool {
    &&& t.len() > 0
    &&& !crate::text::is_space_char(t[0])
    &&& !crate::text::is_space_char(t.last())
    &&& forall|p: int| 0 <= p && p + 1 < t.len() ==> !((#[trigger] t[p]) == '\n' && t[p + 1] == '\n')
    &&& forall|p: int| 0 <= p < t.len() ==> (#[trigger] t[p]) != '\r'
}

/// A caption the round-trip covers: representable non-negative times and
/// block-safe text.
pub open spec fn caption_block_safe(c: crate::caption::CaptionModel) -> bool {
    &&& 0 <= c.start_ms <= 0x7fffffff
    &&& 0 <= c.end_ms <= 0x7fffffff
    &&& block_safe_text(c.text)
}

/// The timing and text of each caption, in order.
pub open spec fn caption_tuples(s: Seq<crate::caption::CaptionModel>) -> Seq<(int, int, Seq<char>)> {
    s.map_values(|c: crate::caption::CaptionModel| (c.start_ms, c.end_ms, c.text))
}

/// One block without its trailing blank line.
#[verifier::opaque]
pub open spec fn body_spec(c: crate::caption::CaptionModel, idx: int) -> Seq<char> {
    dec_spec(idx) + seq!['\n'] + timestamp_spec(c.start_ms, ',') + arrow_spec() + timestamp_spec(
        c.end_ms,
        ',',
    ) + seq!['\n'] + c.text
}

/// The document from position `base` on, each block index one-based.
pub open spec fn blocks_from(s: Seq<crate::caption::CaptionModel>, base: int) -> Seq<char>
    decreases s.len(),
{
    if s.len() == 0 {
        Seq::empty()
    } else {
        srt_block_spec(s[0], base) + blocks_from(s.skip(1), base + 1)
    }
}

/// The document bodies joined by blank lines, with no trailing blank line.
pub open spec fn bodies_from(s: Seq<crate::caption::CaptionModel>, base: int) -> Seq<char>
    decreases s.len(),
{
    if s.len() == 0 {
        Seq::empty()
    } else if s.len() == 1 {
        body_spec(s[0], base)
    } else {
        body_spec(s[0], base) + seq!['\n', '\n'] + bodies_from(s.skip(1), base + 1)
    }
}

#[verifier::rlimit(100)]
#[verifier::spinoff_prover]
proof fn lemma_blocks_snoc(s: Seq<crate::caption::CaptionModel>, base: int)
    requires
        s.len() >= 1,
    ensures
        blocks_from(s, base) == blocks_from(s.drop_last(), base) + srt_block_spec(
            s.last(),
            base + s.len() - 1,
        ),
    decreases s.len(),
{
    if s.len() == 1 {
        assert(s.drop_last().len() == 0);
        assert(s.skip(1).len() == 0);
        assert(blocks_from(s.skip(1), base + 1) == Seq::<char>::empty());
        assert(blocks_from(s.drop_last(), base) == Seq::<char>::empty());
        assert(blocks_from(s, base) == srt_block_spec(s[0], base) + blocks_from(
            s.skip(1),
            base + 1,
        ));
        assert(blocks_from(s, base) =~= Seq::<char>::empty() + srt_block_spec(s.last(), base));
    } else {
        lemma_blocks_snoc(s.skip(1), base + 1);
        assert(s.skip(1).drop_last() =~= s.drop_last().skip(1));
        assert(s.skip(1).last() == s.last());
        assert(blocks_from(s.drop_last(), base) == srt_block_spec(s[0], base) + blocks_from(
            s.drop_last().skip(1),
            base + 1,
        ));
        assert(srt_block_spec(s[0], base) + (blocks_from(s.drop_last().skip(1), base + 1)
            + srt_block_spec(s.last(), base + s.len() - 1)) =~= (srt_block_spec(s[0], base)
            + blocks_from(s.drop_last().skip(1), base + 1)) + srt_block_spec(
            s.last(),
            base + s.len() - 1,
        ));
    }
}

proof fn lemma_format_as_blocks(s: Seq<crate::caption::CaptionModel>)
    ensures
        srt_format_spec(s) == blocks_from(s, 1),
    decreases s.len(),
{
    if s.len() > 0 {
        lemma_format_as_blocks(s.drop_last());
        lemma_blocks_snoc(s, 1);
    }
}

#[verifier::rlimit(80)]
proof fn lemma_blocks_eq_bodies(s: Seq<crate::caption::CaptionModel>, base: int)
    requires
        s.len() >= 1,
    ensures
        blocks_from(s, base) == bodies_from(s, base) + seq!['\n', '\n'],
    decreases s.len(),
{
    reveal(srt_block_spec);
    reveal(body_spec);
    assert(srt_block_spec(s[0], base) =~= body_spec(s[0], base) + seq!['\n', '\n']);
    if s.len() == 1 {
        assert(s.skip(1).len() == 0);
        assert(blocks_from(s.skip(1), base + 1) == Seq::<char>::empty());
        assert(blocks_from(s, base) =~= srt_block_spec(s[0], base) + Seq::<char>::empty());
        assert(bodies_from(s, base) == body_spec(s[0], base));
        assert(blocks_from(s, base) =~= bodies_from(s, base) + seq!['\n', '\n']);
    } else {
        lemma_blocks_eq_bodies(s.skip(1), base + 1);
        assert(blocks_from(s, base) =~= (body_spec(s[0], base) + seq!['\n', '\n'] + bodies_from(
            s.skip(1),
            base + 1,
        )) + seq!['\n', '\n']);
    }
}

proof fn lemma_line_chars(c: crate::caption::CaptionModel)
    requires
        caption_block_safe(c),
    ensures
        ({
            let l = timestamp_spec(c.start_ms, ',') + arrow_spec() + timestamp_spec(c.end_ms, ',');
            &&& l.len() >= 1
            &&& forall|k: int| 0 <= k < l.len() ==> (#[trigger] l[k]) != '\n' && l[k] != '\r'
            &&& forall|k: int|
                0 <= k < timestamp_spec(c.start_ms, ',').len() ==> (#[trigger] timestamp_spec(
                    c.start_ms,
                    ',',
                )[k]) != ' '
            &&& forall|k: int|
                0 <= k < timestamp_spec(c.end_ms, ',').len() ==> (#[trigger] timestamp_spec(
                    c.end_ms,
                    ',',
                )[k]) != ' '
        }),
{
    let t1 = timestamp_spec(c.start_ms, ',');
    let t2 = timestamp_spec(c.end_ms, ',');
    let l = t1 + arrow_spec() + t2;
    lemma_ts_chars(c.start_ms, ',');
    lemma_ts_chars(c.end_ms, ',');
    assert forall|k: int| 0 <= k < l.len() implies (#[trigger] l[k]) != '\n' && l[k] != '\r' by {
        if k < t1.len() {
            assert(l[k] == t1[k]);
        } else if k < t1.len() + 5 {
            assert(l[k] == arrow_spec()[k - t1.len()]);
        } else {
            assert(l[k] == t2[k - t1.len() - 5]);
        }
    }
}

#[verifier::rlimit(80)]
proof fn lemma_body_facts(c: crate::caption::CaptionModel, idx: int)
    requires
        caption_block_safe(c),
        idx >= 1,
    ensures
        ({
            let bd = body_spec(c, idx);
            &&& bd.len() >= 1
            &&& crate::digits::is_digit_char(bd[0])
            &&& !crate::text::is_space_char(bd[0])
            &&& !crate::text::is_space_char(bd.last())
            &&& bd.last() != '\n'
            &&& forall|p: int|
                0 <= p && p + 1 < bd.len() ==> !((#[trigger] bd[p]) == '\n' && bd[p + 1] == '\n')
        }),
{
    reveal(body_spec);
    let d = dec_spec(idx);
    let l = timestamp_spec(c.start_ms, ',') + arrow_spec() + timestamp_spec(c.end_ms, ',');
    let t = c.text;
    let bd = body_spec(c, idx);
    crate::digits::lemma_dec_spec_digits(idx);
    lemma_line_chars(c);
    lemma_ts_chars(c.start_ms, ',');
    assert(bd =~= d + seq!['\n'] + l + seq!['\n'] + t);
    let ld = d.len() as int;
    let ll = l.len() as int;
    assert(bd[0] == d[0]);
    assert(crate::digits::is_digit_char(d[0]));
    assert(bd.last() == t.last());
    assert forall|p: int|
        0 <= p && p + 1 < bd.len() implies !((#[trigger] bd[p]) == '\n' && bd[p + 1] == '\n') by {
        if p < ld {
            assert(bd[p] == d[p]);
            assert(crate::digits::is_digit_char(d[p]));
        } else if p == ld {
            assert(bd[p + 1] == l[0]);
        } else if p < ld + 1 + ll {
            assert(bd[p] == l[p - ld - 1]);
        } else if p == ld + 1 + ll {
            assert(bd[p + 1] == t[0]);
        } else {
            assert(bd[p] == t[p - ld - ll - 2]);
            assert(bd[p + 1] == t[p + 1 - ld - ll - 2]);
        }
    }
}

#[verifier::rlimit(80)]
proof fn lemma_parse_body(c: crate::caption::CaptionModel, idx: int)
    requires
        caption_block_safe(c),
        idx >= 1,
    ensures
        parse_block_spec(body_spec(c, idx)) == Result::<
            Option<(int, int, Seq<char>)>,
            ParseError,
        >::Ok(Option::Some((c.start_ms, c.end_ms, c.text))),
{
    reveal(body_spec);
    let d = dec_spec(idx);
    let t1 = timestamp_spec(c.start_ms, ',');
    let t2 = timestamp_spec(c.end_ms, ',');
    let l = t1 + arrow_spec() + t2;
    let t = c.text;
    let bd = body_spec(c, idx);
    crate::digits::lemma_dec_spec_digits(idx);
    lemma_digits_plain(d);
    lemma_line_chars(c);
    lemma_body_facts(c, idx);
    lemma_trim_id(bd);

    // the block's lines: index line, timestamp line, then the text's lines
    assert(bd =~= d + seq!['\n'] + (l + seq!['\n'] + t));
    lemma_split1_concat(d, l + seq!['\n'] + t, '\n');
    lemma_split1_concat(l, t, '\n');
    let raw = split_spec(bd, seq!['\n']);
    assert(raw =~~= seq![d, l] + split_spec(t, seq!['\n']));
    crate::text::lemma_split_nonempty(t, seq!['\n']);

    // no carriage returns anywhere, so the line mapping changes nothing
    lemma_split1_pieces_keep_chars(t, '\n', '\r');
    let lines = crate::text::lines_spec(bd);
    assert forall|i: int| 0 <= i < raw.len() implies crate::text::strip_cr_spec(raw[i]) == raw[i] by {
        if i == 0 {
            assert(raw[i] == d);
            if d.len() > 0 {
                assert(d.last() != '\r');
            }
        } else if i == 1 {
            assert(raw[i] == l);
            if l.len() > 0 {
                assert(l.last() != '\r');
            }
        } else {
            assert(raw[i] == split_spec(t, seq!['\n'])[i - 2]);
            let piece = split_spec(t, seq!['\n'])[i - 2];
            if piece.len() > 0 {
                assert(piece[piece.len() - 1] != '\r');
            }
        }
    }
    assert(lines =~~= raw);
    assert(lines.len() >= 2);
    assert(lines[1] == l);

    // the timestamp line splits at the arrow into the two timestamps
    assert forall|p: int| 0 <= p < t1.len() implies !crate::text::match_at(
        l,
        arrow_spec(),
        p,
        false,
    ) by {
        if crate::text::match_at(l, arrow_spec(), p, false) {
            assert(crate::text::char_matches(l[p + 0], arrow_spec()[0], false));
            assert(l[p] == ' ');
            assert(l[p] == t1[p]);
        }
    }
    assert(l =~= t1 + arrow_spec() + t2);
    lemma_split_concat_gen(t1, t2, arrow_spec());
    assert forall|p: int| 0 <= p implies !crate::text::match_at(t2, arrow_spec(), p, false) by {
        if crate::text::match_at(t2, arrow_spec(), p, false) {
            assert(crate::text::char_matches(t2[p + 0], arrow_spec()[0], false));
            assert(t2[p] == ' ');
        }
    }
    lemma_split_absent_gen(t2, arrow_spec());
    let parts = split_spec(l, arrow_spec());
    assert(parts =~~= seq![t1, t2]);
    assert(parts.len() == 2);

    // both timestamps parse back to their times
    lemma_timestamp_roundtrip(c.start_ms);
    lemma_timestamp_roundtrip(c.end_ms);

    // the remaining lines joined with newlines give the text back
    assert(lines.skip(2) =~~= split_spec(t, seq!['\n']));
    lemma_join1_split1(t, '\n');
    assert(crate::text::join_spec(lines.skip(2), '\n') == t);
}

#[verifier::rlimit(80)]
proof fn lemma_parse_bodies(s: Seq<crate::caption::CaptionModel>, base: int)
    requires
        s.len() >= 1,
        base >= 1,
        forall|k: int| 0 <= k < s.len() ==> caption_block_safe(#[trigger] s[k]),
    ensures
        parse_blocks_spec(split_spec(bodies_from(s, base), seq!['\n', '\n'])) == Result::<
            Seq<(int, int, Seq<char>)>,
            ParseError,
        >::Ok(caption_tuples(s)),
    decreases s.len(),
{
    let nn = seq!['\n', '\n'];
    let bd = body_spec(s[0], base);
    lemma_body_facts(s[0], base);
    lemma_parse_body(s[0], base);
    if s.len() == 1 {
        assert forall|p: int| 0 <= p implies !crate::text::match_at(bd, nn, p, false) by {
            if crate::text::match_at(bd, nn, p, false) {
                assert(crate::text::char_matches(bd[p + 0], nn[0], false));
                assert(crate::text::char_matches(bd[p + 1], nn[1], false));
                assert(bd[p] == '\n' && bd[p + 1] == '\n');
                if p + 1 == bd.len() - 1 {
                    assert(bd.last() == '\n');
                }
            }
        }
        lemma_split_absent_gen(bd, nn);
        let bs = split_spec(bodies_from(s, base), nn);
        assert(bs == seq![bd]);
        assert(bs.skip(1).len() == 0);
        assert(parse_blocks_spec(bs.skip(1)) == Result::<
            Seq<(int, int, Seq<char>)>,
            ParseError,
        >::Ok(Seq::empty()));
        assert(seq![(s[0].start_ms, s[0].end_ms, s[0].text)] + Seq::<(
            int,
            int,
            Seq<char>,
        )>::empty() =~~= caption_tuples(s));
    } else {
        let rest = bodies_from(s.skip(1), base + 1);
        assert(bodies_from(s, base) == bd + nn + rest);
        let whole = bd + nn + rest;
        assert forall|p: int| 0 <= p < bd.len() implies !crate::text::match_at(
            whole,
            nn,
            p,
            false,
        ) by {
            if crate::text::match_at(whole, nn, p, false) {
                assert(crate::text::char_matches(whole[p + 0], nn[0], false));
                assert(crate::text::char_matches(whole[p + 1], nn[1], false));
                assert(whole[p] == '\n' && whole[p + 1] == '\n');
                assert(whole[p] == bd[p]);
                if p + 1 < bd.len() {
                    assert(whole[p + 1] == bd[p + 1]);
                } else {
                    assert(p == bd.len() - 1);
                    assert(bd.last() == '\n');
                }
            }
        }
        lemma_split_concat_gen(bd, rest, nn);
        assert forall|k: int| 0 <= k < s.skip(1).len() implies caption_block_safe(
            #[trigger] s.skip(1)[k],
        ) by {
            assert(s.skip(1)[k] == s[k + 1]);
        }
        lemma_parse_bodies(s.skip(1), base + 1);
        let bs = split_spec(bodies_from(s, base), nn);
        assert(bs == seq![bd] + split_spec(rest, nn));
        assert(bs[0] == bd);
        assert(bs.skip(1) =~~= split_spec(rest, nn));
        assert(parse_blocks_spec(bs.skip(1)) == Result::<
            Seq<(int, int, Seq<char>)>,
            ParseError,
        >::Ok(caption_tuples(s.skip(1))));
        assert(seq![(s[0].start_ms, s[0].end_ms, s[0].text)] + caption_tuples(s.skip(1))
            =~~= caption_tuples(s));
    }
}

proof fn lemma_bodies_ends(s: Seq<crate::caption::CaptionModel>, base: int)
    requires
        s.len() >= 1,
        base >= 1,
        forall|k: int| 0 <= k < s.len() ==> caption_block_safe(#[trigger] s[k]),
    ensures
        bodies_from(s, base).len() >= 1,
        !crate::text::is_space_char(bodies_from(s, base)[0]),
        !crate::text::is_space_char(bodies_from(s, base).last()),
    decreases s.len(),
{
    lemma_body_facts(s[0], base);
    if s.len() == 1 {
    } else {
        assert forall|k: int| 0 <= k < s.skip(1).len() implies caption_block_safe(
            #[trigger] s.skip(1)[k],
        ) by {
            assert(s.skip(1)[k] == s[k + 1]);
        }
        lemma_bodies_ends(s.skip(1), base + 1);
        let bd = body_spec(s[0], base);
        let rest = bodies_from(s.skip(1), base + 1);
        let whole = bodies_from(s, base);
        assert(whole[0] == bd[0]);
        assert(whole.last() == rest.last());
    }
}

/// Parsing a rendered document gives every caption's timing and text back,
/// in order: the codec's parse direction inverts its format direction for
/// any caption list with representable non-negative times and block-safe
/// texts. With sorted start times, re-importing a rendered document and
/// rendering again therefore reproduces the document.
#[verifier::rlimit(100)]
#[verifier::spinoff_prover]
pub proof fn lemma_format_parse_roundtrip(s: Seq<crate::caption::CaptionModel>)
    requires
        forall|k: int| 0 <= k < s.len() ==> caption_block_safe(#[trigger] s[k]),
    ensures
        parse_srt_spec(srt_format_spec(s)) == Result::<
            Seq<(int, int, Seq<char>)>,
            ParseError,
        >::Ok(caption_tuples(s)),
{
    lemma_format_as_blocks(s);
    let nn = seq!['\n', '\n'];
    if s.len() == 0 {
        let doc = srt_format_spec(s);
        assert(doc.len() == 0);
        assert(trim_spec(doc) == doc);
        let bs = split_spec(doc, nn);
        assert(bs == seq![doc]);
        let lines = crate::text::lines_spec(trim_spec(doc));
        assert(split_spec(doc, seq!['\n']) == seq![doc]);
        assert(lines =~~= seq![crate::text::strip_cr_spec(doc)]);
        assert(lines.len() == 1);
        assert(parse_block_spec(doc) == Result::<
            Option<(int, int, Seq<char>)>,
            ParseError,
        >::Ok(Option::None));
        assert(bs.skip(1).len() == 0);
        assert(parse_blocks_spec(bs.skip(1)) == Result::<
            Seq<(int, int, Seq<char>)>,
            ParseError,
        >::Ok(Seq::empty()));
        assert(parse_blocks_spec(bs) == Result::<Seq<(int, int, Seq<char>)>, ParseError>::Ok(
            Seq::empty(),
        ));
        assert(caption_tuples(s) =~~= Seq::<(int, int, Seq<char>)>::empty());
        assert(parse_srt_spec(srt_format_spec(s)) == parse_blocks_spec(bs));
    } else {
        lemma_blocks_eq_bodies(s, 1);
        lemma_bodies_ends(s, 1);
        let bodies = bodies_from(s, 1);
        let doc = bodies + nn;
        assert(srt_format_spec(s) == doc);
        // trimming strips exactly the final blank line
        assert(doc[0] == bodies[0]);
        assert(crate::text::drop_leading_ws(doc) == doc);
        assert(doc.last() == '\n');
        assert(doc.drop_last() =~= bodies + seq!['\n']);
        assert((bodies + seq!['\n']).last() == '\n');
        assert((bodies + seq!['\n']).drop_last() =~= bodies);
        assert(crate::text::drop_trailing_ws(doc) == crate::text::drop_trailing_ws(
            bodies + seq!['\n'],
        ));
        assert(crate::text::drop_trailing_ws(bodies + seq!['\n'])
            == crate::text::drop_trailing_ws(bodies));
        assert(crate::text::drop_trailing_ws(bodies) == bodies);
        assert(trim_spec(doc) == bodies);
        lemma_parse_bodies(s, 1);
        assert(parse_srt_spec(srt_format_spec(s)) == parse_blocks_spec(split_spec(bodies, nn)));
    }
}


proof fn lemma_format_depends_on_tuples(
    a: Seq<crate::caption::CaptionModel>,
    b: Seq<crate::caption::CaptionModel>,
)
    requires
        a.len() == b.len(),
        forall|k: int|
            0 <= k < a.len() ==> (#[trigger] a[k]).start_ms == b[k].start_ms && a[k].end_ms
                == b[k].end_ms && a[k].text == b[k].text,
    ensures
        srt_format_spec(a) == srt_format_spec(b),
    decreases a.len(),
{
    if a.len() > 0 {
        assert forall|k: int|
            0 <= k < a.drop_last().len() implies (#[trigger] a.drop_last()[k]).start_ms
            == b.drop_last()[k].start_ms && a.drop_last()[k].end_ms == b.drop_last()[k].end_ms
            && a.drop_last()[k].text == b.drop_last()[k].text by {
            assert(a.drop_last()[k] == a[k]);
            assert(b.drop_last()[k] == b[k]);
        }
        lemma_format_depends_on_tuples(a.drop_last(), b.drop_last());
        reveal(srt_block_spec);
        assert(srt_block_spec(a.last(), a.len() as int) == srt_block_spec(
            b.last(),
            b.len() as int,
        ));
    }
}

/// Rendering, parsing the rendered document back in as an import does
/// (fresh ids, a re-sort by start time), and rendering again reproduces the
/// document exactly, for any sorted caption list with representable
/// non-negative times and block-safe texts.
pub proof fn lemma_format_import_format(s: Seq<crate::caption::CaptionModel>)
    requires
        crate::store::sorted_by_start(s),
        forall|k: int| 0 <= k < s.len() ==> caption_block_safe(#[trigger] s[k]),
    ensures
        parse_srt_spec(srt_format_spec(s)) is Ok,
        srt_format_spec(
            crate::store::sort_by_start(
                crate::store::captions_from_tuples(parse_srt_spec(srt_format_spec(s))->Ok_0),
            ),
        ) == srt_format_spec(s),
{
    lemma_format_parse_roundtrip(s);
    let ts = caption_tuples(s);
    let imported = crate::store::captions_from_tuples(ts);
    assert(imported.len() == s.len());
    assert forall|k: int|
        0 <= k < imported.len() implies (#[trigger] imported[k]).start_ms == s[k].start_ms
        && imported[k].end_ms == s[k].end_ms && imported[k].text == s[k].text by {
        assert(ts[k] == (s[k].start_ms, s[k].end_ms, s[k].text));
    }
    assert(crate::store::sorted_by_start(imported));
    crate::store::lemma_sort_of_sorted(imported);
    lemma_format_depends_on_tuples(imported, s);
}

} // verus!
