//! Stateless timeline coordinate math over a zoom/pan pair: click-to-time,
//! wheel zoom and drag pan. Zoom scale is held in thousandths (1000 is
//! unzoomed), offsets and pixel positions in whole pixels, so every step is
//! exact integer arithmetic.
use vstd::prelude::*;
use vstd::arithmetic::div_mod::{lemma_div_is_ordered, lemma_div_multiples_vanish};

verus! {

/// The zoom bound in thousandths, one million million (a zoom factor of
/// 10^12): a machine limit, not a policy. The coordinate math is exact
/// 64-bit integer arithmetic, and at the widest supported window the world
/// width at this zoom is 10^18 pixels, at the edge of the signed 64-bit pan
/// offset; 152 consecutive zoom-in steps of 1.2 from rest are needed to
/// reach it. Below the bound a zoom-in multiplies the scale by exactly 1.2;
/// at the bound it leaves it there.
pub const SCALE_MAX_MILLI: u64 = 1000000000000000;

/// The widest supported timeline window, one million pixels: a machine
/// limit keeping the world width at full zoom within the signed 64-bit pan
/// offset.
pub const WIDTH_MAX: u64 = 1000000;

/// A zoom/pan pair over a timeline of known pixel width: `scale_milli` is
/// the zoom in thousandths, `offset` the horizontal pan in pixels.
#[derive(Clone, Copy, PartialEq, Eq, Structural, Debug)]
pub struct TimelineTransform {
    pub scale_milli: u64,
    pub offset: i64,
}

/// The world width of a zoomed timeline, in pixels.
pub open spec fn world_width(width: int, scale_milli: int) -> int {
    width * scale_milli / 1000
}

/// A transform valid for a timeline `width` pixels wide: the scale is at
/// least 1.0 and at most the zoom bound, and the offset lies between zero
/// and the world width minus the window width.
pub open spec fn transform_wf(t: TimelineTransform, width: int) -> bool {
    &&& 1000 <= t.scale_milli <= SCALE_MAX_MILLI
    &&& 0 <= t.offset <= world_width(width, t.scale_milli as int) - width
}

/// `x` clamped to `[lo, hi]`.
pub open spec fn clamp_spec(x: int, lo: int, hi: int) -> int {
    if x < lo {
        lo
    } else if x > hi {
        hi
    } else {
        x
    }
}

/// The scale after one wheel step: multiplied or divided by 1.2 (exactly,
/// in thousandths, truncating), then clamped to `[1.0, the zoom bound]`.
pub open spec fn wheel_scale_spec(scale: int, zoom_in: bool) -> int {
    let raw = if zoom_in {
        scale * 6 / 5
    } else {
        scale * 5 / 6
    };
    clamp_spec(raw, 1000, SCALE_MAX_MILLI as int)
}

/// The transform after one wheel step at `mouse_x`: the new scale per
/// [`wheel_scale_spec`], and the offset recomputed so the time fraction
/// under the cursor stays put, then clamped to the valid range.
pub open spec fn wheel_spec(t: TimelineTransform, width: int, mouse_x: int, zoom_in: bool) -> (
    int,
    int,
) {
    let ns = wheel_scale_spec(t.scale_milli as int, zoom_in);
    let raw_offset = (t.offset + mouse_x) * ns / (t.scale_milli as int) - mouse_x;
    (ns, clamp_spec(raw_offset, 0, world_width(width, ns) - width))
}

/// The transform after a pan by the mouse movement: the offset moves by the
/// negative pixel delta, clamped to the valid range; the scale is kept.
pub open spec fn pan_spec(t: TimelineTransform, width: int, start_x: int, cur_x: int) -> int {
    clamp_spec(
        t.offset - (cur_x - start_x),
        0,
        world_width(width, t.scale_milli as int) - width,
    )
}

/// The timeline time under a click, in milliseconds: the world position as
/// a fraction of the world width, times the duration, truncated.
pub open spec fn click_time_spec(
    t: TimelineTransform,
    duration_ms: int,
    width: int,
    mouse_x: int,
) -> int {
    (mouse_x + t.offset) * duration_ms * 1000 / (width * t.scale_milli as int)
}

/// The world width at any supported window and zoom fits the signed 64-bit
/// pan offset.
proof fn lemma_world_width_cap(width: int, scale: int)
    requires
        1 <= width <= WIDTH_MAX,
        1000 <= scale <= SCALE_MAX_MILLI,
    ensures
        0 <= world_width(width, scale) <= 1000000000000000000,
{
    assert(0 <= width * scale <= (WIDTH_MAX as int) * (SCALE_MAX_MILLI as int))
        by (nonlinear_arith)
        requires
            1 <= width <= WIDTH_MAX,
            1000 <= scale <= SCALE_MAX_MILLI,
    ;
    lemma_div_is_ordered(0, width * scale, 1000);
    lemma_div_is_ordered(width * scale, (WIDTH_MAX as int) * (SCALE_MAX_MILLI as int), 1000);
    assert((WIDTH_MAX as int) * (SCALE_MAX_MILLI as int) / 1000 == 1000000000000000000);
}

/// A world width at least as wide as the window, for any valid scale.
proof fn lemma_world_width_bounds(width: int, scale: int)
    requires
        1 <= width,
        1000 <= scale <= SCALE_MAX_MILLI,
    ensures
        width <= world_width(width, scale),
        world_width(width, scale) <= width * scale,
{
    assert(width * 1000 <= width * scale) by (nonlinear_arith)
        requires
            1 <= width && 1000 <= scale,
    ;
    assert(width * 1000 / 1000 == width) by (nonlinear_arith);
    assert(width * 1000 / 1000 <= width * scale / 1000) by (nonlinear_arith)
        requires
            width * 1000 <= width * scale,
    ;
    assert(width * scale / 1000 <= width * scale) by (nonlinear_arith)
        requires
            0 <= width * scale,
    ;
}

impl TimelineTransform {
    /// Builds a transform from its two fields.
    pub fn new(scale_milli: u64, offset: i64) -> (t: TimelineTransform)
        ensures
            t.scale_milli == scale_milli,
            t.offset == offset,
    {
        TimelineTransform { scale_milli, offset }
    }
}

/// One wheel step: zoom in when the wheel delta is negative, out otherwise,
/// holding the time fraction under the cursor fixed. The result is always
/// valid for the given width — the scale never drops below 1.0 and the
/// offset never leaves `[0, world width - width]` — so any sequence of
/// wheel events keeps the transform valid. The duration is carried for
/// interface fidelity; the step does not depend on it.
///
/// The preconditions are machine limits and the input domain, nothing more:
/// the window width is capped so the world width at full zoom fits the
/// 64-bit offset, and the cursor is a window-relative pixel position, so it
/// lies within the window.
pub fn transform_handle_wheel(
    current_transform: TimelineTransform,
    duration_ms: u64,
    timeline_width: u64,
    mouse_x: i64,
    wheel_delta: i64,
) -> (t: TimelineTransform)
    requires
        1 <= timeline_width <= WIDTH_MAX,
        transform_wf(current_transform, timeline_width as int),
        0 <= mouse_x <= timeline_width,
    ensures
        ({
            let (ns, no) = wheel_spec(
                current_transform,
                timeline_width as int,
                mouse_x as int,
                wheel_delta < 0,
            );
            t.scale_milli as int == ns && t.offset as int == no
        }),
        transform_wf(t, timeline_width as int),
        t.scale_milli >= 1000,
        0 <= t.offset <= world_width(timeline_width as int, t.scale_milli as int)
            - timeline_width,
{
    let zoom_in = wheel_delta < 0;
    let cur_scale = current_transform.scale_milli;
    let raw_scale: u64 = if zoom_in {
        proof {
            assert(cur_scale * 6 <= SCALE_MAX_MILLI * 6) by (nonlinear_arith)
                requires
                    cur_scale <= SCALE_MAX_MILLI,
            ;
        }
        cur_scale * 6 / 5
    } else {
        cur_scale * 5 / 6
    };
    let new_scale: u64 = if raw_scale < 1000 {
        1000
    } else if raw_scale > SCALE_MAX_MILLI {
        SCALE_MAX_MILLI
    } else {
        raw_scale
    };
    proof {
        lemma_world_width_bounds(timeline_width as int, cur_scale as int);
        lemma_world_width_bounds(timeline_width as int, new_scale as int);
    }
    proof {
        let ww = world_width(timeline_width as int, cur_scale as int);
        assert(current_transform.offset + mouse_x <= ww);
        assert(ww <= (WIDTH_MAX as int) * (SCALE_MAX_MILLI as int)) by (nonlinear_arith)
            requires
                ww <= timeline_width * cur_scale,
                1 <= timeline_width <= WIDTH_MAX,
                1000 <= cur_scale <= SCALE_MAX_MILLI,
        ;
        assert((current_transform.offset as int + mouse_x as int) * (new_scale as int) <= (
        WIDTH_MAX as int) * (SCALE_MAX_MILLI as int) * (SCALE_MAX_MILLI as int))
            by (nonlinear_arith)
            requires
                0 <= current_transform.offset as int + mouse_x as int <= (WIDTH_MAX as int) * (
                SCALE_MAX_MILLI as int),
                1000 <= new_scale as int <= SCALE_MAX_MILLI as int,
        ;
    }
    let num: i128 = (current_transform.offset as i128 + mouse_x as i128) * (new_scale as i128);
    let raw_offset: i128 = num / (cur_scale as i128) - (mouse_x as i128);
    proof {
        assert(0 <= (num as int) / (cur_scale as int)) by (nonlinear_arith)
            requires
                num >= 0,
                cur_scale >= 1000,
        ;
        assert((num as int) / (cur_scale as int) <= num as int) by (nonlinear_arith)
            requires
                num >= 0,
                cur_scale >= 1000,
        ;
    }
    let max_offset: i64 = {
        proof {
            assert(timeline_width * new_scale <= WIDTH_MAX * SCALE_MAX_MILLI) by (nonlinear_arith)
                requires
                    1 <= timeline_width <= WIDTH_MAX,
                    1000 <= new_scale <= SCALE_MAX_MILLI,
            ;
            lemma_world_width_cap(timeline_width as int, new_scale as int);
        }
        let ww: u64 = ((timeline_width as u128) * (new_scale as u128) / 1000) as u64;
        (ww - timeline_width) as i64
    };
    let clamped: i128 = if raw_offset < 0 {
        0
    } else if raw_offset > max_offset as i128 {
        max_offset as i128
    } else {
        raw_offset
    };
    let t = TimelineTransform { scale_milli: new_scale, offset: clamped as i64 };
    proof {
        assert(t.offset as int == clamp_spec(
            (current_transform.offset as int + mouse_x as int) * (new_scale as int) / (
            cur_scale as int) - mouse_x as int,
            0,
            world_width(timeline_width as int, new_scale as int) - timeline_width as int,
        ));
    }
    t
}

/// A drag pan: the offset moves by the negative of the pixel delta and is
/// clamped to the valid range; the scale is unchanged. The result is always
/// valid for the given width. The mouse coordinates are bounded by a plain
/// machine range far beyond any window.
pub fn transform_handle_pan_move(
    start_transform: TimelineTransform,
    timeline_width: u64,
    start_mouse_x: i64,
    current_mouse_x: i64,
) -> (t: TimelineTransform)
    requires
        1 <= timeline_width <= WIDTH_MAX,
        transform_wf(start_transform, timeline_width as int),
        -0x100000000 <= start_mouse_x <= 0x100000000,
        -0x100000000 <= current_mouse_x <= 0x100000000,
    ensures
        t.scale_milli == start_transform.scale_milli,
        t.offset as int == pan_spec(
            start_transform,
            timeline_width as int,
            start_mouse_x as int,
            current_mouse_x as int,
        ),
        transform_wf(t, timeline_width as int),
{
    proof {
        lemma_world_width_bounds(timeline_width as int, start_transform.scale_milli as int);
        lemma_world_width_cap(timeline_width as int, start_transform.scale_milli as int);
        assert(timeline_width * start_transform.scale_milli <= WIDTH_MAX * SCALE_MAX_MILLI)
            by (nonlinear_arith)
            requires
                1 <= timeline_width <= WIDTH_MAX,
                1000 <= start_transform.scale_milli <= SCALE_MAX_MILLI,
        ;
    }
    let dx: i64 = current_mouse_x - start_mouse_x;
    let raw: i128 = start_transform.offset as i128 - dx as i128;
    let ww: u64 = ((timeline_width as u128) * (start_transform.scale_milli as u128) / 1000) as u64;
    let max_offset: i64 = (ww - timeline_width) as i64;
    let clamped: i128 = if raw < 0 {
        0
    } else if raw > max_offset as i128 {
        max_offset as i128
    } else {
        raw
    };
    TimelineTransform { scale_milli: start_transform.scale_milli, offset: clamped as i64 }
}

/// The timeline time under a click, in milliseconds, per
/// [`click_time_spec`]. The preconditions are machine limits and the input
/// domain: the window-relative cursor lies within the window, and the
/// duration bound (about 796 days) keeps the exact integer product in
/// range.
pub fn transform_get_time_from_click(
    current_transform: TimelineTransform,
    duration_ms: u64,
    timeline_width: u64,
    mouse_x: i64,
) -> (time_ms: i64)
    requires
        1 <= timeline_width <= WIDTH_MAX,
        transform_wf(current_transform, timeline_width as int),
        0 <= mouse_x <= timeline_width,
        duration_ms <= 0x1000000000,
    ensures
        time_ms as int == click_time_spec(
            current_transform,
            duration_ms as int,
            timeline_width as int,
            mouse_x as int,
        ),
{
    let ghost scale = current_transform.scale_milli as int;
    let ghost w = timeline_width as int;
    proof {
        lemma_world_width_bounds(w, scale);
        assert(w * scale <= (WIDTH_MAX as int) * (SCALE_MAX_MILLI as int)) by (nonlinear_arith)
            requires
                1 <= w <= WIDTH_MAX,
                1000 <= scale <= SCALE_MAX_MILLI,
        ;
        assert(mouse_x as int + current_transform.offset as int <= world_width(w, scale));
    }
    let world_x: i128 = mouse_x as i128 + current_transform.offset as i128;
    proof {
        assert((world_x as int) * (duration_ms as int) <= (WIDTH_MAX as int) * (
        SCALE_MAX_MILLI as int) * 0x1000000000) by (nonlinear_arith)
            requires
                0 <= world_x as int <= (WIDTH_MAX as int) * (SCALE_MAX_MILLI as int),
                0 <= duration_ms <= 0x1000000000,
        ;
    }
    let num: i128 = world_x * (duration_ms as i128) * 1000;
    proof {
        assert(w * scale >= 1000) by (nonlinear_arith)
            requires
                1 <= w,
                1000 <= scale,
        ;
    }
    let den: i128 = (timeline_width as i128) * (current_transform.scale_milli as i128);
    let q: i128 = num / den;
    proof {
        let ni = num as int;
        let di = den as int;
        let bound = (duration_ms as int) * 1000;
        lemma_div_is_ordered(0, ni, di);
        assert(world_x as int <= di);
        assert(ni <= di * bound) by (nonlinear_arith)
            requires
                0 <= world_x as int <= di,
                0 <= duration_ms,
                ni == (world_x as int) * (duration_ms as int) * 1000,
                bound == (duration_ms as int) * 1000,
        ;
        lemma_div_is_ordered(ni, di * bound, di);
        lemma_div_multiples_vanish(bound, di);
        assert(q <= bound);
    }
    q as i64
}

} // verus!
