//! Animated PNG frames: validation, composition onto a canvas, and the
//! lossless structure optimizations (duplicate folding, rectangle shrinking).

use vstd::arithmetic::div_mod::*;
use vstd::arithmetic::mul::*;
use vstd::prelude::*;

use crate::error::AppError;
use crate::text::{decimal, owned, push_decimal, push_str};

verus! {

/// What happens to a frame's region once the frame has been shown.
#[derive(Debug, Clone, Copy, PartialEq, Eq, Structural)]
pub enum DisposeOp {
    /// No disposal: the canvas is left as the frame drew it.
    Keep,
    Background,
    Previous,
}

/// How a frame's pixels are combined with the canvas.
#[derive(Debug, Clone, Copy, PartialEq, Eq, Structural)]
pub enum BlendOp {
    Source,
    Over,
}

/// The default image of an APNG that is not part of the animation.
#[derive(Debug, Clone, PartialEq, Eq)]
pub struct ApngDefaultImage {
    pub rgba: Vec<u8>,
}

/// One animation frame: a rectangle of RGBA pixels placed on the canvas.
#[derive(Debug, Clone, PartialEq, Eq)]
pub struct ApngFrame {
    pub width: u32,
    pub height: u32,
    pub x_offset: u32,
    pub y_offset: u32,
    pub delay_num: u16,
    pub delay_den: u16,
    pub dispose_op: DisposeOp,
    pub blend_op: BlendOp,
    pub rgba: Vec<u8>,
}

/// A decoded animated PNG.
#[derive(Debug, Clone, PartialEq, Eq)]
pub struct ApngImage {
    pub width: u32,
    pub height: u32,
    pub num_plays: u32,
    pub default_image: Option<ApngDefaultImage>,
    pub frames: Vec<ApngFrame>,
}

// ---------------------------------------------------------------- bounds

/// A frame of `fw` x `fh` at (`x`, `y`) is non-empty and lies on a
/// `cw` x `ch` canvas.
pub open spec fn frame_fits(cw: int, ch: int, fw: int, fh: int, x: int, y: int) -> bool {
    &&& fw > 0
    &&& fh > 0
    &&& x + fw <= cw
    &&& y + fh <= ch
}

/// The message for a frame with a zero dimension.
pub open spec fn empty_frame_msg() -> Seq<char> {
    "APNG frame dimensions must be non-zero"@
}

/// The message for a frame that leaves the canvas.
pub open spec fn out_of_bounds_msg(fw: nat, fh: nat, x: nat, y: nat, cw: nat, ch: nat) -> Seq<char> {
    "APNG frame out of bounds: frame="@ + decimal(fw) + "x"@ + decimal(fh) + " at "@ + decimal(x)
        + ","@ + decimal(y) + " on canvas "@ + decimal(cw) + "x"@ + decimal(ch)
}

/// The error that `validate_frame_bounds` reports, if any.
pub open spec fn bounds_error(e: AppError, cw: u32, ch: u32, fw: u32, fh: u32, x: u32, y: u32) -> bool {
    if fw == 0 || fh == 0 {
        e matches AppError::Decode(m) && m@ == empty_frame_msg()
    } else {
        e matches AppError::Decode(m) && m@ == out_of_bounds_msg(
            fw as nat,
            fh as nat,
            x as nat,
            y as nat,
            cw as nat,
            ch as nat,
        )
    }
}

/// Checks that a frame is non-empty and lies on the canvas.
pub fn validate_frame_bounds(
    canvas_width: u32,
    canvas_height: u32,
    frame_width: u32,
    frame_height: u32,
    x_offset: u32,
    y_offset: u32,
) -> (r: Result<(), AppError>)
    ensures
        r is Ok <==> frame_fits(
            canvas_width as int,
            canvas_height as int,
            frame_width as int,
            frame_height as int,
            x_offset as int,
            y_offset as int,
        ),
        r matches Err(e) ==> bounds_error(
            e,
            canvas_width,
            canvas_height,
            frame_width,
            frame_height,
            x_offset,
            y_offset,
        ),
{
    if frame_width == 0 || frame_height == 0 {
        return Err(AppError::Decode(owned("APNG frame dimensions must be non-zero")));
    }
    let in_x_bounds = x_offset <= canvas_width && frame_width <= canvas_width - x_offset;
    let in_y_bounds = y_offset <= canvas_height && frame_height <= canvas_height - y_offset;
    if !in_x_bounds || !in_y_bounds {
        let mut m = owned("APNG frame out of bounds: frame=");
        push_decimal(&mut m, frame_width as u64);
        push_str(&mut m, "x");
        push_decimal(&mut m, frame_height as u64);
        push_str(&mut m, " at ");
        push_decimal(&mut m, x_offset as u64);
        push_str(&mut m, ",");
        push_decimal(&mut m, y_offset as u64);
        push_str(&mut m, " on canvas ");
        push_decimal(&mut m, canvas_width as u64);
        push_str(&mut m, "x");
        push_decimal(&mut m, canvas_height as u64);
        return Err(AppError::Decode(m));
    }
    Ok(())
}

/// The number of bytes of a `width` x `height` RGBA buffer.
pub open spec fn rgba_size(width: int, height: int) -> int {
    width * height * 4
}

/// The message for dimensions whose buffer size overflows `usize`.
pub open spec fn size_overflow_msg() -> Seq<char> {
    "APNG dimensions overflow RGBA buffer size"@
}

/// The byte length of a `width` x `height` RGBA buffer, if it fits `usize`.
pub fn rgba_len(width: u32, height: u32) -> (r: Result<usize, AppError>)
    ensures
        rgba_size(width as int, height as int) <= usize::MAX ==> r == Ok::<usize, AppError>(
            rgba_size(width as int, height as int) as usize,
        ),
        rgba_size(width as int, height as int) > usize::MAX ==> (r matches Err(
            AppError::Decode(m),
        ) && m@ == size_overflow_msg()),
{
    proof {
        assert(rgba_size(width as int, height as int) == (width as int * height as int) * 4);
        assert(0 <= width as int * height as int) by (nonlinear_arith);
    }
    match (width as usize).checked_mul(height as usize) {
        Some(pixels) => match pixels.checked_mul(4) {
            Some(n) => Ok(n),
            None => Err(AppError::Decode(owned("APNG dimensions overflow RGBA buffer size"))),
        },
        None => {
            proof {
                assert(width as int * height as int * 4 >= width as int * height as int)
                    by (nonlinear_arith)
                    requires
                        0 <= width as int * height as int,
                ;
            }
            Err(AppError::Decode(owned("APNG dimensions overflow RGBA buffer size")))
        },
    }
}

/// The byte offset of pixel (`x`, `y`) in a row-major RGBA buffer `width` pixels wide.
pub open spec fn px_offset(width: int, x: int, y: int) -> int {
    (y * width + x) * 4
}

pub(crate) fn rgba_index(width: u32, x: u32, y: u32) -> (r: Result<usize, AppError>)
    ensures
        px_offset(width as int, x as int, y as int) <= usize::MAX ==> r == Ok::<usize, AppError>(
            px_offset(width as int, x as int, y as int) as usize,
        ),
        px_offset(width as int, x as int, y as int) > usize::MAX ==> r matches Err(
            AppError::Decode(_),
        ),
{
    proof {
        assert(0 <= y as int * width as int) by (nonlinear_arith);
    }
    let pixel_index = match (y as usize).checked_mul(width as usize) {
        Some(row) => match row.checked_add(x as usize) {
            Some(p) => p,
            None => { return Err(AppError::Decode(owned("APNG pixel index overflow"))); },
        },
        None => {
            proof {
                assert((y as int * width as int + x as int) * 4 >= y as int * width as int)
                    by (nonlinear_arith)
                    requires
                        0 <= y as int * width as int,
                ;
            }
            return Err(AppError::Decode(owned("APNG pixel index overflow")));
        },
    };
    match pixel_index.checked_mul(4) {
        Some(i) => Ok(i),
        None => Err(AppError::Decode(owned("APNG byte index overflow"))),
    }
}

/// The dispose operation that applies to the frame at `index`: a first
/// frame cannot restore a previous canvas, so it clears instead.
pub open spec fn spec_effective_dispose(frame: ApngFrame, index: int) -> DisposeOp {
    if index == 0 && frame.dispose_op == DisposeOp::Previous {
        DisposeOp::Background
    } else {
        frame.dispose_op
    }
}

pub(crate) fn effective_dispose(frame: &ApngFrame, frame_index: usize) -> (d: DisposeOp)
    ensures
        d == spec_effective_dispose(*frame, frame_index as int),
{
    if frame_index == 0 && frame.dispose_op == DisposeOp::Previous {
        DisposeOp::Background
    } else {
        frame.dispose_op
    }
}

/// The frame-length mismatch message.
pub open spec fn length_mismatch_msg(expected: nat, actual: nat) -> Seq<char> {
    "APNG frame length mismatch: expected="@ + decimal(expected) + ", actual="@ + decimal(actual)
}

/// A frame is well formed on a `cw` x `ch` canvas: it fits, its buffer size
/// fits `usize`, and it holds exactly that many bytes.
pub open spec fn frame_valid(cw: u32, ch: u32, fr: ApngFrame) -> bool {
    &&& frame_fits(
        cw as int,
        ch as int,
        fr.width as int,
        fr.height as int,
        fr.x_offset as int,
        fr.y_offset as int,
    )
    &&& rgba_size(fr.width as int, fr.height as int) <= usize::MAX
    &&& fr.rgba@.len() == rgba_size(fr.width as int, fr.height as int)
}

/// The error that `validate_frame` reports for an ill-formed frame.
pub open spec fn frame_error(e: AppError, cw: u32, ch: u32, fr: ApngFrame) -> bool {
    if !frame_fits(
        cw as int,
        ch as int,
        fr.width as int,
        fr.height as int,
        fr.x_offset as int,
        fr.y_offset as int,
    ) {
        bounds_error(e, cw, ch, fr.width, fr.height, fr.x_offset, fr.y_offset)
    } else if rgba_size(fr.width as int, fr.height as int) > usize::MAX {
        e matches AppError::Decode(m) && m@ == size_overflow_msg()
    } else {
        e matches AppError::Encode(m) && m@ == length_mismatch_msg(
            rgba_size(fr.width as int, fr.height as int) as nat,
            fr.rgba@.len(),
        )
    }
}

/// Checks a frame: its placement, its buffer size and its byte count.
pub fn validate_frame(canvas_width: u32, canvas_height: u32, frame: &ApngFrame) -> (r: Result<
    (),
    AppError,
>)
    ensures
        r is Ok <==> frame_valid(canvas_width, canvas_height, *frame),
        r matches Err(e) ==> frame_error(e, canvas_width, canvas_height, *frame),
{
    validate_frame_bounds(
        canvas_width,
        canvas_height,
        frame.width,
        frame.height,
        frame.x_offset,
        frame.y_offset,
    )?;
    let expected_len = rgba_len(frame.width, frame.height)?;
    if frame.rgba.len() != expected_len {
        let mut m = owned("APNG frame length mismatch: expected=");
        push_decimal(&mut m, expected_len as u64);
        push_str(&mut m, ", actual=");
        push_decimal(&mut m, frame.rgba.len() as u64);
        return Err(AppError::Encode(m));
    }
    Ok(())
}

// ---------------------------------------------------------------- pixel geometry

/// Column of the pixel that byte `i` belongs to, on a canvas `cw` pixels wide.
pub open spec fn byte_x(i: int, cw: int) -> int {
    (i / 4) % cw
}

/// Row of the pixel that byte `i` belongs to, on a canvas `cw` pixels wide.
pub open spec fn byte_y(i: int, cw: int) -> int {
    (i / 4) / cw
}

/// Byte `i` belongs to a pixel of the `w` x `h` rectangle at (`x0`, `y0`).
pub open spec fn in_rect(i: int, cw: int, x0: int, y0: int, w: int, h: int) -> bool {
    &&& x0 <= byte_x(i, cw) < x0 + w
    &&& y0 <= byte_y(i, cw) < y0 + h
}

proof fn lemma_byte_coords(cw: int, x: int, y: int, i: int)
    requires
        cw > 0,
        0 <= x < cw,
        0 <= y,
        px_offset(cw, x, y) <= i < px_offset(cw, x, y) + 4,
    ensures
        i / 4 == y * cw + x,
        i % 4 == i - px_offset(cw, x, y),
        byte_x(i, cw) == x,
        byte_y(i, cw) == y,
{
    lemma_fundamental_div_mod_converse(i, 4, y * cw + x, i - px_offset(cw, x, y));
    lemma_fundamental_div_mod_converse(y * cw + x, cw, y, x);
}

proof fn lemma_coords_locate(cw: int, i: int)
    requires
        cw > 0,
        0 <= i,
    ensures
        0 <= byte_x(i, cw) < cw,
        0 <= byte_y(i, cw),
        px_offset(cw, byte_x(i, cw), byte_y(i, cw)) <= i < px_offset(
            cw,
            byte_x(i, cw),
            byte_y(i, cw),
        ) + 4,
{
    let p = i / 4;
    lemma_fundamental_div_mod(i, 4);
    lemma_fundamental_div_mod(p, cw);
    lemma_mod_bound(p, cw);
    lemma_div_pos_is_pos(p, cw);
    lemma_mul_is_commutative(cw, p / cw);
}

proof fn lemma_px_below(cw: int, x: int, y: int, rows: int)
    requires
        0 <= x < cw,
        0 <= y < rows,
    ensures
        0 <= px_offset(cw, x, y),
        px_offset(cw, x, y) + 4 <= rows * cw * 4,
{
    assert(0 <= px_offset(cw, x, y)) by (nonlinear_arith)
        requires
            0 <= x < cw,
            0 <= y,
    ;
    assert(px_offset(cw, x, y) + 4 <= rows * cw * 4) by (nonlinear_arith)
        requires
            0 <= x < cw,
            0 <= y < rows,
    ;
}

/// Overwrites the four bytes of one pixel.
fn fill_px(canvas: &mut Vec<u8>, off: usize, v: [u8; 4])
    requires
        off + 4 <= old(canvas)@.len(),
    ensures
        final(canvas)@.len() == old(canvas)@.len(),
        forall|i: int|
            0 <= i < old(canvas)@.len() ==> #[trigger] final(canvas)@[i] == if off <= i < off + 4 {
                v[i - off]
            } else {
                old(canvas)@[i]
            },
{
    let n = canvas.len();
    canvas.set(off, v[0]);
    canvas.set(off + 1, v[1]);
    canvas.set(off + 2, v[2]);
    canvas.set(off + 3, v[3]);
}

/// The canvas with the `w` x `h` rectangle at (`x0`, `y0`) made transparent black.
pub open spec fn cleared(c: Seq<u8>, cw: int, x0: int, y0: int, w: int, h: int) -> Seq<u8> {
    Seq::new(c.len(), |i: int| if in_rect(i, cw, x0, y0, w, h) { 0u8 } else { c[i] })
}

pub(crate) fn clear_region(
    canvas: &mut Vec<u8>,
    canvas_width: u32,
    x_offset: u32,
    y_offset: u32,
    width: u32,
    height: u32,
) -> (r: Result<(), AppError>)
    requires
        x_offset + width <= canvas_width,
        y_offset + height <= u32::MAX,
        (y_offset + height) * canvas_width * 4 <= old(canvas)@.len(),
    ensures
        r is Ok,
        final(canvas)@ == cleared(
            old(canvas)@,
            canvas_width as int,
            x_offset as int,
            y_offset as int,
            width as int,
            height as int,
        ),
{
    let ghost old_c = canvas@;
    let ghost cw = canvas_width as int;
    let ghost x0 = x_offset as int;
    let ghost y0 = y_offset as int;
    let ghost w = width as int;
    let ghost rows = (y_offset + height) as int;
    let total = canvas.len();
    let mut y = y_offset;
    while y < y_offset + height
        invariant
            y_offset <= y <= y_offset + height,
            y_offset + height <= u32::MAX,
            x_offset + width <= canvas_width,
            rows == y_offset + height,
            rows * cw * 4 <= old_c.len(),
            old_c.len() == total,
            canvas@.len() == old_c.len(),
            cw == canvas_width,
            x0 == x_offset,
            y0 == y_offset,
            w == width,
            forall|i: int|
                0 <= i < old_c.len() ==> #[trigger] canvas@[i] == if in_rect(
                    i,
                    cw,
                    x0,
                    y0,
                    w,
                    y - y0,
                ) {
                    0u8
                } else {
                    old_c[i]
                },
        decreases y_offset + height - y,
    {
        let mut x = x_offset;
        while x < x_offset + width
            invariant
                y_offset <= y < y_offset + height,
                x_offset <= x <= x_offset + width,
                y_offset + height <= u32::MAX,
                x_offset + width <= canvas_width,
                rows == y_offset + height,
                rows * cw * 4 <= old_c.len(),
                old_c.len() == total,
                canvas@.len() == old_c.len(),
                cw == canvas_width,
                x0 == x_offset,
                y0 == y_offset,
                w == width,
                forall|i: int|
                    0 <= i < old_c.len() ==> #[trigger] canvas@[i] == if in_rect(
                        i,
                        cw,
                        x0,
                        y0,
                        w,
                        y - y0,
                    ) || (byte_y(i, cw) == y && x0 <= byte_x(i, cw) < x) {
                        0u8
                    } else {
                        old_c[i]
                    },
            decreases x_offset + width - x,
        {
            proof {
                lemma_px_below(cw, x as int, y as int, rows);
            }
            let idx = match rgba_index(canvas_width, x, y) {
                Ok(idx) => idx,
                Err(e) => {
                    return Err(e);
                },
            };
            let ghost before = canvas@;
            fill_px(canvas, idx, [0u8, 0u8, 0u8, 0u8]);
            proof {
                assert forall|i: int| 0 <= i < old_c.len() implies #[trigger] canvas@[i] == if in_rect(
                    i,
                    cw,
                    x0,
                    y0,
                    w,
                    y - y0,
                ) || (byte_y(i, cw) == y && x0 <= byte_x(i, cw) < x + 1) {
                    0u8
                } else {
                    old_c[i]
                } by {
                    if idx <= i < idx + 4 {
                        lemma_byte_coords(cw, x as int, y as int, i);
                    } else {
                        lemma_coords_locate(cw, i);
                        if byte_y(i, cw) == y && byte_x(i, cw) == x {
                            assert(false);
                        }
                    }
                }
            }
            x = x + 1;
        }
        proof {
            assert forall|i: int| 0 <= i < old_c.len() implies #[trigger] canvas@[i] == if in_rect(
                i,
                cw,
                x0,
                y0,
                w,
                y + 1 - y0,
            ) {
                0u8
            } else {
                old_c[i]
            } by {
                if cw > 0 {
                    lemma_coords_locate(cw, i);
                }
            }
        }
        y = y + 1;
    }
    proof {
        assert(canvas@ =~= cleared(old_c, cw, x0, y0, w, height as int));
    }
    Ok(())
}

// ---------------------------------------------------------------- blending

/// The four bytes of the pixel starting at `off`.
pub open spec fn px4(s: Seq<u8>, off: int) -> [u8; 4] {
    [s[off], s[off + 1], s[off + 2], s[off + 3]]
}

/// The "over" blend of source pixel `s` onto canvas pixel `d` that `f` computes.
pub open spec fn over_px<F: Fn([u8; 4], [u8; 4]) -> [u8; 4]>(f: F, d: [u8; 4], s: [u8; 4]) -> [u8; 4] {
    choose|r: [u8; 4]| f.ensures((d, s), r)
}

/// `f` blends any canvas pixel with any source pixel, and gives one result for
/// one pair of pixels.
pub open spec fn blend_fn_ok<F: Fn([u8; 4], [u8; 4]) -> [u8; 4]>(f: F) -> bool {
    &&& forall|d: [u8; 4], s: [u8; 4]| #[trigger] f.requires((d, s))
    &&& forall|d: [u8; 4], s: [u8; 4], r1: [u8; 4], r2: [u8; 4]|
        #[trigger] f.ensures((d, s), r1) && #[trigger] f.ensures((d, s), r2) ==> r1 == r2
}

/// The canvas after `fr` is blended onto it: inside the frame's rectangle each
/// pixel is the frame's pixel (`Source`) or the frame's pixel blended over the
/// canvas pixel by `over` (`Over`); outside it the canvas is unchanged.
pub open spec fn blended<F: Fn([u8; 4], [u8; 4]) -> [u8; 4]>(
    c: Seq<u8>,
    cw: int,
    fr: ApngFrame,
    over: F,
) -> Seq<u8> {
    Seq::new(
        c.len(),
        |i: int|
            if in_rect(
                i,
                cw,
                fr.x_offset as int,
                fr.y_offset as int,
                fr.width as int,
                fr.height as int,
            ) {
                let si = px_offset(
                    fr.width as int,
                    byte_x(i, cw) - fr.x_offset,
                    byte_y(i, cw) - fr.y_offset,
                );
                match fr.blend_op {
                    BlendOp::Source => fr.rgba@[si + i % 4],
                    BlendOp::Over => over_px(
                        over,
                        px4(c, px_offset(cw, byte_x(i, cw), byte_y(i, cw))),
                        px4(fr.rgba@, si),
                    )[i % 4],
                }
            } else {
                c[i]
            },
    )
}

/// The frame fits a canvas `cw` pixels wide whose buffer is `len` bytes long,
/// and its own buffer has the right size.
pub open spec fn frame_on_canvas(fr: ApngFrame, cw: int, len: int) -> bool {
    &&& fr.x_offset + fr.width <= cw
    &&& fr.y_offset + fr.height <= u32::MAX
    &&& (fr.y_offset + fr.height) * cw * 4 <= len
    &&& fr.rgba@.len() == rgba_size(fr.width as int, fr.height as int)
}

pub(crate) fn blend_frame<F: Fn([u8; 4], [u8; 4]) -> [u8; 4]>(
    canvas: &mut Vec<u8>,
    canvas_width: u32,
    frame: &ApngFrame,
    over: &F,
) -> (r: Result<(), AppError>)
    requires
        frame_on_canvas(*frame, canvas_width as int, old(canvas)@.len() as int),
        blend_fn_ok(*over),
    ensures
        r is Ok,
        final(canvas)@ == blended(old(canvas)@, canvas_width as int, *frame, *over),
{
    let ghost old_c = canvas@;
    let ghost cw = canvas_width as int;
    let ghost fx = frame.x_offset as int;
    let ghost fy = frame.y_offset as int;
    let ghost fw = frame.width as int;
    let ghost fh = frame.height as int;
    let ghost target = blended(old_c, cw, *frame, *over);
    let total = canvas.len();
    let flen = frame.rgba.len();
    let ghost rows = fy + fh;
    let mut local_y: u32 = 0;
    while local_y < frame.height
        invariant
            local_y <= frame.height,
            frame_on_canvas(*frame, cw, old_c.len() as int),
            blend_fn_ok(*over),
            old_c.len() == total,
            frame.rgba@.len() == flen,
            canvas@.len() == old_c.len(),
            cw == canvas_width,
            fx == frame.x_offset,
            fy == frame.y_offset,
            fw == frame.width,
            fh == frame.height,
            rows == fy + fh,
            target == blended(old_c, cw, *frame, *over),
            forall|i: int|
                0 <= i < old_c.len() ==> #[trigger] canvas@[i] == if in_rect(
                    i,
                    cw,
                    fx,
                    fy,
                    fw,
                    local_y as int,
                ) {
                    target[i]
                } else {
                    old_c[i]
                },
        decreases frame.height - local_y,
    {
        let mut local_x: u32 = 0;
        while local_x < frame.width
            invariant
                local_y < frame.height,
                local_x <= frame.width,
                frame_on_canvas(*frame, cw, old_c.len() as int),
                blend_fn_ok(*over),
                old_c.len() == total,
                frame.rgba@.len() == flen,
                canvas@.len() == old_c.len(),
                cw == canvas_width,
                fx == frame.x_offset,
                fy == frame.y_offset,
                fw == frame.width,
                fh == frame.height,
                rows == fy + fh,
                target == blended(old_c, cw, *frame, *over),
                forall|i: int|
                    0 <= i < old_c.len() ==> #[trigger] canvas@[i] == if in_rect(
                        i,
                        cw,
                        fx,
                        fy,
                        fw,
                        local_y as int,
                    ) || (byte_y(i, cw) == fy + local_y && fx <= byte_x(i, cw) < fx + local_x) {
                        target[i]
                    } else {
                        old_c[i]
                    },
            decreases frame.width - local_x,
        {
            let cx: u32 = frame.x_offset + local_x;
            let cy: u32 = frame.y_offset + local_y;
            proof {
                lemma_px_below(fw, local_x as int, local_y as int, fh);
                lemma_px_below(cw, cx as int, cy as int, rows);
                assert(fh * fw * 4 == fw * fh * 4) by (nonlinear_arith);
            }
            let src_idx = match rgba_index(frame.width, local_x, local_y) {
                Ok(i) => i,
                Err(e) => {
                    return Err(e);
                },
            };
            let dst_idx = match rgba_index(canvas_width, cx, cy) {
                Ok(i) => i,
                Err(e) => {
                    return Err(e);
                },
            };
            let src: [u8; 4] = [
                frame.rgba[src_idx],
                frame.rgba[src_idx + 1],
                frame.rgba[src_idx + 2],
                frame.rgba[src_idx + 3],
            ];
            let value: [u8; 4] = match frame.blend_op {
                BlendOp::Source => src,
                BlendOp::Over => {
                    let dst: [u8; 4] = [
                        canvas[dst_idx],
                        canvas[dst_idx + 1],
                        canvas[dst_idx + 2],
                        canvas[dst_idx + 3],
                    ];
                    proof {
                        lemma_byte_coords(cw, cx as int, cy as int, dst_idx as int);
                        lemma_byte_coords(cw, cx as int, cy as int, dst_idx + 1);
                        lemma_byte_coords(cw, cx as int, cy as int, dst_idx + 2);
                        lemma_byte_coords(cw, cx as int, cy as int, dst_idx + 3);
                        assert(canvas@[dst_idx as int] == old_c[dst_idx as int]);
                        assert(canvas@[dst_idx + 1] == old_c[dst_idx + 1]);
                        assert(canvas@[dst_idx + 2] == old_c[dst_idx + 2]);
                        assert(canvas@[dst_idx + 3] == old_c[dst_idx + 3]);
                        assert(dst == px4(old_c, dst_idx as int));
                    }
                    over(dst, src)
                },
            };
            proof {
                assert forall|k: int| 0 <= k < 4 implies #[trigger] value[k] == target[dst_idx + k] by {
                    lemma_byte_coords(cw, cx as int, cy as int, dst_idx + k);
                    assert(src == px4(frame.rgba@, src_idx as int));
                }
            }
            fill_px(canvas, dst_idx, value);
            proof {
                assert forall|i: int| 0 <= i < old_c.len() implies #[trigger] canvas@[i] == if in_rect(
                    i,
                    cw,
                    fx,
                    fy,
                    fw,
                    local_y as int,
                ) || (byte_y(i, cw) == fy + local_y && fx <= byte_x(i, cw) < fx + local_x + 1) {
                    target[i]
                } else {
                    old_c[i]
                } by {
                    if dst_idx <= i < dst_idx + 4 {
                        lemma_byte_coords(cw, cx as int, cy as int, i);
                        assert(value[i - dst_idx] == target[dst_idx + (i - dst_idx)]);
                    } else {
                        lemma_coords_locate(cw, i);
                        if byte_y(i, cw) == cy && byte_x(i, cw) == cx {
                            assert(false);
                        }
                    }
                }
            }
            local_x = local_x + 1;
        }
        proof {
            assert forall|i: int| 0 <= i < old_c.len() implies #[trigger] canvas@[i] == if in_rect(
                i,
                cw,
                fx,
                fy,
                fw,
                local_y + 1,
            ) {
                target[i]
            } else {
                old_c[i]
            } by {
                if cw > 0 {
                    lemma_coords_locate(cw, i);
                }
            }
        }
        local_y = local_y + 1;
    }
    proof {
        assert forall|i: int| 0 <= i < old_c.len() implies #[trigger] canvas@[i] == target[i] by {
            if !in_rect(i, cw, fx, fy, fw, fh) {
                assert(target[i] == old_c[i]);
            }
        }
        assert(canvas@ =~= target);
    }
    Ok(())
}

// ---------------------------------------------------------------- composition

pub(crate) fn clone_bytes(v: &Vec<u8>) -> (r: Vec<u8>)
    ensures
        r@ == v@,
{
    let r = v.clone();
    assert(r@ =~= v@);
    r
}

/// The canvas once the frame before the current one has been disposed of:
/// kept, cleared over its rectangle, or restored to the canvas saved before
/// it was drawn (cleared when nothing was saved).
pub open spec fn disposed(
    c: Seq<u8>,
    saved: Option<Seq<u8>>,
    prev: ApngFrame,
    prev_index: int,
    cw: int,
) -> Seq<u8> {
    match spec_effective_dispose(prev, prev_index) {
        DisposeOp::Keep => c,
        DisposeOp::Background => cleared(
            c,
            cw,
            prev.x_offset as int,
            prev.y_offset as int,
            prev.width as int,
            prev.height as int,
        ),
        DisposeOp::Previous => match saved {
            Some(sv) => sv,
            None => cleared(
                c,
                cw,
                prev.x_offset as int,
                prev.y_offset as int,
                prev.width as int,
                prev.height as int,
            ),
        },
    }
}

/// The canvas, and the canvas saved for a later "previous" disposal, after
/// the first `n` frames have been drawn onto an initially transparent canvas.
pub open spec fn compose_state<F: Fn([u8; 4], [u8; 4]) -> [u8; 4]>(
    img: ApngImage,
    over: F,
    n: nat,
) -> (Seq<u8>, Option<Seq<u8>>)
    decreases n,
{
    if n == 0 {
        (Seq::new(rgba_size(img.width as int, img.height as int) as nat, |i: int| 0u8), None)
    } else {
        let k = n - 1;
        let st = compose_state(img, over, (n - 1) as nat);
        let fr = img.frames@[k];
        let c1 = if k > 0 {
            disposed(st.0, st.1, img.frames@[k - 1], k - 1, img.width as int)
        } else {
            st.0
        };
        let s1 = if spec_effective_dispose(fr, k) == DisposeOp::Previous {
            Some(c1)
        } else {
            None
        };
        (blended(c1, img.width as int, fr, over), s1)
    }
}

/// The image shown while frame `k` is displayed.
pub open spec fn composed_frame<F: Fn([u8; 4], [u8; 4]) -> [u8; 4]>(
    img: ApngImage,
    over: F,
    k: int,
) -> Seq<u8> {
    compose_state(img, over, (k + 1) as nat).0
}

/// The canvas size fits `usize` and every frame is well formed.
pub open spec fn composable(img: ApngImage) -> bool {
    &&& rgba_size(img.width as int, img.height as int) <= usize::MAX
    &&& forall|k: int|
        0 <= k < img.frames@.len() ==> frame_valid(img.width, img.height, #[trigger] img.frames@[k])
}

/// The error reported for an image that cannot be composed: the canvas size
/// overflow, or the error of the first ill-formed frame.
pub open spec fn compose_error(img: ApngImage, e: AppError) -> bool {
    if rgba_size(img.width as int, img.height as int) > usize::MAX {
        e matches AppError::Decode(m) && m@ == size_overflow_msg()
    } else {
        exists|k: int|
            0 <= k < img.frames@.len() && !frame_valid(img.width, img.height, #[trigger] img.frames@[k])
                && (forall|j: int|
                0 <= j < k ==> frame_valid(img.width, img.height, #[trigger] img.frames@[j]))
                && frame_error(e, img.width, img.height, img.frames@[k])
    }
}

proof fn lemma_compose_len<F: Fn([u8; 4], [u8; 4]) -> [u8; 4]>(img: ApngImage, over: F, n: nat)
    ensures
        compose_state(img, over, n).0.len() == rgba_size(img.width as int, img.height as int) as nat,
        compose_state(img, over, n).1 matches Some(sv) ==> sv.len() == rgba_size(
            img.width as int,
            img.height as int,
        ) as nat,
    decreases n,
{
    if n > 0 {
        lemma_compose_len(img, over, (n - 1) as nat);
    }
}

proof fn lemma_frame_on_canvas(cw: u32, ch: u32, fr: ApngFrame)
    requires
        frame_valid(cw, ch, fr),
    ensures
        frame_on_canvas(fr, cw as int, rgba_size(cw as int, ch as int)),
{
    assert((fr.y_offset + fr.height) * cw * 4 <= cw * ch * 4) by (nonlinear_arith)
        requires
            fr.y_offset + fr.height <= ch,
    ;
}

/// Draws every frame in turn and returns the image shown during each one.
/// `over` blends a source pixel over a canvas pixel for `BlendOp::Over`.
pub fn compose_frames<F: Fn([u8; 4], [u8; 4]) -> [u8; 4]>(apng: &ApngImage, over: &F) -> (r: Result<
    Vec<Vec<u8>>,
    AppError,
>)
    requires
        blend_fn_ok(*over),
    ensures
        r is Ok <==> composable(*apng),
        r matches Ok(v) ==> v@.len() == apng.frames@.len() && forall|k: int|
            0 <= k < v@.len() ==> #[trigger] v@[k]@ == composed_frame(*apng, *over, k),
        r matches Err(e) ==> compose_error(*apng, e),
{
    let canvas_len = rgba_len(apng.width, apng.height)?;
    let ghost w = apng.width;
    let ghost h = apng.height;
    let mut canvas: Vec<u8> = vec![0u8; canvas_len];
    let mut saved: Option<Vec<u8>> = None;
    let mut outputs: Vec<Vec<u8>> = Vec::new();
    let n = apng.frames.len();
    proof {
        assert(canvas@ =~= compose_state(*apng, *over, 0).0);
    }
    let mut index: usize = 0;
    while index < n
        invariant
            index <= n,
            n == apng.frames@.len(),
            w == apng.width,
            h == apng.height,
            blend_fn_ok(*over),
            rgba_size(w as int, h as int) <= usize::MAX,
            canvas_len == rgba_size(w as int, h as int),
            forall|j: int| 0 <= j < index ==> frame_valid(w, h, #[trigger] apng.frames@[j]),
            canvas@ == compose_state(*apng, *over, index as nat).0,
            match saved {
                Some(sv) => compose_state(*apng, *over, index as nat).1 == Some(sv@),
                None => compose_state(*apng, *over, index as nat).1 is None,
            },
            outputs@.len() == index,
            forall|k: int| 0 <= k < index ==> #[trigger] outputs@[k]@ == composed_frame(*apng, *over, k),
        decreases n - index,
    {
        let frame = &apng.frames[index];
        match validate_frame(apng.width, apng.height, frame) {
            Ok(()) => {},
            Err(e) => {
                proof {
                    assert(frame_error(e, w, h, apng.frames@[index as int]));
                }
                return Err(e);
            },
        }
        let ghost st = compose_state(*apng, *over, index as nat);
        proof {
            lemma_compose_len(*apng, *over, index as nat);
            assert(0 <= rgba_size(w as int, h as int)) by (nonlinear_arith);
        }
        if index > 0 {
            let prev = &apng.frames[index - 1];
            proof {
                lemma_frame_on_canvas(w, h, *prev);
            }
            match effective_dispose(prev, index - 1) {
                DisposeOp::Keep => {},
                DisposeOp::Background => {
                    clear_region(
                        &mut canvas,
                        apng.width,
                        prev.x_offset,
                        prev.y_offset,
                        prev.width,
                        prev.height,
                    )?;
                },
                DisposeOp::Previous => {
                    let taken = saved;
                    saved = None;
                    match taken {
                        Some(sv) => {
                            canvas = sv;
                        },
                        None => {
                            clear_region(
                                &mut canvas,
                                apng.width,
                                prev.x_offset,
                                prev.y_offset,
                                prev.width,
                                prev.height,
                            )?;
                        },
                    }
                },
            }
        }
        let ghost c1 = canvas@;
        proof {
            lemma_frame_on_canvas(w, h, *frame);
        }
        if effective_dispose(frame, index) == DisposeOp::Previous {
            saved = Some(clone_bytes(&canvas));
        } else {
            saved = None;
        }
        blend_frame(&mut canvas, apng.width, frame, over)?;
        outputs.push(clone_bytes(&canvas));
        index = index + 1;
        proof {
            assert(compose_state(*apng, *over, index as nat).0 == blended(c1, w as int, *frame, *over));
        }
    }
    Ok(outputs)
}

// ---------------------------------------------------------------- changed rectangles

/// Pixel (`x`, `y`) differs between two images `w` pixels wide.
pub open spec fn px_changed(prev: Seq<u8>, curr: Seq<u8>, w: int, x: int, y: int) -> bool {
    let o = px_offset(w, x, y);
    ||| prev[o] != curr[o]
    ||| prev[o + 1] != curr[o + 1]
    ||| prev[o + 2] != curr[o + 2]
    ||| prev[o + 3] != curr[o + 3]
}

/// Some pixel of the `w` x `h` images differs.
pub open spec fn any_changed(prev: Seq<u8>, curr: Seq<u8>, w: int, h: int) -> bool {
    exists|x: int, y: int| 0 <= x < w && 0 <= y < h && #[trigger] px_changed(prev, curr, w, x, y)
}

/// `r` = (min x, min y, max x, max y) is the bounding box of the changed
/// pixels, or (`w`, `h`, 0, 0) when no pixel changed.
pub open spec fn changed_rect(prev: Seq<u8>, curr: Seq<u8>, w: int, h: int, r: (u32, u32, u32, u32)) -> bool {
    if !any_changed(prev, curr, w, h) {
        r.0 == w && r.1 == h && r.2 == 0 && r.3 == 0
    } else {
        &&& forall|x: int, y: int|
            0 <= x < w && 0 <= y < h && #[trigger] px_changed(prev, curr, w, x, y) ==> r.0 <= x <= r.2
                && r.1 <= y <= r.3
        &&& exists|x: int, y: int|
            0 <= x < w && 0 <= y < h && #[trigger] px_changed(prev, curr, w, x, y) && x == r.0
        &&& exists|x: int, y: int|
            0 <= x < w && 0 <= y < h && #[trigger] px_changed(prev, curr, w, x, y) && y == r.1
        &&& exists|x: int, y: int|
            0 <= x < w && 0 <= y < h && #[trigger] px_changed(prev, curr, w, x, y) && x == r.2
        &&& exists|x: int, y: int|
            0 <= x < w && 0 <= y < h && #[trigger] px_changed(prev, curr, w, x, y) && y == r.3
    }
}

fn find_changed_rect(prev: &Vec<u8>, curr: &Vec<u8>, width: u32, height: u32) -> (r: (
    u32,
    u32,
    u32,
    u32,
))
    requires
        prev@.len() == rgba_size(width as int, height as int),
        curr@.len() == rgba_size(width as int, height as int),
        rgba_size(width as int, height as int) <= u32::MAX,
    ensures
        changed_rect(prev@, curr@, width as int, height as int, r),
{
    let ghost w = width as int;
    let ghost h = height as int;
    let mut min_x = width;
    let mut min_y = height;
    let mut max_x: u32 = 0;
    let mut max_y: u32 = 0;
    let ghost mut found = false;
    let ghost mut ax = (0int, 0int);
    let ghost mut ay = (0int, 0int);
    let ghost mut bx = (0int, 0int);
    let ghost mut by_ = (0int, 0int);
    let mut y: u32 = 0;
    while y < height
        invariant
            y <= height,
            w == width,
            h == height,
            prev@.len() == rgba_size(w, h),
            curr@.len() == rgba_size(w, h),
            rgba_size(w, h) <= u32::MAX,
            !found ==> min_x == width && min_y == height && max_x == 0 && max_y == 0,
            !found ==> forall|px: int, py: int|
                0 <= px < w && 0 <= py < y ==> !#[trigger] px_changed(prev@, curr@, w, px, py),
            found ==> forall|px: int, py: int|
                0 <= px < w && 0 <= py < y && #[trigger] px_changed(prev@, curr@, w, px, py)
                    ==> min_x <= px <= max_x && min_y <= py <= max_y,
            found ==> 0 <= ax.0 < w && 0 <= ax.1 < y && px_changed(prev@, curr@, w, ax.0, ax.1)
                && ax.0 == min_x,
            found ==> 0 <= ay.0 < w && 0 <= ay.1 < y && px_changed(prev@, curr@, w, ay.0, ay.1)
                && ay.1 == min_y,
            found ==> 0 <= bx.0 < w && 0 <= bx.1 < y && px_changed(prev@, curr@, w, bx.0, bx.1)
                && bx.0 == max_x,
            found ==> 0 <= by_.0 < w && 0 <= by_.1 < y && px_changed(prev@, curr@, w, by_.0, by_.1)
                && by_.1 == max_y,
        decreases height - y,
    {
        let mut x: u32 = 0;
        while x < width
            invariant
                y < height,
                x <= width,
                w == width,
                h == height,
                prev@.len() == rgba_size(w, h),
                curr@.len() == rgba_size(w, h),
                rgba_size(w, h) <= u32::MAX,
                !found ==> min_x == width && min_y == height && max_x == 0 && max_y == 0,
                !found ==> forall|px: int, py: int|
                    (0 <= px < w && 0 <= py < y) || (0 <= px < x && py == y) ==> !#[trigger] px_changed(
                        prev@,
                        curr@,
                        w,
                        px,
                        py,
                    ),
                found ==> forall|px: int, py: int|
                    ((0 <= px < w && 0 <= py < y) || (0 <= px < x && py == y)) && #[trigger] px_changed(
                        prev@,
                        curr@,
                        w,
                        px,
                        py,
                    ) ==> min_x <= px <= max_x && min_y <= py <= max_y,
                found ==> ((0 <= ax.0 < w && 0 <= ax.1 < y) || (0 <= ax.0 < x && ax.1 == y))
                    && px_changed(prev@, curr@, w, ax.0, ax.1) && ax.0 == min_x,
                found ==> ((0 <= ay.0 < w && 0 <= ay.1 < y) || (0 <= ay.0 < x && ay.1 == y))
                    && px_changed(prev@, curr@, w, ay.0, ay.1) && ay.1 == min_y,
                found ==> ((0 <= bx.0 < w && 0 <= bx.1 < y) || (0 <= bx.0 < x && bx.1 == y))
                    && px_changed(prev@, curr@, w, bx.0, bx.1) && bx.0 == max_x,
                found ==> ((0 <= by_.0 < w && 0 <= by_.1 < y) || (0 <= by_.0 < x && by_.1 == y))
                    && px_changed(prev@, curr@, w, by_.0, by_.1) && by_.1 == max_y,
            decreases width - x,
        {
            proof {
                lemma_px_below(w, x as int, y as int, h);
                assert(h * w * 4 == w * h * 4) by (nonlinear_arith);
            }
            let idx = ((y * width + x) * 4) as usize;
            if prev[idx] != curr[idx] || prev[idx + 1] != curr[idx + 1] || prev[idx + 2] != curr[
                idx + 2] || prev[idx + 3] != curr[idx + 3] {
                proof {
                    assert(px_changed(prev@, curr@, w, x as int, y as int));
                    if !found {
                        ax = (x as int, y as int);
                        ay = (x as int, y as int);
                        bx = (x as int, y as int);
                        by_ = (x as int, y as int);
                    } else {
                        if x < min_x {
                            ax = (x as int, y as int);
                        }
                        if y < min_y {
                            ay = (x as int, y as int);
                        }
                        if x > max_x {
                            bx = (x as int, y as int);
                        }
                        if y > max_y {
                            by_ = (x as int, y as int);
                        }
                    }
                }
                if x < min_x {
                    min_x = x;
                }
                if y < min_y {
                    min_y = y;
                }
                if x > max_x {
                    max_x = x;
                }
                if y > max_y {
                    max_y = y;
                }
                proof {
                    found = true;
                }
            } else {
                proof {
                    assert(!px_changed(prev@, curr@, w, x as int, y as int));
                }
            }
            x = x + 1;
        }
        y = y + 1;
    }
    proof {
        if found {
            assert(any_changed(prev@, curr@, w, h));
        }
    }
    (min_x, min_y, max_x, max_y)
}

/// The `w` x `h` rectangle at (`x0`, `y0`) cut out of an image `cw` pixels wide.
pub open spec fn sub_rect(c: Seq<u8>, cw: int, x0: int, y0: int, w: int, h: int) -> Seq<u8> {
    Seq::new(
        rgba_size(w, h) as nat,
        |k: int| c[px_offset(cw, x0 + byte_x(k, w), y0 + byte_y(k, w)) + k % 4],
    )
}

fn extract_rect(curr: &Vec<u8>, cw: u32, x0: u32, y0: u32, w: u32, h: u32) -> (r: Vec<u8>)
    requires
        w > 0,
        x0 + w <= cw,
        y0 + h <= u32::MAX,
        (y0 + h) * cw * 4 <= curr@.len(),
        curr@.len() <= u32::MAX,
    ensures
        r@ == sub_rect(curr@, cw as int, x0 as int, y0 as int, w as int, h as int),
{
    let ghost target = sub_rect(curr@, cw as int, x0 as int, y0 as int, w as int, h as int);
    let ghost rows = (y0 + h) as int;
    proof {
        assert(0 <= w as int * h as int * 4 <= rows * cw as int * 4) by (nonlinear_arith)
            requires
                0 < w <= cw,
                h <= rows,
        ;
    }
    let mut out: Vec<u8> = Vec::with_capacity((w * h * 4) as usize);
    let mut y = y0;
    while y < y0 + h
        invariant
            y0 <= y <= y0 + h,
            w > 0,
            x0 + w <= cw,
            y0 + h <= u32::MAX,
            rows == y0 + h,
            rows * cw * 4 <= curr@.len(),
            curr@.len() <= u32::MAX,
            target == sub_rect(curr@, cw as int, x0 as int, y0 as int, w as int, h as int),
            out@.len() == (y - y0) * w * 4,
            forall|k: int| 0 <= k < out@.len() ==> #[trigger] out@[k] == target[k],
        decreases y0 + h - y,
    {
        proof {
            lemma_px_below(cw as int, x0 as int, y as int, rows);
            lemma_px_below(cw as int, (x0 + w - 1) as int, y as int, rows);
        }
        let row_start = ((y * cw + x0) * 4) as usize;
        let row_end = row_start + (w * 4) as usize;
        let row = &curr.as_slice()[row_start..row_end];
        let ghost before = out@;
        out.extend_from_slice(row);
        proof {
            let r = (y - y0) as int;
            assert(out@.len() == (r + 1) * w * 4) by (nonlinear_arith)
                requires
                    out@.len() == r * w * 4 + w * 4,
            ;
            assert forall|k: int| 0 <= k < out@.len() implies #[trigger] out@[k] == target[k] by {
                if k >= before.len() {
                    lemma_coords_locate(w as int, k);
                    let bx = byte_x(k, w as int);
                    let by = byte_y(k, w as int);
                    assert(by == r) by (nonlinear_arith)
                        requires
                            0 <= bx < w,
                            0 <= by,
                            (by * w + bx) * 4 <= k < (by * w + bx) * 4 + 4,
                            r * w * 4 <= k < (r + 1) * w * 4,
                    ;
                    assert(k - before.len() + row_start == px_offset(
                        cw as int,
                        x0 + bx,
                        y0 + by,
                    ) + k % 4) by (nonlinear_arith)
                        requires
                            before.len() == r * w * 4,
                            row_start == ((y0 + r) * cw + x0) * 4,
                            k == (by * w + bx) * 4 + k % 4,
                            by == r,
                    ;
                    lemma_fundamental_div_mod(k, 4);
                    assert(k < rgba_size(w as int, h as int)) by (nonlinear_arith)
                        requires
                            k < (r + 1) * w * 4,
                            r + 1 <= h,
                            0 <= w,
                    ;
                    assert(out@[k] == row@[k - before.len()]);
                    assert(row@[k - before.len()] == curr@[k - before.len() + row_start]);
                }
            }
        }
        y = y + 1;
    }
    proof {
        assert(out@.len() == h * w * 4);
        assert(h as int * w as int * 4 == rgba_size(w as int, h as int)) by (nonlinear_arith);
        assert(out@ =~= target);
    }
    out
}

/// The canvas that minimized frame `i` is drawn on: the one frame 0 leaves
/// behind once disposed of for `i == 1`, and the image shown by the frame
/// before it after that (minimized frames keep the canvas).
pub open spec fn minimize_base<F: Fn([u8; 4], [u8; 4]) -> [u8; 4]>(img: ApngImage, over: F, i: int) -> Seq<
    u8,
> {
    if i <= 1 {
        canvas_before(img, over, i)
    } else {
        composed_frame(img, over, i - 1)
    }
}

/// `nf` is frame `of` redrawn as the part of `curr` that differs from `prev`:
/// the bounding box of the changed pixels, copied from `curr`, drawn with
/// `Source` and kept; when nothing changed, the top-left pixel of `curr`
/// redrawn as it is. The delay is unchanged.
pub open spec fn minimized_frame(
    of: ApngFrame,
    nf: ApngFrame,
    prev: Seq<u8>,
    curr: Seq<u8>,
    cw: int,
    ch: int,
) -> bool {
    &&& nf.delay_num == of.delay_num
    &&& nf.delay_den == of.delay_den
    &&& nf.blend_op == BlendOp::Source
    &&& nf.dispose_op == DisposeOp::Keep
    &&& if !any_changed(prev, curr, cw, ch) {
        &&& nf.x_offset == 0
        &&& nf.y_offset == 0
        &&& nf.width == 1
        &&& nf.height == 1
        &&& nf.rgba@ == sub_rect(curr, cw, 0, 0, 1, 1)
    } else {
        exists|r: (u32, u32, u32, u32)|
            #[trigger] changed_rect(prev, curr, cw, ch, r) && nf.x_offset == r.0 && nf.y_offset == r.1
                && nf.width == r.2 - r.0 + 1 && nf.height == r.3 - r.1 + 1 && nf.rgba@ == sub_rect(
                curr,
                cw,
                r.0 as int,
                r.1 as int,
                nf.width as int,
                nf.height as int,
            )
    }
}

/// Replaces every frame after the first by the smallest rectangle that turns
/// the canvas it is drawn on into the image it shows, drawn with `Source` and
/// kept; the animation shows the same images as before.
pub fn minimize_frame_rects<F: Fn([u8; 4], [u8; 4]) -> [u8; 4]>(apng: &mut ApngImage, over: &F)
    requires
        blend_fn_ok(*over),
        old(apng).frames@.len() >= 2 && composable(*old(apng)) ==> rgba_size(
            old(apng).width as int,
            old(apng).height as int,
        ) <= u32::MAX,
    ensures
        final(apng).width == old(apng).width,
        final(apng).height == old(apng).height,
        final(apng).num_plays == old(apng).num_plays,
        final(apng).default_image == old(apng).default_image,
        final(apng).frames@.len() == old(apng).frames@.len(),
        old(apng).frames@.len() < 2 || !composable(*old(apng)) ==> *final(apng) == *old(apng),
        old(apng).frames@.len() >= 2 && composable(*old(apng)) ==> {
            &&& final(apng).frames@[0] == old(apng).frames@[0]
            &&& forall|i: int|
                1 <= i < old(apng).frames@.len() ==> minimized_frame(
                    old(apng).frames@[i],
                    #[trigger] final(apng).frames@[i],
                    minimize_base(*old(apng), *over, i),
                    composed_frame(*old(apng), *over, i),
                    old(apng).width as int,
                    old(apng).height as int,
                )
            &&& composable(*final(apng))
            &&& forall|k: int|
                0 <= k < old(apng).frames@.len() ==> #[trigger] composed_frame(*final(apng), *over, k)
                    == composed_frame(*old(apng), *over, k)
        },
{
    if apng.frames.len() < 2 {
        return;
    }
    let (composited, disposals) = match compose_with_disposals(&*apng, over) {
        Ok(c) => c,
        Err(_) => {
            return;
        },
    };
    let ghost old_img = *apng;
    let n = apng.frames.len();
    let width = apng.width;
    let height = apng.height;
    proof {
        assert(frame_valid(width, height, old_img.frames@[0]));
        assert(0 <= width as int * height as int) by (nonlinear_arith);
    }
    let mut i: usize = 1;
    while i < n
        invariant
            1 <= i <= n,
            n == old_img.frames@.len(),
            n >= 2,
            width == old_img.width,
            height == old_img.height,
            composable(old_img),
            rgba_size(width as int, height as int) <= u32::MAX,
            composited@.len() == n,
            forall|k: int|
                0 <= k < n ==> #[trigger] composited@[k]@ == composed_frame(old_img, *over, k),
            disposals@.len() == n,
            disposals@[0]@ == minimize_base(old_img, *over, 1),
            apng.width == old_img.width,
            apng.height == old_img.height,
            apng.num_plays == old_img.num_plays,
            apng.default_image == old_img.default_image,
            apng.frames@.len() == n,
            apng.frames@[0] == old_img.frames@[0],
            forall|k: int| i <= k < n ==> #[trigger] apng.frames@[k] == old_img.frames@[k],
            forall|k: int| 0 <= k < n ==> frame_valid(width, height, #[trigger] apng.frames@[k]),
            forall|k: int|
                1 <= k < i ==> minimized_frame(
                    old_img.frames@[k],
                    #[trigger] apng.frames@[k],
                    minimize_base(old_img, *over, k),
                    composed_frame(old_img, *over, k),
                    width as int,
                    height as int,
                ),
        decreases n - i,
    {
        let prev = if i == 1 {
            &disposals[0]
        } else {
            &composited[i - 1]
        };
        let curr = &composited[i];
        proof {
            lemma_disposal_len(old_img, *over, 0);
            lemma_compose_len(old_img, *over, i as nat);
            lemma_compose_len(old_img, *over, (i + 1) as nat);
            assert(frame_valid(width, height, old_img.frames@[0]));
        }
        let (min_x, min_y, max_x, max_y) = find_changed_rect(prev, curr, width, height);
        let delay_num = apng.frames[i].delay_num;
        let delay_den = apng.frames[i].delay_den;
        if min_x > max_x || min_y > max_y {
            proof {
                if any_changed(prev@, curr@, width as int, height as int) {
                    let (x, y) = choose|x: int, y: int|
                        0 <= x < width && 0 <= y < height && #[trigger] px_changed(
                            prev@,
                            curr@,
                            width as int,
                            x,
                            y,
                        );
                    assert(min_x <= x <= max_x && min_y <= y <= max_y);
                }
            }
            proof {
                assert(4 * width <= width * height * 4) by (nonlinear_arith)
                    requires
                        height >= 1,
                ;
            }
            let corner = extract_rect(curr, width, 0, 0, 1, 1);
            let blank = ApngFrame {
                width: 1,
                height: 1,
                x_offset: 0,
                y_offset: 0,
                delay_num,
                delay_den,
                dispose_op: DisposeOp::Keep,
                blend_op: BlendOp::Source,
                rgba: corner,
            };
            apng.frames.set(i, blank);
            proof {
                assert(rgba_size(1, 1) == 4) by (nonlinear_arith);
                assert(frame_valid(width, height, apng.frames@[i as int]));
            }
        } else {
            proof {
                assert(any_changed(prev@, curr@, width as int, height as int));
                assert(changed_rect(prev@, curr@, width as int, height as int, (min_x, min_y, max_x, max_y)));
            }
            let new_w = max_x - min_x + 1;
            let new_h = max_y - min_y + 1;
            proof {
                assert((min_y + new_h) * width * 4 <= width * height * 4) by (nonlinear_arith)
                    requires
                        min_y + new_h <= height,
                ;
            }
            let sub_rgba = extract_rect(curr, width, min_x, min_y, new_w, new_h);
            let shrunk = ApngFrame {
                width: new_w,
                height: new_h,
                x_offset: min_x,
                y_offset: min_y,
                delay_num,
                delay_den,
                dispose_op: DisposeOp::Keep,
                blend_op: BlendOp::Source,
                rgba: sub_rgba,
            };
            apng.frames.set(i, shrunk);
            proof {
                let r = (min_x, min_y, max_x, max_y);
                let (x2, y2) = choose|x: int, y: int|
                    0 <= x < width && 0 <= y < height && #[trigger] px_changed(prev@, curr@, width as int, x, y)
                        && x == r.2;
                let (x3, y3) = choose|x: int, y: int|
                    0 <= x < width && 0 <= y < height && #[trigger] px_changed(prev@, curr@, width as int, x, y)
                        && y == r.3;
                assert(min_x + new_w <= width && min_y + new_h <= height);
                assert(new_w * new_h * 4 <= width * height * 4) by (nonlinear_arith)
                    requires
                        new_w <= width,
                        new_h <= height,
                ;
                assert(frame_valid(width, height, apng.frames@[i as int]));
            }
        }
        i = i + 1;
    }
    proof {
        lemma_minimize_preserves_composition(old_img, *apng, *over);
    }
}

proof fn lemma_minimized_redraws<F: Fn([u8; 4], [u8; 4]) -> [u8; 4]>(
    of: ApngFrame,
    nf: ApngFrame,
    prev: Seq<u8>,
    curr: Seq<u8>,
    cw: int,
    ch: int,
    over: F,
)
    requires
        cw > 0,
        ch > 0,
        prev.len() == rgba_size(cw, ch),
        curr.len() == rgba_size(cw, ch),
        minimized_frame(of, nf, prev, curr, cw, ch),
    ensures
        blended(prev, cw, nf, over) == curr,
{
    let b = blended(prev, cw, nf, over);
    assert forall|i: int| 0 <= i < prev.len() implies #[trigger] b[i] == curr[i] by {
        lemma_coords_locate(cw, i);
        let bx = byte_x(i, cw);
        let by = byte_y(i, cw);
        lemma_byte_coords(cw, bx, by, i);
        assert(by < ch) by (nonlinear_arith)
            requires
                0 <= bx < cw,
                0 <= by,
                (by * cw + bx) * 4 <= i,
                i < cw * ch * 4,
        ;
        if !any_changed(prev, curr, cw, ch) {
            assert(!px_changed(prev, curr, cw, bx, by));
            if in_rect(i, cw, 0, 0, 1, 1) {
                assert(bx == 0 && by == 0);
                assert(px_offset(1, 0, 0) == 0) by (nonlinear_arith);
                assert(rgba_size(1, 1) == 4) by (nonlinear_arith);
                lemma_byte_coords(1, 0, 0, i % 4);
                assert(nf.rgba@[i % 4] == curr[px_offset(cw, bx, by) + i % 4]);
            }
        } else {
            let r = choose|r: (u32, u32, u32, u32)|
                #[trigger] changed_rect(prev, curr, cw, ch, r) && nf.x_offset == r.0 && nf.y_offset
                    == r.1 && nf.width == r.2 - r.0 + 1 && nf.height == r.3 - r.1 + 1 && nf.rgba@
                    == sub_rect(curr, cw, r.0 as int, r.1 as int, nf.width as int, nf.height as int);
            let nw = nf.width as int;
            let nh = nf.height as int;
            if in_rect(i, cw, r.0 as int, r.1 as int, nw, nh) {
                let lx = bx - r.0;
                let ly = by - r.1;
                let si = px_offset(nw, lx, ly);
                lemma_px_below(nw, lx, ly, nh);
                assert(nh * nw * 4 == rgba_size(nw, nh)) by (nonlinear_arith);
                lemma_byte_coords(nw, lx, ly, si + i % 4);
                assert(nf.rgba@[si + i % 4] == curr[px_offset(cw, bx, by) + i % 4]);
            } else {
                if px_changed(prev, curr, cw, bx, by) {
                    assert(r.0 <= bx <= r.2 && r.1 <= by <= r.3);
                    assert(false);
                }
            }
        }
    }
    assert(b =~= curr);
}

/// The minimized image `new_img` of `old_img`: same canvas, same frame 0,
/// and every later frame minimized against the canvas it is drawn on.
pub open spec fn minimized_image<F: Fn([u8; 4], [u8; 4]) -> [u8; 4]>(
    old_img: ApngImage,
    new_img: ApngImage,
    over: F,
) -> bool {
    &&& new_img.width == old_img.width
    &&& new_img.height == old_img.height
    &&& new_img.frames@.len() == old_img.frames@.len()
    &&& new_img.frames@[0] == old_img.frames@[0]
    &&& forall|i: int|
        1 <= i < old_img.frames@.len() ==> minimized_frame(
            old_img.frames@[i],
            #[trigger] new_img.frames@[i],
            minimize_base(old_img, over, i),
            composed_frame(old_img, over, i),
            old_img.width as int,
            old_img.height as int,
        )
}

/// Law: once frame rectangles are minimized, every frame shows the same
/// image as before, whatever the dispose operations.
pub proof fn lemma_minimize_preserves_composition<F: Fn([u8; 4], [u8; 4]) -> [u8; 4]>(
    old_img: ApngImage,
    new_img: ApngImage,
    over: F,
)
    requires
        composable(old_img),
        old_img.frames@.len() >= 1,
        minimized_image(old_img, new_img, over),
    ensures
        forall|k: int|
            0 <= k < old_img.frames@.len() ==> #[trigger] composed_frame(new_img, over, k)
                == composed_frame(old_img, over, k),
{
    assert forall|k: int| 0 <= k < old_img.frames@.len() implies #[trigger] composed_frame(
        new_img,
        over,
        k,
    ) == composed_frame(old_img, over, k) by {
        lemma_minimize_prefix(old_img, new_img, over, k);
    }
}

proof fn lemma_minimize_prefix<F: Fn([u8; 4], [u8; 4]) -> [u8; 4]>(
    old_img: ApngImage,
    new_img: ApngImage,
    over: F,
    k: int,
)
    requires
        composable(old_img),
        minimized_image(old_img, new_img, over),
        0 <= k < old_img.frames@.len(),
    ensures
        composed_frame(new_img, over, k) == composed_frame(old_img, over, k),
        k == 0 ==> compose_state(new_img, over, 1) == compose_state(old_img, over, 1),
    decreases k,
{
    let w = old_img.width as int;
    let h = old_img.height as int;
    lemma_state_step(new_img, over, k);
    lemma_state_step(old_img, over, k);
    if k == 0 {
        assert(compose_state(new_img, over, 0) == compose_state(old_img, over, 0));
    } else {
        lemma_minimize_prefix(old_img, new_img, over, k - 1);
        if k >= 2 {
            lemma_minimize_prefix(old_img, new_img, over, 0);
        }
        assert(frame_valid(old_img.width, old_img.height, old_img.frames@[0]));
        lemma_compose_len(old_img, over, k as nat);
        lemma_compose_len(old_img, over, (k + 1) as nat);
        lemma_disposal_len(old_img, over, 0);
        let prev_frame = new_img.frames@[k - 1];
        if k == 1 {
            assert(compose_state(new_img, over, 1) == compose_state(new_img, over, (0 + 1) as nat));
            assert(canvas_before(new_img, over, 1) == disposal_after(old_img, over, 0));
        } else {
            assert(minimized_frame(
                old_img.frames@[k - 1],
                new_img.frames@[k - 1],
                minimize_base(old_img, over, k - 1),
                composed_frame(old_img, over, k - 1),
                w,
                h,
            ));
            assert(spec_effective_dispose(prev_frame, k - 1) == DisposeOp::Keep);
            assert(compose_state(new_img, over, k as nat) == compose_state(new_img, over, ((k - 1) + 1) as nat));
            assert(canvas_before(new_img, over, k) == composed_frame(old_img, over, k - 1));
        }
        assert(canvas_before(new_img, over, k) == minimize_base(old_img, over, k));
        assert(minimized_frame(
            old_img.frames@[k],
            new_img.frames@[k],
            minimize_base(old_img, over, k),
            composed_frame(old_img, over, k),
            w,
            h,
        ));
        lemma_minimized_redraws(
            old_img.frames@[k],
            new_img.frames@[k],
            minimize_base(old_img, over, k),
            composed_frame(old_img, over, k),
            w,
            h,
            over,
        );
    }
}

// ---------------------------------------------------------------- frame delays

/// Greatest common divisor, by Euclid's algorithm.
pub open spec fn spec_gcd(a: nat, b: nat) -> nat
    decreases b,
{
    if b == 0 {
        a
    } else {
        spec_gcd(b, a % b)
    }
}

proof fn lemma_gcd_divides(a: nat, b: nat)
    requires
        a > 0 || b > 0,
    ensures
        spec_gcd(a, b) > 0,
        a % spec_gcd(a, b) == 0,
        b % spec_gcd(a, b) == 0,
    decreases b,
{
    if b > 0 {
        let r = a % b;
        lemma_gcd_divides(b, r);
        let g = spec_gcd(b, r);
        lemma_fundamental_div_mod(a as int, b as int);
        lemma_fundamental_div_mod(b as int, g as int);
        lemma_fundamental_div_mod(r as int, g as int);
        let q = a / b;
        let qb = b / g;
        let qr = r / g;
        assert(a == g * (qb * q + qr)) by (nonlinear_arith)
            requires
                a == b * q + r,
                b == g * qb,
                r == g * qr,
        ;
        lemma_mod_multiples_basic((qb * q + qr) as int, g as int);
        lemma_mul_is_commutative(g as int, (qb * q + qr) as int);
    }
}

/// The greatest common divisor of `a` and `b` (`gcd(a, 0) == a`).
pub fn gcd(a: u32, b: u32) -> (g: u32)
    ensures
        g == spec_gcd(a as nat, b as nat),
{
    let ghost g0 = spec_gcd(a as nat, b as nat);
    let mut a = a;
    let mut b = b;
    while b != 0
        invariant
            spec_gcd(a as nat, b as nat) == g0,
        decreases b,
    {
        let t = b;
        b = a % b;
        a = t;
    }
    a
}

/// A zero delay denominator means 1/100 s.
pub open spec fn delay_den(den: u16) -> nat {
    if den == 0 {
        100
    } else {
        den as nat
    }
}

/// Both delays share a denominator and their numerators add up within `u16`.
pub open spec fn same_den_fits(n1: u16, d1: u16, n2: u16, d2: u16) -> bool {
    delay_den(d1) == delay_den(d2) && n1 + n2 <= u16::MAX
}

/// The numerator of the sum over the common denominator.
pub open spec fn delay_sum_num(n1: u16, d1: u16, n2: u16, d2: u16) -> nat {
    (n1 as nat) * delay_den(d2) + (n2 as nat) * delay_den(d1)
}

/// The common denominator.
pub open spec fn delay_sum_den(d1: u16, d2: u16) -> nat {
    delay_den(d1) * delay_den(d2)
}

/// The sum is reduced to lowest terms and both terms fit `u16`.
pub open spec fn reduced_fits(n1: u16, d1: u16, n2: u16, d2: u16) -> bool {
    let num = delay_sum_num(n1, d1, n2, d2);
    let den = delay_sum_den(d1, d2);
    let g = spec_gcd(num, den);
    num / g <= u16::MAX && den / g <= u16::MAX
}

/// The combined delay: the plain sum when the denominators agree and the
/// numerators fit, else the sum in lowest terms when it fits, else the sum in
/// milliseconds, capped at `u16::MAX` ms.
pub open spec fn spec_merge_delays(n1: u16, d1: u16, n2: u16, d2: u16) -> (u16, u16) {
    if same_den_fits(n1, d1, n2, d2) {
        ((n1 + n2) as u16, delay_den(d1) as u16)
    } else {
        let num = delay_sum_num(n1, d1, n2, d2);
        let den = delay_sum_den(d1, d2);
        let g = spec_gcd(num, den);
        if reduced_fits(n1, d1, n2, d2) {
            ((num / g) as u16, (den / g) as u16)
        } else {
            let ms = num * 1000 / den;
            ((if ms > u16::MAX { u16::MAX as nat } else { ms }) as u16, 1000u16)
        }
    }
}

/// The `u32` arithmetic of the merge does not overflow.
pub open spec fn merge_in_range(n1: u16, d1: u16, n2: u16, d2: u16) -> bool {
    same_den_fits(n1, d1, n2, d2) || (delay_sum_num(n1, d1, n2, d2) <= u32::MAX && (reduced_fits(
        n1,
        d1,
        n2,
        d2,
    ) || delay_sum_num(n1, d1, n2, d2) * 1000 <= u32::MAX))
}

/// Adds two frame delays given as fractions of a second.
pub fn merge_delays(num1: u16, den1: u16, num2: u16, den2: u16) -> (r: (u16, u16))
    requires
        merge_in_range(num1, den1, num2, den2),
    ensures
        r == spec_merge_delays(num1, den1, num2, den2),
        same_den_fits(num1, den1, num2, den2) || reduced_fits(num1, den1, num2, den2) ==> r.0
            * delay_den(den1) * delay_den(den2) == r.1 * delay_sum_num(num1, den1, num2, den2),
{
    let d1: u16 = if den1 == 0 { 100 } else { den1 };
    let d2: u16 = if den2 == 0 { 100 } else { den2 };
    if d1 == d2 {
        let sum = (num1 as u32) + (num2 as u32);
        if sum <= u16::MAX as u32 {
            proof {
                assert((num1 + num2) * d1 * d1 == d1 * (num1 * d1 + num2 * d1)) by (nonlinear_arith);
            }
            return (sum as u16, d1);
        }
    }
    proof {
        assert(num1 as int * d2 as int <= u16::MAX as int * u16::MAX as int) by (nonlinear_arith);
        assert(num2 as int * d1 as int <= u16::MAX as int * u16::MAX as int) by (nonlinear_arith);
        assert(d1 as int * d2 as int <= u16::MAX as int * u16::MAX as int) by (nonlinear_arith);
        assert(d1 as int * d2 as int > 0) by (nonlinear_arith)
            requires
                d1 > 0,
                d2 > 0,
        ;
    }
    let total_num = (num1 as u32) * (d2 as u32) + (num2 as u32) * (d1 as u32);
    let total_den = (d1 as u32) * (d2 as u32);
    let g = gcd(total_num, total_den);
    proof {
        assert(total_num == delay_sum_num(num1, den1, num2, den2));
        assert(total_den == delay_sum_den(den1, den2));
        assert(!same_den_fits(num1, den1, num2, den2));
        lemma_gcd_divides(total_num as nat, total_den as nat);
    }
    let sn = total_num / g;
    let sd = total_den / g;
    if sn <= u16::MAX as u32 && sd <= u16::MAX as u32 {
        proof {
            lemma_fundamental_div_mod(total_num as int, g as int);
            lemma_fundamental_div_mod(total_den as int, g as int);
            assert(sn * d1 * d2 == sd * total_num) by (nonlinear_arith)
                requires
                    total_num == g * sn,
                    total_den == g * sd,
                    total_den == d1 * d2,
            ;
        }
        (sn as u16, sd as u16)
    } else {
        proof {
            assert(!reduced_fits(num1, den1, num2, den2));
        }
        let ms = (total_num * 1000) / total_den;
        let ms = if ms < u16::MAX as u32 { ms } else { u16::MAX as u32 };
        (ms as u16, 1000)
    }
}

// ---------------------------------------------------------------- duplicate folding

/// The canvas that frame `k` leaves behind once it is disposed of: the one
/// the next frame is drawn on.
pub open spec fn disposal_after<F: Fn([u8; 4], [u8; 4]) -> [u8; 4]>(img: ApngImage, over: F, k: int) -> Seq<
    u8,
> {
    disposed(
        compose_state(img, over, (k + 1) as nat).0,
        compose_state(img, over, (k + 1) as nat).1,
        img.frames@[k],
        k,
        img.width as int,
    )
}

/// What two frames must share to be folded: the image shown while each is
/// displayed, followed by the canvas each leaves behind.
pub open spec fn fold_keys<F: Fn([u8; 4], [u8; 4]) -> [u8; 4]>(img: ApngImage, over: F) -> Seq<Seq<u8>> {
    Seq::new(img.frames@.len(), |k: int| composed_frame(img, over, k) + disposal_after(img, over, k))
}

proof fn lemma_disposal_len<F: Fn([u8; 4], [u8; 4]) -> [u8; 4]>(img: ApngImage, over: F, k: int)
    requires
        0 <= k,
    ensures
        composed_frame(img, over, k).len() == rgba_size(img.width as int, img.height as int) as nat,
        disposal_after(img, over, k).len() == rgba_size(img.width as int, img.height as int) as nat,
{
    lemma_compose_len(img, over, (k + 1) as nat);
}

proof fn lemma_keys_equal(a1: Seq<u8>, b1: Seq<u8>, a2: Seq<u8>, b2: Seq<u8>)
    requires
        a1.len() == a2.len(),
    ensures
        (a1 + b1 == a2 + b2) <==> (a1 == a2 && b1 == b2),
{
    if a1 + b1 == a2 + b2 {
        assert(a1 =~= (a1 + b1).subrange(0, a1.len() as int));
        assert(a2 =~= (a2 + b2).subrange(0, a2.len() as int));
        assert(b1 =~= (a1 + b1).subrange(a1.len() as int, (a1 + b1).len() as int));
        assert(b2 =~= (a2 + b2).subrange(a2.len() as int, (a2 + b2).len() as int));
    }
}

/// Composes the frames like [`compose_frames`], and also returns the canvas
/// each frame leaves behind once disposed of.
pub(crate) fn compose_with_disposals<F: Fn([u8; 4], [u8; 4]) -> [u8; 4]>(apng: &ApngImage, over: &F) -> (r:
    Result<(Vec<Vec<u8>>, Vec<Vec<u8>>), AppError>)
    requires
        blend_fn_ok(*over),
    ensures
        r is Ok <==> composable(*apng),
        r matches Ok(v) ==> v.0@.len() == apng.frames@.len() && v.1@.len() == apng.frames@.len() && (forall|k: int|
            0 <= k < v.0@.len() ==> #[trigger] v.0@[k]@ == composed_frame(*apng, *over, k)) && (forall|k: int|
            0 <= k < v.1@.len() ==> #[trigger] v.1@[k]@ == disposal_after(*apng, *over, k)),
{
    let canvas_len = rgba_len(apng.width, apng.height)?;
    let ghost w = apng.width;
    let ghost h = apng.height;
    let mut canvas: Vec<u8> = vec![0u8; canvas_len];
    let mut saved: Option<Vec<u8>> = None;
    let mut outputs: Vec<Vec<u8>> = Vec::new();
    let mut disposals: Vec<Vec<u8>> = Vec::new();
    let n = apng.frames.len();
    proof {
        assert(canvas@ =~= compose_state(*apng, *over, 0).0);
    }
    let mut index: usize = 0;
    while index < n
        invariant
            index <= n,
            n == apng.frames@.len(),
            w == apng.width,
            h == apng.height,
            blend_fn_ok(*over),
            rgba_size(w as int, h as int) <= usize::MAX,
            canvas_len == rgba_size(w as int, h as int),
            forall|j: int| 0 <= j < index ==> frame_valid(w, h, #[trigger] apng.frames@[j]),
            canvas@ == compose_state(*apng, *over, index as nat).0,
            match saved {
                Some(sv) => compose_state(*apng, *over, index as nat).1 == Some(sv@),
                None => compose_state(*apng, *over, index as nat).1 is None,
            },
            outputs@.len() == index,
            disposals@.len() == index,
            forall|k: int| 0 <= k < index ==> #[trigger] outputs@[k]@ == composed_frame(*apng, *over, k),
            forall|k: int| 0 <= k < index ==> #[trigger] disposals@[k]@ == disposal_after(*apng, *over, k),
        decreases n - index,
    {
        let frame = &apng.frames[index];
        match validate_frame(apng.width, apng.height, frame) {
            Ok(()) => {},
            Err(e) => {
                return Err(e);
            },
        }
        proof {
            lemma_compose_len(*apng, *over, index as nat);
            assert(0 <= rgba_size(w as int, h as int)) by (nonlinear_arith);
        }
        if index > 0 {
            let prev = &apng.frames[index - 1];
            proof {
                lemma_frame_on_canvas(w, h, *prev);
            }
            match effective_dispose(prev, index - 1) {
                DisposeOp::Keep => {},
                DisposeOp::Background => {
                    clear_region(
                        &mut canvas,
                        apng.width,
                        prev.x_offset,
                        prev.y_offset,
                        prev.width,
                        prev.height,
                    )?;
                },
                DisposeOp::Previous => {
                    let taken = saved;
                    saved = None;
                    match taken {
                        Some(sv) => {
                            canvas = sv;
                        },
                        None => {
                            clear_region(
                                &mut canvas,
                                apng.width,
                                prev.x_offset,
                                prev.y_offset,
                                prev.width,
                                prev.height,
                            )?;
                        },
                    }
                },
            }
        }
        let ghost c1 = canvas@;
        proof {
            lemma_frame_on_canvas(w, h, *frame);
        }
        if effective_dispose(frame, index) == DisposeOp::Previous {
            saved = Some(clone_bytes(&canvas));
        } else {
            saved = None;
        }
        blend_frame(&mut canvas, apng.width, frame, over)?;
        outputs.push(clone_bytes(&canvas));
        proof {
            assert(compose_state(*apng, *over, (index + 1) as nat).0 == blended(c1, w as int, *frame, *over));
            lemma_compose_len(*apng, *over, (index + 1) as nat);
        }
        let left: Vec<u8> = match effective_dispose(frame, index) {
            DisposeOp::Keep => clone_bytes(&canvas),
            DisposeOp::Background => {
                let mut c = clone_bytes(&canvas);
                clear_region(&mut c, apng.width, frame.x_offset, frame.y_offset, frame.width, frame.height)?;
                c
            },
            DisposeOp::Previous => match &saved {
                Some(sv) => clone_bytes(sv),
                None => {
                    let mut c = clone_bytes(&canvas);
                    clear_region(&mut c, apng.width, frame.x_offset, frame.y_offset, frame.width, frame.height)?;
                    c
                },
            },
        };
        disposals.push(left);
        index = index + 1;
    }
    Ok((outputs, disposals))
}

pub(crate) fn bytes_eq(a: &Vec<u8>, b: &Vec<u8>) -> (r: bool)
    ensures
        r == (a@ == b@),
{
    let r = a == b;
    proof {
        if r {
            assert(a@ =~= b@);
        }
    }
    r
}

/// The images shown during every frame.
pub open spec fn composed_all<F: Fn([u8; 4], [u8; 4]) -> [u8; 4]>(img: ApngImage, over: F) -> Seq<
    Seq<u8>,
> {
    Seq::new(img.frames@.len(), |k: int| composed_frame(img, over, k))
}

/// The first index at or after `j` whose image differs from image `i`
/// (the end of the run of images equal to image `i`).
pub open spec fn run_end(comp: Seq<Seq<u8>>, i: int, j: int) -> int
    decreases comp.len() - j,
{
    if 0 <= j < comp.len() && comp[i] == comp[j] {
        run_end(comp, i, j + 1)
    } else {
        j
    }
}

/// The delay of frame `i` with the delays of frames `i + 1 .. j` merged into
/// it, one after the other.
pub open spec fn run_delay(frames: Seq<ApngFrame>, i: int, j: int) -> (u16, u16)
    decreases j - i,
{
    if j <= i + 1 {
        (frames[i].delay_num, frames[i].delay_den)
    } else {
        let d = run_delay(frames, i, j - 1);
        spec_merge_delays(d.0, d.1, frames[j - 1].delay_num, frames[j - 1].delay_den)
    }
}

/// Frame `f` with its delay replaced by `d`.
pub open spec fn with_delay(f: ApngFrame, d: (u16, u16)) -> ApngFrame {
    ApngFrame { delay_num: d.0, delay_den: d.1, ..f }
}

/// The frames from `i` on, each run of frames showing one image replaced by
/// its first frame carrying the merged delay of the run.
pub open spec fn folded(frames: Seq<ApngFrame>, comp: Seq<Seq<u8>>, i: int) -> Seq<ApngFrame>
    decreases frames.len() - i,
{
    if i < 0 || i >= frames.len() {
        seq![]
    } else {
        let e = run_end(comp, i, i + 1);
        if e <= i || e > frames.len() {
            seq![]
        } else {
            seq![with_delay(frames[i], run_delay(frames, i, e))] + folded(frames, comp, e)
        }
    }
}

/// Every merge that folding performs from frame `i` on stays within the
/// `u32` arithmetic of `merge_delays`.
pub open spec fn fold_in_range(frames: Seq<ApngFrame>, comp: Seq<Seq<u8>>, i: int) -> bool
    decreases frames.len() - i,
{
    if i < 0 || i >= frames.len() {
        true
    } else {
        let e = run_end(comp, i, i + 1);
        if e <= i || e > frames.len() {
            true
        } else {
            &&& forall|m: int|
                i < m < e ==> merge_in_range(
                    #[trigger] run_delay(frames, i, m).0,
                    run_delay(frames, i, m).1,
                    frames[m].delay_num,
                    frames[m].delay_den,
                )
            &&& fold_in_range(frames, comp, e)
        }
    }
}

proof fn lemma_run_end_bounds(comp: Seq<Seq<u8>>, i: int, j: int)
    requires
        0 <= i < j <= comp.len(),
    ensures
        j <= run_end(comp, i, j) <= comp.len(),
        forall|k: int| j <= k < run_end(comp, i, j) ==> comp[k] == comp[i],
        run_end(comp, i, j) < comp.len() ==> comp[run_end(comp, i, j)] != comp[i],
    decreases comp.len() - j,
{
    if j < comp.len() && comp[i] == comp[j] {
        lemma_run_end_bounds(comp, i, j + 1);
    }
}

proof fn lemma_run_end_skip(comp: Seq<Seq<u8>>, i: int, j: int)
    requires
        0 <= i < j <= comp.len(),
        forall|k: int| i < k < j ==> comp[k] == comp[i],
    ensures
        run_end(comp, i, i + 1) == run_end(comp, i, j),
    decreases j - i,
{
    if j > i + 1 {
        lemma_run_end_skip(comp, i, j - 1);
        assert(comp[j - 1] == comp[i]);
    }
}

/// The frames below `upto` that are kept, with their new delays.
pub open spec fn kept(frames: Seq<ApngFrame>, keep: Seq<bool>, delays: Seq<(u16, u16)>, upto: int) -> Seq<
    ApngFrame,
>
    decreases upto,
{
    if upto <= 0 {
        seq![]
    } else if keep[upto - 1] {
        kept(frames, keep, delays, upto - 1).push(with_delay(frames[upto - 1], delays[upto - 1]))
    } else {
        kept(frames, keep, delays, upto - 1)
    }
}

proof fn lemma_kept_frame(
    frames: Seq<ApngFrame>,
    keep: Seq<bool>,
    delays: Seq<(u16, u16)>,
    keep2: Seq<bool>,
    delays2: Seq<(u16, u16)>,
    upto: int,
)
    requires
        forall|k: int| 0 <= k < upto ==> keep2[k] == keep[k] && (keep[k] ==> delays2[k] == delays[k]),
    ensures
        kept(frames, keep2, delays2, upto) == kept(frames, keep, delays, upto),
    decreases upto,
{
    if upto > 0 {
        lemma_kept_frame(frames, keep, delays, keep2, delays2, upto - 1);
    }
}

/// Merges every frame that shows the same image as the frame before it, and
/// leaves the same canvas behind once disposed of, into that frame: the
/// later frame is dropped and its delay added.
pub fn fold_duplicate_frames<F: Fn([u8; 4], [u8; 4]) -> [u8; 4]>(apng: &mut ApngImage, over: &F)
    requires
        blend_fn_ok(*over),
        old(apng).frames@.len() >= 2 && composable(*old(apng)) ==> fold_in_range(
            old(apng).frames@,
            fold_keys(*old(apng), *over),
            0,
        ),
    ensures
        final(apng).width == old(apng).width,
        final(apng).height == old(apng).height,
        final(apng).num_plays == old(apng).num_plays,
        final(apng).default_image == old(apng).default_image,
        old(apng).frames@.len() < 2 || !composable(*old(apng)) ==> *final(apng) == *old(apng),
        old(apng).frames@.len() >= 2 && composable(*old(apng)) ==> final(apng).frames@ == folded(
            old(apng).frames@,
            fold_keys(*old(apng), *over),
            0,
        ),
{
    if apng.frames.len() < 2 {
        return;
    }
    let (comps, disps) = match compose_with_disposals(&*apng, over) {
        Ok(c) => c,
        Err(_) => {
            return;
        },
    };
    let ghost old_img = *apng;
    let ghost frames = old_img.frames@;
    let ghost comp = fold_keys(old_img, *over);
    let n = apng.frames.len();
    let ghost lenc = rgba_size(apng.width as int, apng.height as int) as nat;
    proof {
        assert forall|k: int| 0 <= k < n implies #[trigger] comps@[k]@ + disps@[k]@ == comp[k]
            && comps@[k]@.len() == lenc by {
            lemma_disposal_len(*apng, *over, k);
        }
    }
    let mut keep: Vec<bool> = Vec::new();
    let mut delays: Vec<(u16, u16)> = Vec::new();
    let mut k: usize = 0;
    while k < n
        invariant
            k <= n,
            n == frames.len(),
            apng.frames@ == frames,
            keep@.len() == k,
            delays@.len() == k,
            forall|m: int| 0 <= m < k ==> #[trigger] keep@[m],
            forall|m: int|
                0 <= m < k ==> #[trigger] delays@[m] == (frames[m].delay_num, frames[m].delay_den),
        decreases n - k,
    {
        keep.push(true);
        delays.push((apng.frames[k].delay_num, apng.frames[k].delay_den));
        k = k + 1;
    }
    let mut i: usize = 0;
    while i < n
        invariant
            i <= n,
            n == frames.len(),
            n >= 2,
            apng.frames@ == frames,
            old_img == *old(apng),
            comps@.len() == n,
            disps@.len() == n,
            forall|m: int| 0 <= m < n ==> #[trigger] comps@[m]@ + disps@[m]@ == comp[m] && comps@[m]@.len() == lenc,
            comp.len() == n,
            fold_in_range(frames, comp, i as int),
            keep@.len() == n,
            delays@.len() == n,
            forall|m: int| i <= m < n ==> #[trigger] keep@[m],
            forall|m: int|
                i <= m < n ==> #[trigger] delays@[m] == (frames[m].delay_num, frames[m].delay_den),
            kept(frames, keep@, delays@, i as int) + folded(frames, comp, i as int) == folded(
                frames,
                comp,
                0,
            ),
        decreases n - i,
    {
        if !keep[i] {
            i = i + 1;
            continue;
        }
        proof {
            lemma_run_end_bounds(comp, i as int, i + 1);
        }
        let ghost keep0 = keep@;
        let ghost delays0 = delays@;
        let ghost e = run_end(comp, i as int, i + 1);
        let mut j = i + 1;
        while j < n && bytes_eq(&comps[i], &comps[j]) && bytes_eq(&disps[i], &disps[j])
            invariant
                i < j <= e,
                e == run_end(comp, i as int, i + 1),
                e <= n,
                i < n,
                n == frames.len(),
                apng.frames@ == frames,
                comps@.len() == n,
                disps@.len() == n,
                forall|m: int| 0 <= m < n ==> #[trigger] comps@[m]@ + disps@[m]@ == comp[m] && comps@[m]@.len() == lenc,
                comp.len() == n,
                forall|m: int| i < m < j ==> comp[m] == comp[i as int],
                forall|m: int|
                    i < m < e ==> merge_in_range(
                        #[trigger] run_delay(frames, i as int, m).0,
                        run_delay(frames, i as int, m).1,
                        frames[m].delay_num,
                        frames[m].delay_den,
                    ),
                keep@.len() == n,
                delays@.len() == n,
                delays@[i as int] == run_delay(frames, i as int, j as int),
                forall|m: int| 0 <= m < n && m != i ==> #[trigger] delays@[m] == delays0[m],
                forall|m: int| 0 <= m < n && !(i < m < j) ==> #[trigger] keep@[m] == keep0[m],
                forall|m: int| i < m < j ==> !#[trigger] keep@[m],
            decreases n - j,
        {
            proof {
                lemma_keys_equal(comps@[i as int]@, disps@[i as int]@, comps@[j as int]@, disps@[j as int]@);
                lemma_run_end_skip(comp, i as int, j + 1);
                lemma_run_end_bounds(comp, i as int, j + 1);
            }
            let merged = merge_delays(
                delays[i].0,
                delays[i].1,
                apng.frames[j].delay_num,
                apng.frames[j].delay_den,
            );
            delays.set(i, merged);
            keep.set(j, false);
            j = j + 1;
        }
        proof {
            if j < n {
                lemma_keys_equal(comps@[i as int]@, disps@[i as int]@, comps@[j as int]@, disps@[j as int]@);
                lemma_run_end_skip(comp, i as int, j as int);
                lemma_run_end_bounds(comp, i as int, j as int);
            } else {
                lemma_run_end_skip(comp, i as int, j as int);
            }
            assert(j == e);
            assert(kept(frames, keep@, delays@, i as int) == kept(frames, keep0, delays0, i as int))
                by {
                lemma_kept_frame(frames, keep0, delays0, keep@, delays@, i as int);
            }
            lemma_kept_run(frames, keep@, delays@, i + 1, j as int);
            assert(kept(frames, keep@, delays@, j as int) == kept(frames, keep0, delays0, i as int).push(
                with_delay(frames[i as int], run_delay(frames, i as int, e)),
            ));
            assert(folded(frames, comp, i as int) =~= seq![with_delay(frames[i as int], run_delay(frames, i as int, e))]
                + folded(frames, comp, e));
            assert(kept(frames, keep@, delays@, j as int) + folded(frames, comp, j as int) =~= kept(
                frames,
                keep0,
                delays0,
                i as int,
            ) + folded(frames, comp, i as int));
        }
        i = j;
    }
    let mut old_frames: Vec<ApngFrame> = Vec::new();
    std::mem::swap(&mut old_frames, &mut apng.frames);
    let mut out: Vec<ApngFrame> = Vec::new();
    let mut idx: usize = 0;
    for f in it: old_frames.into_iter()
        invariant
            idx == it.index(),
            it.seq() == frames,
            n == frames.len(),
            keep@.len() == n,
            delays@.len() == n,
            out@ == kept(frames, keep@, delays@, idx as int),
    {
        if keep[idx] {
            let d = delays[idx];
            out.push(ApngFrame { delay_num: d.0, delay_den: d.1, ..f });
        }
        idx = idx + 1;
    }
    proof {
        assert(folded(frames, comp, n as int) == Seq::<ApngFrame>::empty());
        assert(out@ =~= folded(frames, comp, 0));
    }
    apng.frames = out;
}

proof fn lemma_kept_run(
    frames: Seq<ApngFrame>,
    keep: Seq<bool>,
    delays: Seq<(u16, u16)>,
    from: int,
    t: int,
)
    requires
        0 <= from <= t,
        forall|m: int| from <= m < t ==> !#[trigger] keep[m],
    ensures
        kept(frames, keep, delays, t) == kept(frames, keep, delays, from),
    decreases t - from,
{
    if t > from {
        lemma_kept_run(frames, keep, delays, from, t - 1);
    }
}

/// Whether merging these two delays stays within the `u32` arithmetic of
/// [`merge_delays`].
pub fn merge_fits(num1: u16, den1: u16, num2: u16, den2: u16) -> (r: bool)
    ensures
        r == merge_in_range(num1, den1, num2, den2),
{
    let d1: u64 = if den1 == 0 { 100 } else { den1 as u64 };
    let d2: u64 = if den2 == 0 { 100 } else { den2 as u64 };
    if d1 == d2 && (num1 as u64) + (num2 as u64) <= 0xffff {
        return true;
    }
    proof {
        assert((num1 as u64) * d2 <= 0xffff * 0xffff) by (nonlinear_arith)
            requires
                d2 <= 0xffff,
        ;
        assert((num2 as u64) * d1 <= 0xffff * 0xffff) by (nonlinear_arith)
            requires
                d1 <= 0xffff,
        ;
    }
    let num: u64 = (num1 as u64) * d2 + (num2 as u64) * d1;
    if num > 0xffff_ffff {
        return false;
    }
    proof {
        assert(d1 * d2 <= 0xffff_ffff) by (nonlinear_arith)
            requires
                d1 <= 0xffff,
                d2 <= 0xffff,
        ;
    }
    let den: u64 = d1 * d2;
    proof {
        assert(den > 0) by (nonlinear_arith)
            requires
                den == d1 * d2,
                d1 > 0,
                d2 > 0,
        ;
        lemma_gcd_divides(num as nat, den as nat);
        assert(num == delay_sum_num(num1, den1, num2, den2));
        assert(den == delay_sum_den(den1, den2));
    }
    let g = gcd(num as u32, den as u32) as u64;
    if num / g <= 0xffff && den / g <= 0xffff {
        return true;
    }
    num * 1000 <= 0xffff_ffff
}

/// Whether folding this animation keeps every delay merge within the
/// arithmetic of [`merge_delays`]: what [`fold_duplicate_frames`] needs.
pub fn fold_delays_fit<F: Fn([u8; 4], [u8; 4]) -> [u8; 4]>(apng: &ApngImage, over: &F) -> (r: bool)
    requires
        blend_fn_ok(*over),
    ensures
        r == (apng.frames@.len() >= 2 && composable(*apng) ==> fold_in_range(
            apng.frames@,
            fold_keys(*apng, *over),
            0,
        )),
{
    if apng.frames.len() < 2 {
        return true;
    }
    let (comps, disps) = match compose_with_disposals(apng, over) {
        Ok(c) => c,
        Err(_) => {
            return true;
        },
    };
    let ghost frames = apng.frames@;
    let ghost comp = fold_keys(*apng, *over);
    let n = apng.frames.len();
    let ghost lenc = rgba_size(apng.width as int, apng.height as int) as nat;
    proof {
        assert forall|k: int| 0 <= k < n implies #[trigger] comps@[k]@ + disps@[k]@ == comp[k]
            && comps@[k]@.len() == lenc by {
            lemma_disposal_len(*apng, *over, k);
        }
    }
    let mut i: usize = 0;
    while i < n
        invariant
            i <= n,
            n == frames.len(),
            frames == apng.frames@,
            comps@.len() == n,
            disps@.len() == n,
            forall|m: int| 0 <= m < n ==> #[trigger] comps@[m]@ + disps@[m]@ == comp[m] && comps@[m]@.len() == lenc,
            comp.len() == n,
            fold_in_range(frames, comp, 0) == fold_in_range(frames, comp, i as int),
            apng.frames@.len() >= 2 && composable(*apng),
            comp == fold_keys(*apng, *over),
        decreases n - i,
    {
        proof {
            lemma_run_end_bounds(comp, i as int, i + 1);
        }
        let ghost e = run_end(comp, i as int, i + 1);
        let mut d: (u16, u16) = (apng.frames[i].delay_num, apng.frames[i].delay_den);
        let mut j = i + 1;
        while j < n && bytes_eq(&comps[i], &comps[j]) && bytes_eq(&disps[i], &disps[j])
            invariant
                i < j <= e,
                e == run_end(comp, i as int, i + 1),
                e <= n,
                i < n,
                n == frames.len(),
                frames == apng.frames@,
                comps@.len() == n,
                disps@.len() == n,
                forall|m: int| 0 <= m < n ==> #[trigger] comps@[m]@ + disps@[m]@ == comp[m] && comps@[m]@.len() == lenc,
                comp.len() == n,
                forall|m: int| i < m < j ==> comp[m] == comp[i as int],
                fold_in_range(frames, comp, 0) == fold_in_range(frames, comp, i as int),
                apng.frames@.len() >= 2 && composable(*apng),
                comp == fold_keys(*apng, *over),
                d == run_delay(frames, i as int, j as int),
                forall|m: int|
                    i < m < j ==> merge_in_range(
                        #[trigger] run_delay(frames, i as int, m).0,
                        run_delay(frames, i as int, m).1,
                        frames[m].delay_num,
                        frames[m].delay_den,
                    ),
            decreases n - j,
        {
            proof {
                lemma_keys_equal(comps@[i as int]@, disps@[i as int]@, comps@[j as int]@, disps@[j as int]@);
                lemma_run_end_skip(comp, i as int, j + 1);
                lemma_run_end_bounds(comp, i as int, j + 1);
            }
            if !merge_fits(d.0, d.1, apng.frames[j].delay_num, apng.frames[j].delay_den) {
                proof {
                    assert(!fold_in_range(frames, comp, i as int));
                }
                return false;
            }
            d = merge_delays(d.0, d.1, apng.frames[j].delay_num, apng.frames[j].delay_den);
            j = j + 1;
        }
        proof {
            lemma_run_end_skip(comp, i as int, j as int);
            if j < n {
                lemma_keys_equal(comps@[i as int]@, disps@[i as int]@, comps@[j as int]@, disps@[j as int]@);
                lemma_run_end_bounds(comp, i as int, j as int);
            }
            assert(j == e);
        }
        i = j;
    }
    true
}

/// The exact sum of the delays of frames `i .. j`, as an unreduced fraction
/// (numerator, denominator), a zero denominator counting as 100.
pub open spec fn run_total(frames: Seq<ApngFrame>, i: int, j: int) -> (nat, nat)
    decreases j - i,
{
    if j <= i + 1 {
        (frames[i].delay_num as nat, delay_den(frames[i].delay_den))
    } else {
        let t = run_total(frames, i, j - 1);
        let f = frames[j - 1];
        (t.0 * delay_den(f.delay_den) + (f.delay_num as nat) * t.1, t.1 * delay_den(f.delay_den))
    }
}

/// Every merge of the run `i .. j` is exact: by a common denominator or in
/// lowest terms, not rounded to milliseconds.
pub open spec fn run_exact(frames: Seq<ApngFrame>, i: int, j: int) -> bool {
    forall|m: int|
        i < m < j ==> #[trigger] same_den_fits(
            run_delay(frames, i, m).0,
            run_delay(frames, i, m).1,
            frames[m].delay_num,
            frames[m].delay_den,
        ) || reduced_fits(
            run_delay(frames, i, m).0,
            run_delay(frames, i, m).1,
            frames[m].delay_num,
            frames[m].delay_den,
        )
}

/// Law: a frame that absorbs a run of duplicates shows for as long as the
/// whole run did: the merged delay of frames `i .. j` equals the sum of
/// their delays whenever every merge is exact.
pub proof fn lemma_merged_run_duration(frames: Seq<ApngFrame>, i: int, j: int)
    requires
        0 <= i < j <= frames.len(),
        run_exact(frames, i, j),
    ensures
        run_total(frames, i, j).1 > 0,
        run_delay(frames, i, j).0 * run_total(frames, i, j).1 == run_total(frames, i, j).0 * delay_den(
            run_delay(frames, i, j).1,
        ),
    decreases j - i,
{
    if j <= i + 1 {
        assert(run_delay(frames, i, j) == (frames[i].delay_num, frames[i].delay_den));
        assert((frames[i].delay_num as nat) * delay_den(frames[i].delay_den) == (frames[i].delay_num as nat)
            * delay_den(frames[i].delay_den));
    } else {
        let m = j - 1;
        assert(run_exact(frames, i, m)) by {
            assert forall|k: int| i < k < m implies #[trigger] same_den_fits(
                run_delay(frames, i, k).0,
                run_delay(frames, i, k).1,
                frames[k].delay_num,
                frames[k].delay_den,
            ) || reduced_fits(
                run_delay(frames, i, k).0,
                run_delay(frames, i, k).1,
                frames[k].delay_num,
                frames[k].delay_den,
            ) by {
                assert(i < k < j);
            }
        }
        lemma_merged_run_duration(frames, i, m);
        let a = run_delay(frames, i, m);
        let t = run_total(frames, i, m);
        let f = frames[m];
        let r = spec_merge_delays(a.0, a.1, f.delay_num, f.delay_den);
        assert(run_delay(frames, i, j) == r);
        let da = delay_den(a.1);
        let df = delay_den(f.delay_den);
        let num = delay_sum_num(a.0, a.1, f.delay_num, f.delay_den);
        assert(same_den_fits(a.0, a.1, f.delay_num, f.delay_den) || reduced_fits(
            a.0,
            a.1,
            f.delay_num,
            f.delay_den,
        ));
        assert(da > 0 && df > 0);
        // The merge is exact: r.0 / r.1 == num / (da * df).
        assert(r.0 * da * df == r.1 * num) by {
            if same_den_fits(a.0, a.1, f.delay_num, f.delay_den) {
                assert(r == ((a.0 + f.delay_num) as u16, da as u16));
                assert((a.0 + f.delay_num) * da * da == da * ((a.0 as nat) * da + (f.delay_num as nat) * da))
                    by (nonlinear_arith);
            } else {
                let den = delay_sum_den(a.1, f.delay_den);
                assert(den == da * df);
                assert(den > 0) by (nonlinear_arith)
                    requires
                        den == da * df,
                        da > 0,
                        df > 0,
                ;
                lemma_gcd_divides(num, den);
                let g = spec_gcd(num, den);
                lemma_fundamental_div_mod(num as int, g as int);
                lemma_fundamental_div_mod(den as int, g as int);
                assert(r == ((num / g) as u16, (den / g) as u16));
                assert((num / g) * da * df == (den / g) * num) by (nonlinear_arith)
                    requires
                        num == g * (num / g),
                        den == g * (den / g),
                        den == da * df,
                        g > 0,
                ;
            }
        }
        assert(r.1 > 0) by {
            if same_den_fits(a.0, a.1, f.delay_num, f.delay_den) {
            } else {
                let den = delay_sum_den(a.1, f.delay_den);
                assert(den > 0) by (nonlinear_arith)
                    requires
                        den == da * df,
                        da > 0,
                        df > 0,
                ;
                lemma_gcd_divides(num, den);
                let g = spec_gcd(num, den);
                lemma_fundamental_div_mod(den as int, g as int);
                assert(den / g > 0) by (nonlinear_arith)
                    requires
                        den == g * (den / g),
                        den > 0,
                        g > 0,
                ;
            }
        }
        assert(delay_den(r.1) == r.1);
        let t2 = run_total(frames, i, j);
        assert(t2 == (t.0 * df + (f.delay_num as nat) * t.1, t.1 * df));
        assert(t2.1 > 0) by (nonlinear_arith)
            requires
                t2.1 == t.1 * df,
                t.1 > 0,
                df > 0,
        ;
        // From a.0 / da == t.0 / t.1 and the exact merge, r.0 / r.1 == t2.0 / t2.1.
        let (x0, x1, a0, fnum) = (r.0 as int, r.1 as int, a.0 as int, f.delay_num as int);
        let (u0, u1, dai, dfi, numi) = (t.0 as int, t.1 as int, da as int, df as int, num as int);
        assert(dai * (x0 * (u1 * dfi)) == u1 * (x0 * dai * dfi)) by (nonlinear_arith);
        assert(u1 * (x1 * numi) == x1 * (a0 * u1 * dfi + fnum * dai * u1)) by (nonlinear_arith)
            requires
                numi == a0 * dfi + fnum * dai,
        ;
        assert(a0 * u1 * dfi == u0 * dai * dfi) by (nonlinear_arith)
            requires
                a0 * u1 == u0 * dai,
        ;
        assert(x1 * (u0 * dai * dfi + fnum * dai * u1) == dai * ((u0 * dfi + fnum * u1) * x1)) by {
            let p = u0 * dfi;
            let q = fnum * u1;
            assert(u0 * dai * dfi == dai * p) by (nonlinear_arith)
                requires
                    p == u0 * dfi,
            ;
            assert(fnum * dai * u1 == dai * q) by (nonlinear_arith)
                requires
                    q == fnum * u1,
            ;
            lemma_mul_is_distributive_add(dai, p, q);
            lemma_mul_is_distributive_add(x1, dai * p, dai * q);
            assert(x1 * (dai * p) == dai * (p * x1)) by (nonlinear_arith);
            assert(x1 * (dai * q) == dai * (q * x1)) by (nonlinear_arith);
            lemma_mul_is_distributive_add(dai, p * x1, q * x1);
            lemma_mul_is_distributive_add(x1, p, q);
            assert((p + q) * x1 == p * x1 + q * x1) by (nonlinear_arith);
        }
        assert(dai * (x0 * (u1 * dfi)) == dai * ((u0 * dfi + fnum * u1) * x1));
        assert(x0 * (u1 * dfi) == (u0 * dfi + fnum * u1) * x1) by (nonlinear_arith)
            requires
                dai * (x0 * (u1 * dfi)) == dai * ((u0 * dfi + fnum * u1) * x1),
                dai > 0,
        ;
        assert(r.0 * t2.1 == t2.0 * r.1);
    }
}

// ---------------------------------------------------------------- folding keeps the animation

/// The index, among the input frames, of the `m`-th frame kept when
/// folding from frame `i` on.
pub open spec fn kept_index(comp: Seq<Seq<u8>>, i: int, m: nat) -> int
    decreases m,
{
    if m == 0 {
        i
    } else {
        kept_index(comp, run_end(comp, i, i + 1), (m - 1) as nat)
    }
}

proof fn lemma_folded_at(frames: Seq<ApngFrame>, comp: Seq<Seq<u8>>, i: int, m: nat)
    requires
        comp.len() == frames.len(),
        0 <= i,
        m < folded(frames, comp, i).len(),
    ensures
        i <= kept_index(comp, i, m) < frames.len(),
        folded(frames, comp, i)[m as int].width == frames[kept_index(comp, i, m)].width,
        folded(frames, comp, i)[m as int] == with_delay(
            frames[kept_index(comp, i, m)],
            (folded(frames, comp, i)[m as int].delay_num, folded(frames, comp, i)[m as int].delay_den),
        ),
        m >= 1 ==> kept_index(comp, i, m) == run_end(
            comp,
            kept_index(comp, i, (m - 1) as nat),
            kept_index(comp, i, (m - 1) as nat) + 1,
        ),
        m >= 1 ==> kept_index(comp, i, (m - 1) as nat) < kept_index(comp, i, m),
        m >= 1 ==> forall|k: int|
            kept_index(comp, i, (m - 1) as nat) < k < kept_index(comp, i, m) ==> #[trigger] comp[k]
                == comp[kept_index(comp, i, (m - 1) as nat)],
    decreases m,
{
    let e = run_end(comp, i, i + 1);
    assert(0 <= i < frames.len() && i < e <= frames.len()) by {
        if i >= frames.len() {
            assert(folded(frames, comp, i).len() == 0);
        }
        lemma_run_end_bounds(comp, i, i + 1);
    }
    lemma_run_end_bounds(comp, i, i + 1);
    let rest = folded(frames, comp, e);
    assert(folded(frames, comp, i) == seq![with_delay(frames[i], run_delay(frames, i, e))] + rest);
    if m == 0 {
    } else {
        assert(folded(frames, comp, i)[m as int] == rest[m - 1]);
        lemma_folded_at(frames, comp, e, (m - 1) as nat);
        assert(kept_index(comp, i, m) == kept_index(comp, e, (m - 1) as nat));
        if m >= 2 {
            assert(kept_index(comp, i, (m - 1) as nat) == kept_index(comp, e, (m - 2) as nat));
        } else {
            assert(kept_index(comp, i, 0) == i);
            assert(kept_index(comp, e, 0) == e);
        }
    }
}

/// Law: a first frame that disposes to "previous" has no earlier canvas to
/// return to, so it leaves the image it showed with its own rectangle
/// cleared to transparent black; the second frame is drawn on that.
pub proof fn lemma_first_frame_previous_clears<F: Fn([u8; 4], [u8; 4]) -> [u8; 4]>(img: ApngImage, over: F)
    requires
        img.frames@.len() >= 1,
        img.frames@[0].dispose_op == DisposeOp::Previous,
    ensures
        forall|b: int|
            0 <= b < composed_frame(img, over, 0).len() ==> #[trigger] disposal_after(img, over, 0)[b] == if in_rect(
                b,
                img.width as int,
                img.frames@[0].x_offset as int,
                img.frames@[0].y_offset as int,
                img.frames@[0].width as int,
                img.frames@[0].height as int,
            ) {
                0u8
            } else {
                composed_frame(img, over, 0)[b]
            },
        disposal_after(img, over, 0).len() == composed_frame(img, over, 0).len(),
        img.frames@.len() >= 2 ==> composed_frame(img, over, 1) == blended(
            disposal_after(img, over, 0),
            img.width as int,
            img.frames@[1],
            over,
        ),
{
    if img.frames@.len() >= 2 {
        lemma_state_step(img, over, 1);
    }
}

/// The canvas that frame `k` is drawn on.
pub open spec fn canvas_before<F: Fn([u8; 4], [u8; 4]) -> [u8; 4]>(img: ApngImage, over: F, k: int) -> Seq<
    u8,
> {
    if k <= 0 {
        compose_state(img, over, 0).0
    } else {
        disposal_after(img, over, k - 1)
    }
}

proof fn lemma_state_step<F: Fn([u8; 4], [u8; 4]) -> [u8; 4]>(img: ApngImage, over: F, k: int)
    requires
        0 <= k < img.frames@.len(),
    ensures
        compose_state(img, over, (k + 1) as nat) == (
            blended(canvas_before(img, over, k), img.width as int, img.frames@[k], over),
            if spec_effective_dispose(img.frames@[k], k) == DisposeOp::Previous {
                Some(canvas_before(img, over, k))
            } else {
                None
            },
        ),
{
    if k > 0 {
        assert(compose_state(img, over, k as nat) == compose_state(img, over, ((k - 1) + 1) as nat));
    }
}

proof fn lemma_fold_state<F: Fn([u8; 4], [u8; 4]) -> [u8; 4]>(
    old_img: ApngImage,
    new_img: ApngImage,
    over: F,
    m: nat,
)
    requires
        new_img.width == old_img.width,
        new_img.height == old_img.height,
        new_img.frames@ == folded(old_img.frames@, fold_keys(old_img, over), 0),
        m < new_img.frames@.len(),
    ensures
        m <= kept_index(fold_keys(old_img, over), 0, m) < old_img.frames@.len(),
        compose_state(new_img, over, (m + 1) as nat) == compose_state(
            old_img,
            over,
            (kept_index(fold_keys(old_img, over), 0, m) + 1) as nat,
        ),
    decreases m,
{
    let keys = fold_keys(old_img, over);
    let frames = old_img.frames@;
    let w = old_img.width as int;
    lemma_folded_at(frames, keys, 0, m);
    let km = kept_index(keys, 0, m);
    let nf = new_img.frames@[m as int];
    assert(nf == with_delay(frames[km], (nf.delay_num, nf.delay_den)));
    lemma_state_step(new_img, over, m as int);
    lemma_state_step(old_img, over, km);
    if m == 0 {
        assert(km == 0);
        assert(canvas_before(new_img, over, 0) == canvas_before(old_img, over, 0));
    } else {
        lemma_fold_state(old_img, new_img, over, (m - 1) as nat);
        let kp = kept_index(keys, 0, (m - 1) as nat);
        lemma_folded_at(frames, keys, 0, (m - 1) as nat);
        let pf = new_img.frames@[m - 1];
        assert(pf == with_delay(frames[kp], (pf.delay_num, pf.delay_den)));
        assert(compose_state(new_img, over, m) == compose_state(new_img, over, ((m - 1) + 1) as nat));
        assert(canvas_before(new_img, over, m as int) == disposal_after(old_img, over, kp));
        assert(disposal_after(old_img, over, kp) == disposal_after(old_img, over, km - 1)) by {
            if km - 1 > kp {
                assert(keys[km - 1] == keys[kp]);
                lemma_disposal_len(old_img, over, kp);
                lemma_disposal_len(old_img, over, km - 1);
                lemma_keys_equal(
                    composed_frame(old_img, over, kp),
                    disposal_after(old_img, over, kp),
                    composed_frame(old_img, over, km - 1),
                    disposal_after(old_img, over, km - 1),
                );
            }
        }
        assert(canvas_before(new_img, over, m as int) == canvas_before(old_img, over, km));
    }
}

/// Law: folding duplicate frames keeps the animation, whatever the frames'
/// dispose operations. The `m`-th remaining frame stands for a run of input
/// frames that starts at its own input frame; it shows the image that every
/// frame of that run showed.
pub proof fn lemma_fold_preserves_composition<F: Fn([u8; 4], [u8; 4]) -> [u8; 4]>(
    old_img: ApngImage,
    new_img: ApngImage,
    over: F,
)
    requires
        new_img.width == old_img.width,
        new_img.height == old_img.height,
        new_img.frames@ == folded(old_img.frames@, fold_keys(old_img, over), 0),
    ensures
        forall|m: nat|
            m < new_img.frames@.len() ==> 0 <= #[trigger] kept_index(fold_keys(old_img, over), 0, m)
                < old_img.frames@.len() && composed_frame(new_img, over, m as int) == composed_frame(
                old_img,
                over,
                kept_index(fold_keys(old_img, over), 0, m),
            ) && forall|j: int|
                kept_index(fold_keys(old_img, over), 0, m) <= j < run_end(
                    fold_keys(old_img, over),
                    kept_index(fold_keys(old_img, over), 0, m),
                    kept_index(fold_keys(old_img, over), 0, m) + 1,
                ) ==> #[trigger] composed_frame(old_img, over, j) == composed_frame(
                    old_img,
                    over,
                    kept_index(fold_keys(old_img, over), 0, m),
                ),
{
    let keys = fold_keys(old_img, over);
    assert forall|m: nat| m < new_img.frames@.len() implies 0 <= #[trigger] kept_index(keys, 0, m)
        < old_img.frames@.len() && composed_frame(new_img, over, m as int) == composed_frame(
        old_img,
        over,
        kept_index(keys, 0, m),
    ) && forall|j: int|
        kept_index(keys, 0, m) <= j < run_end(keys, kept_index(keys, 0, m), kept_index(keys, 0, m) + 1)
            ==> #[trigger] composed_frame(old_img, over, j) == composed_frame(
            old_img,
            over,
            kept_index(keys, 0, m),
        ) by {
        lemma_fold_state(old_img, new_img, over, m);
        let k = kept_index(keys, 0, m);
        lemma_run_end_bounds(keys, k, k + 1);
        assert forall|j: int| k <= j < run_end(keys, k, k + 1) implies #[trigger] composed_frame(
            old_img,
            over,
            j,
        ) == composed_frame(old_img, over, k) by {
            if j > k {
                assert(keys[j] == keys[k]);
                assert(keys[j] == composed_frame(old_img, over, j) + disposal_after(old_img, over, j));
                assert(keys[k] == composed_frame(old_img, over, k) + disposal_after(old_img, over, k));
                lemma_disposal_len(old_img, over, k);
                lemma_disposal_len(old_img, over, j);
                lemma_keys_equal(
                    composed_frame(old_img, over, k),
                    disposal_after(old_img, over, k),
                    composed_frame(old_img, over, j),
                    disposal_after(old_img, over, j),
                );
            }
        }
    }
}

// ---------------------------------------------------------------- aggressive-mode rollback

/// The size of an encoding, a failed one counting as the largest.
pub open spec fn encoded_size(len: Option<usize>) -> int {
    match len {
        Some(n) => n as int,
        None => usize::MAX as int,
    }
}

/// Whether minimized frame rectangles are kept: only when the minimized
/// animation encodes no larger than the unminimized one (a failed encoding
/// counting as the largest); otherwise the minimization is rolled back.
pub fn keep_minimized(minimized_len: Option<usize>, unminimized_len: Option<usize>) -> (r: bool)
    ensures
        r == (encoded_size(minimized_len) <= encoded_size(unminimized_len)),
{
    let a = match minimized_len {
        Some(n) => n,
        None => usize::MAX,
    };
    let b = match unminimized_len {
        Some(n) => n,
        None => usize::MAX,
    };
    a <= b
}

// ---------------------------------------------------------------- encoding checks

pub open spec fn no_frames_msg() -> Seq<char> {
    "APNG encoding requires at least one animation frame"@
}

pub open spec fn partial_first_frame_msg() -> Seq<char> {
    "first APNG frame must cover the full canvas when no separate default image is present"@
}

pub open spec fn default_length_msg(expected: nat, actual: nat) -> Seq<char> {
    "APNG default image length mismatch: expected="@ + decimal(expected) + ", actual="@ + decimal(actual)
}

/// The first frame is placed at the origin with the canvas's size.
pub open spec fn covers_canvas(img: ApngImage) -> bool {
    let f = img.frames[0];
    f.x_offset == 0 && f.y_offset == 0 && f.width == img.width && f.height == img.height
}

/// The default image, if any, holds exactly one canvas of RGBA bytes.
pub open spec fn default_image_valid(img: ApngImage) -> bool {
    match img.default_image {
        Some(d) => rgba_size(img.width as int, img.height as int) <= usize::MAX && d.rgba@.len()
            == rgba_size(img.width as int, img.height as int),
        None => true,
    }
}

/// What an APNG must satisfy to be written: at least one frame, a first
/// frame covering the canvas when there is no separate default image, a
/// default image of the canvas's size, and frames that are all valid.
pub open spec fn encodable(img: ApngImage) -> bool {
    &&& img.frames@.len() > 0
    &&& (img.default_image is None ==> covers_canvas(img))
    &&& default_image_valid(img)
    &&& forall|k: int| 0 <= k < img.frames@.len() ==> frame_valid(img.width, img.height, #[trigger] img.frames@[k])
}

/// The error reported for an image that is not encodable: the first check
/// that fails, in the order of [`encodable`].
pub open spec fn encoding_error(img: ApngImage, e: AppError) -> bool {
    if img.frames@.len() == 0 {
        e matches AppError::Encode(m) && m@ == no_frames_msg()
    } else if img.default_image is None && !covers_canvas(img) {
        e matches AppError::Encode(m) && m@ == partial_first_frame_msg()
    } else if !default_image_valid(img) {
        if rgba_size(img.width as int, img.height as int) > usize::MAX {
            e matches AppError::Decode(m) && m@ == size_overflow_msg()
        } else {
            e matches AppError::Encode(m) && m@ == default_length_msg(
                rgba_size(img.width as int, img.height as int) as nat,
                img.default_image->0.rgba@.len(),
            )
        }
    } else {
        exists|k: int|
            0 <= k < img.frames@.len() && !frame_valid(img.width, img.height, #[trigger] img.frames@[k])
                && (forall|j: int| 0 <= j < k ==> frame_valid(img.width, img.height, #[trigger] img.frames@[j]))
                && frame_error(e, img.width, img.height, img.frames@[k])
    }
}

/// Checks everything about an APNG that its encoding relies on.
pub fn validate_apng_for_encoding(apng: &ApngImage) -> (r: Result<(), AppError>)
    ensures
        r is Ok <==> encodable(*apng),
        r matches Err(e) ==> encoding_error(*apng, e),
{
    if apng.frames.len() == 0 {
        return Err(AppError::Encode(owned("APNG encoding requires at least one animation frame")));
    }
    if apng.default_image.is_none() {
        let first = &apng.frames[0];
        if first.x_offset != 0 || first.y_offset != 0 || first.width != apng.width || first.height
            != apng.height {
            return Err(
                AppError::Encode(
                    owned(
                        "first APNG frame must cover the full canvas when no separate default image is present",
                    ),
                ),
            );
        }
    }
    if let Some(default_image) = &apng.default_image {
        let expected = rgba_len(apng.width, apng.height)?;
        if default_image.rgba.len() != expected {
            let mut m = owned("APNG default image length mismatch: expected=");
            push_decimal(&mut m, expected as u64);
            push_str(&mut m, ", actual=");
            push_decimal(&mut m, default_image.rgba.len() as u64);
            return Err(AppError::Encode(m));
        }
    }
    let mut k: usize = 0;
    while k < apng.frames.len()
        invariant
            k <= apng.frames@.len(),
            apng.frames@.len() > 0,
            apng.default_image is None ==> covers_canvas(*apng),
            default_image_valid(*apng),
            forall|j: int| 0 <= j < k ==> frame_valid(apng.width, apng.height, #[trigger] apng.frames@[j]),
        decreases apng.frames@.len() - k,
    {
        match validate_frame(apng.width, apng.height, &apng.frames[k]) {
            Ok(()) => {},
            Err(e) => {
                proof {
                    assert(!frame_valid(apng.width, apng.height, apng.frames@[k as int]));
                }
                return Err(e);
            },
        }
        k = k + 1;
    }
    Ok(())
}

} // verus!
