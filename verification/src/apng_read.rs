//! What decoding an animated PNG decides once the `png` reader has handed
//! over its header and frames: whether the file is animated, which read or
//! format problem is reported first, and the image built from the frames.

use vstd::prelude::*;

use crate::apng::{
    bounds_error, frame_fits, validate_frame_bounds, ApngDefaultImage, ApngFrame, ApngImage, BlendOp,
    DisposeOp,
};
use crate::error::AppError;
use crate::text::{decimal, owned, push_decimal, push_str};

verus! {

/// The frame control (fcTL) fields of a frame.
#[derive(Debug, Clone, Copy)]
pub struct FrameControlValues {
    pub x_offset: u32,
    pub y_offset: u32,
    pub delay_num: u16,
    pub delay_den: u16,
    pub dispose_op: DisposeOp,
    pub blend_op: BlendOp,
}

/// A frame as the reader decoded it: its size, whether the output is 8-bit
/// RGBA (and the output format's name), its frame control if the reader had
/// one, and its pixels.
#[derive(Debug, Clone)]
pub struct ReadFrame {
    pub width: u32,
    pub height: u32,
    pub rgba8: bool,
    pub format: String,
    pub control: Option<FrameControlValues>,
    pub rgba: Vec<u8>,
}

/// One step of the reader: a decoded frame, or the text of its error.
#[derive(Debug, Clone)]
pub enum ReadStep {
    Read(ReadFrame),
    Failed(String),
}

/// What the reader gave: its header error, no animation control, no output
/// buffer size, or the canvas, the play count, the separate default image
/// (if the first frame has no frame control) and the frames read, up to and
/// including the first that failed.
#[derive(Debug, Clone)]
pub enum ApngRead {
    InfoFailed(String),
    NotAnimated,
    NoBufferSize,
    Animated {
        width: u32,
        height: u32,
        num_plays: u32,
        default_image: Option<ReadStep>,
        frames: Vec<ReadStep>,
    },
}

/// Whether animation frame `step` becomes a frame of the image.
pub open spec fn step_accepted(step: ReadStep, cw: u32, ch: u32) -> bool {
    match step {
        ReadStep::Failed(_) => false,
        ReadStep::Read(f) => f.rgba8 && match f.control {
            Some(c) => frame_fits(
                cw as int,
                ch as int,
                f.width as int,
                f.height as int,
                c.x_offset as int,
                c.y_offset as int,
            ),
            None => false,
        },
    }
}

/// The error reported for animation frame `k` when it is not accepted.
pub open spec fn step_error(step: ReadStep, k: int, cw: u32, ch: u32, e: AppError) -> bool {
    match step {
        ReadStep::Failed(t) => e matches AppError::Decode(m) && m@ == "failed to decode APNG frame "@ + decimal(
            (k + 1) as nat,
        ) + ": "@ + t@,
        ReadStep::Read(f) => if !f.rgba8 {
            e matches AppError::Decode(m) && m@ == "unsupported APNG output format: "@ + f.format@
        } else {
            match f.control {
                None => e matches AppError::Decode(m) && m@ == "APNG frame "@ + decimal((k + 1) as nat)
                    + " missing frame control metadata"@,
                Some(c) => bounds_error(e, cw, ch, f.width, f.height, c.x_offset, c.y_offset),
            }
        },
    }
}

/// `fr` is the image frame built from the accepted step `step`.
pub open spec fn frame_built(fr: ApngFrame, step: ReadStep) -> bool {
    match step {
        ReadStep::Read(f) => match f.control {
            Some(c) => {
                &&& fr.width == f.width
                &&& fr.height == f.height
                &&& fr.x_offset == c.x_offset
                &&& fr.y_offset == c.y_offset
                &&& fr.delay_num == c.delay_num
                &&& fr.delay_den == c.delay_den
                &&& fr.dispose_op == c.dispose_op
                &&& fr.blend_op == c.blend_op
                &&& fr.rgba@ == f.rgba@
            },
            None => false,
        },
        ReadStep::Failed(_) => false,
    }
}

/// Whether the separate default image (if any) is accepted: read, 8-bit
/// RGBA, and the size of the canvas.
pub open spec fn default_accepted(d: Option<ReadStep>, cw: u32, ch: u32) -> bool {
    match d {
        None => true,
        Some(ReadStep::Failed(_)) => false,
        Some(ReadStep::Read(f)) => f.rgba8 && f.width == cw && f.height == ch,
    }
}

/// The error reported for a default image that is not accepted.
pub open spec fn default_error(d: Option<ReadStep>, cw: u32, ch: u32, e: AppError) -> bool {
    match d {
        Some(ReadStep::Failed(t)) => e matches AppError::Decode(m) && m@ == "failed to decode APNG default image: "@
            + t@,
        Some(ReadStep::Read(f)) => if !f.rgba8 {
            e matches AppError::Decode(m) && m@ == "unsupported APNG output format: "@ + f.format@
        } else {
            e matches AppError::Decode(m) && m@ == "invalid APNG default image bounds: expected="@ + decimal(
                cw as nat,
            ) + "x"@ + decimal(ch as nat) + ", actual="@ + decimal(f.width as nat) + "x"@ + decimal(
                f.height as nat,
            )
        },
        None => false,
    }
}

/// `img` is the image built from the accepted default image and frames.
pub open spec fn image_built(
    img: ApngImage,
    cw: u32,
    ch: u32,
    num_plays: u32,
    d: Option<ReadStep>,
    frames: Seq<ReadStep>,
) -> bool {
    &&& img.width == cw
    &&& img.height == ch
    &&& img.num_plays == num_plays
    &&& match d {
        None => img.default_image is None,
        Some(ReadStep::Read(f)) => img.default_image matches Some(di) && di.rgba@ == f.rgba@,
        Some(ReadStep::Failed(_)) => false,
    }
    &&& img.frames@.len() == frames.len()
    &&& forall|k: int| 0 <= k < frames.len() ==> frame_built(#[trigger] img.frames@[k], frames[k])
}

fn unsupported_format(format: &String) -> (e: AppError)
    ensures
        e matches AppError::Decode(m) && m@ == "unsupported APNG output format: "@ + format@,
{
    let mut m = owned("unsupported APNG output format: ");
    push_str(&mut m, format.as_str());
    AppError::Decode(m)
}

/// Decides what decoding an animated PNG gives, from what the reader
/// handed over: `None` without animation control; the first problem met,
/// in reading order (header, buffer size, default image, then each frame:
/// read error, output format, frame control, bounds), as a `Decode` error;
/// otherwise the image, frame by frame.
pub fn assemble_apng(read: ApngRead) -> (r: Result<Option<ApngImage>, AppError>)
    ensures
        match read {
            ApngRead::InfoFailed(t) => r matches Err(AppError::Decode(m)) && m@ == "failed to read PNG info: "@ + t@,
            ApngRead::NotAnimated => r matches Ok(None),
            ApngRead::NoBufferSize => r matches Err(AppError::Decode(m)) && m@
                == "failed to compute APNG output buffer size"@,
            ApngRead::Animated { width, height, num_plays, default_image, frames } => if !default_accepted(
                default_image,
                width,
                height,
            ) {
                r matches Err(e) && default_error(default_image, width, height, e)
            } else if exists|k: int| 0 <= k < frames@.len() && !step_accepted(#[trigger] frames@[k], width, height) {
                r matches Err(e) && exists|k: int|
                    0 <= k < frames@.len() && (forall|j: int|
                        0 <= j < k ==> step_accepted(#[trigger] frames@[j], width, height)) && !step_accepted(
                        frames@[k],
                        width,
                        height,
                    ) && step_error(frames@[k], k, width, height, e)
            } else {
                r matches Ok(Some(img)) && image_built(img, width, height, num_plays, default_image, frames@)
            },
        },
{
    let ghost orig = read;
    match read {
        ApngRead::InfoFailed(t) => {
            let mut m = owned("failed to read PNG info: ");
            push_str(&mut m, t.as_str());
            Err(AppError::Decode(m))
        },
        ApngRead::NotAnimated => Ok(None),
        ApngRead::NoBufferSize => Err(AppError::Decode(owned("failed to compute APNG output buffer size"))),
        ApngRead::Animated { width, height, num_plays, default_image, frames } => {
            let ghost dflt = default_image;
            let ghost steps = frames@;
            let default_out: Option<ApngDefaultImage> = match default_image {
                None => None,
                Some(ReadStep::Failed(t)) => {
                    let mut m = owned("failed to decode APNG default image: ");
                    push_str(&mut m, t.as_str());
                    return Err(AppError::Decode(m));
                },
                Some(ReadStep::Read(f)) => {
                    if !f.rgba8 {
                        return Err(unsupported_format(&f.format));
                    }
                    if f.width != width || f.height != height {
                        let mut m = owned("invalid APNG default image bounds: expected=");
                        push_decimal(&mut m, width as u64);
                        push_str(&mut m, "x");
                        push_decimal(&mut m, height as u64);
                        push_str(&mut m, ", actual=");
                        push_decimal(&mut m, f.width as u64);
                        push_str(&mut m, "x");
                        push_decimal(&mut m, f.height as u64);
                        return Err(AppError::Decode(m));
                    }
                    Some(ApngDefaultImage { rgba: f.rgba })
                },
            };
            let mut out: Vec<ApngFrame> = Vec::new();
            let mut k: usize = 0;
            let n = frames.len();
            for step in it: frames.into_iter()
                invariant
                    n == steps.len(),
                    orig == read,
                    orig matches ApngRead::Animated { width: w2, height: h2, num_plays: p2, default_image: d2, frames: f2 }
                        && w2 == width && h2 == height && p2 == num_plays && d2 == dflt && f2@ == steps,
                    default_accepted(dflt, width, height),
                    match dflt {
                        None => default_out is None,
                        Some(ReadStep::Read(f)) => default_out matches Some(di) && di.rgba@ == f.rgba@,
                        Some(ReadStep::Failed(_)) => false,
                    },
                    k == it.index(),
                    it.seq() == steps,
                    out@.len() == k,
                    forall|j: int| 0 <= j < k ==> step_accepted(#[trigger] steps[j], width, height),
                    forall|j: int| 0 <= j < k ==> frame_built(#[trigger] out@[j], steps[j]),
            {
                proof {
                    assert(step == steps[k as int]);
                }
                match step {
                    ReadStep::Failed(t) => {
                        let mut m = owned("failed to decode APNG frame ");
                        push_decimal(&mut m, k as u64 + 1);
                        push_str(&mut m, ": ");
                        push_str(&mut m, t.as_str());
                        return Err(AppError::Decode(m));
                    },
                    ReadStep::Read(f) => {
                        if !f.rgba8 {
                            return Err(unsupported_format(&f.format));
                        }
                        let c = match f.control {
                            Some(c) => c,
                            None => {
                                let mut m = owned("APNG frame ");
                                push_decimal(&mut m, k as u64 + 1);
                                push_str(&mut m, " missing frame control metadata");
                                return Err(AppError::Decode(m));
                            },
                        };
                        match validate_frame_bounds(width, height, f.width, f.height, c.x_offset, c.y_offset) {
                            Ok(()) => {},
                            Err(e) => {
                                return Err(e);
                            },
                        }
                        out.push(
                            ApngFrame {
                                width: f.width,
                                height: f.height,
                                x_offset: c.x_offset,
                                y_offset: c.y_offset,
                                delay_num: c.delay_num,
                                delay_den: c.delay_den,
                                dispose_op: c.dispose_op,
                                blend_op: c.blend_op,
                                rgba: f.rgba,
                            },
                        );
                    },
                }
                k = k + 1;
            }
            Ok(Some(ApngImage { width, height, num_plays, default_image: default_out, frames: out }))
        },
    }
}

} // verus!
