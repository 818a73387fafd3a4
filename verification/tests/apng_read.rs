use pngoptim::apng::{BlendOp, DisposeOp};
use pngoptim::apng_read::{assemble_apng, ApngRead, FrameControlValues, ReadFrame, ReadStep};
use pngoptim::error::AppError;

fn control(x: u32, y: u32) -> FrameControlValues {
    FrameControlValues {
        x_offset: x,
        y_offset: y,
        delay_num: 1,
        delay_den: 10,
        dispose_op: DisposeOp::Background,
        blend_op: BlendOp::Over,
    }
}

fn read(w: u32, h: u32, rgba8: bool, c: Option<FrameControlValues>) -> ReadStep {
    ReadStep::Read(ReadFrame {
        width: w,
        height: h,
        rgba8,
        format: "Rgba Eight".to_string(),
        control: c,
        rgba: vec![7; (w * h * 4) as usize],
    })
}

fn animated(default_image: Option<ReadStep>, frames: Vec<ReadStep>) -> ApngRead {
    ApngRead::Animated { width: 2, height: 2, num_plays: 3, default_image, frames }
}

fn decode_message(r: Result<Option<pngoptim::apng::ApngImage>, AppError>) -> String {
    match r {
        Err(AppError::Decode(m)) => m,
        other => panic!("expected a decode error, got {other:?}"),
    }
}

#[test]
fn assembling_builds_the_frames_and_default_image() {
    let img = assemble_apng(animated(Some(read(2, 2, true, None)), vec![read(1, 1, true, Some(control(1, 1)))]))
        .expect("ok")
        .expect("animated");
    assert_eq!((img.width, img.height, img.num_plays), (2, 2, 3));
    assert_eq!(img.default_image.expect("default").rgba, vec![7; 16]);
    assert_eq!(img.frames.len(), 1);
    assert_eq!((img.frames[0].x_offset, img.frames[0].y_offset), (1, 1));
    assert_eq!(img.frames[0].dispose_op, DisposeOp::Background);
    assert!(assemble_apng(ApngRead::NotAnimated).expect("ok").is_none());
}

#[test]
fn assembling_reports_the_first_problem_in_reading_order() {
    assert_eq!(decode_message(assemble_apng(ApngRead::InfoFailed("bad".into()))), "failed to read PNG info: bad");
    assert_eq!(decode_message(assemble_apng(ApngRead::NoBufferSize)), "failed to compute APNG output buffer size");
    assert_eq!(
        decode_message(assemble_apng(animated(Some(ReadStep::Failed("eof".into())), vec![]))),
        "failed to decode APNG default image: eof"
    );
    assert_eq!(
        decode_message(assemble_apng(animated(Some(read(1, 2, true, None)), vec![]))),
        "invalid APNG default image bounds: expected=2x2, actual=1x2"
    );
    assert_eq!(
        decode_message(assemble_apng(animated(None, vec![read(1, 1, false, Some(control(0, 0)))]))),
        "unsupported APNG output format: Rgba Eight"
    );
    assert_eq!(
        decode_message(assemble_apng(animated(
            None,
            vec![read(1, 1, true, Some(control(0, 0))), read(1, 1, true, None), ReadStep::Failed("x".into())]
        ))),
        "APNG frame 2 missing frame control metadata"
    );
    assert_eq!(
        decode_message(assemble_apng(animated(
            None,
            vec![read(1, 1, true, Some(control(0, 0))), ReadStep::Failed("crc".into())]
        ))),
        "failed to decode APNG frame 2: crc"
    );
    assert_eq!(
        decode_message(assemble_apng(animated(None, vec![read(2, 1, true, Some(control(1, 0)))]))),
        "APNG frame out of bounds: frame=2x1 at 1,0 on canvas 2x2"
    );
}
