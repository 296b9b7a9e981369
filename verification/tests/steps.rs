use nef_compactor::jxl::{
    DecoderAction, DecoderEvent, EncoderAction, EncoderEvent, ImageDecoding, OutputBuffer,
};

#[test]
fn output_buffer_doubles_until_the_data_fits() {
    let mut b = OutputBuffer::new();
    assert_eq!((b.capacity(), b.used()), (1048576, 0));
    match b.advance(0, EncoderEvent::NeedMoreOutput) {
        EncoderAction::Grow(n) => assert_eq!(n, 2097152),
        _ => panic!("the buffer was too small"),
    }
    assert_eq!((b.capacity(), b.used()), (2097152, 1048576));
    match b.advance(97152, EncoderEvent::Success) {
        EncoderAction::Finish(n) => assert_eq!(n, 2000000),
        _ => panic!("the data was complete"),
    }
    match b.advance(5, EncoderEvent::Error("broken".to_string())) {
        EncoderAction::Fail(e) => assert_eq!(e, "broken"),
        _ => panic!("the encoder failed"),
    }
}

fn failure(a: DecoderAction) -> String {
    match a {
        DecoderAction::Fail(e) => e,
        _ => panic!("a failure was expected"),
    }
}

#[test]
fn images_of_the_expected_size_are_decoded() {
    let mut d = ImageDecoding::new(30, 20);
    assert!(matches!(d.advance(DecoderEvent::BasicInfo), DecoderAction::ReadInfo));
    assert_eq!(failure(d.advance(DecoderEvent::NeedImageOutBuffer)), "JXL image size not known");
    assert_eq!(
        d.note_size(20, 30).unwrap_err(),
        "JXL image size 20x30 != expected 30x20"
    );
    assert_eq!(d.note_size(30, 20), Ok(()));
    assert!(matches!(
        d.advance(DecoderEvent::NeedImageOutBuffer),
        DecoderAction::SetBuffer(600)
    ));
    assert!(matches!(d.advance(DecoderEvent::FullImage), DecoderAction::Continue));
    assert!(matches!(d.advance(DecoderEvent::Success), DecoderAction::Finish));
    assert_eq!(
        failure(d.advance(DecoderEvent::NeedMoreInput)),
        "JXL decoder needs more input (truncated?)"
    );
    assert_eq!(
        failure(d.advance(DecoderEvent::Unexpected("Box".to_string()))),
        "JXL decoder unexpected status: Box"
    );
    let mut huge = ImageDecoding::new(u32::MAX, u32::MAX);
    assert_eq!(huge.note_size(u32::MAX, u32::MAX), Ok(()));
    assert_eq!(
        failure(huge.advance(DecoderEvent::NeedImageOutBuffer)),
        "JXL image too large"
    );
}
