use snapocr_shot::capture::{CaptureLayout, CaptureState, FrameEvent, SessionEvent};
use snapocr_shot::pixel_format::{pick_format, to_rgba, CaptureError, PixelFormat};

#[test]
fn pick_format_prefers_opaque_bgr() {
    let offered = [PixelFormat::Argb8888, PixelFormat::Xrgb8888, PixelFormat::Xbgr8888];
    assert_eq!(pick_format(&offered), Ok(PixelFormat::Xbgr8888));
}

#[test]
fn pick_format_follows_preference_order() {
    assert_eq!(
        pick_format(&[PixelFormat::Argb8888, PixelFormat::Abgr8888]),
        Ok(PixelFormat::Abgr8888)
    );
    assert_eq!(
        pick_format(&[PixelFormat::Other(7), PixelFormat::Argb8888]),
        Ok(PixelFormat::Argb8888)
    );
    assert_eq!(
        pick_format(&[PixelFormat::Abgr8888, PixelFormat::Xrgb8888]),
        Ok(PixelFormat::Xrgb8888)
    );
}

#[test]
fn pick_format_without_decodable_format_reports_the_offer() {
    let offered = [PixelFormat::Other(0x34325258), PixelFormat::Other(1)];
    assert_eq!(pick_format(&offered), Err(CaptureError::NoDecodableFormat(offered.to_vec())));
    assert_eq!(pick_format(&[]), Err(CaptureError::NoDecodableFormat(vec![])));
}

#[test]
fn to_rgba_swaps_red_and_blue_for_xrgb() {
    let src = [1u8, 2, 3, 4, 5, 6, 7, 8];
    assert_eq!(to_rgba(&src, 2, 1, PixelFormat::Xrgb8888), Ok(vec![3, 2, 1, 255, 7, 6, 5, 255]));
}

#[test]
fn to_rgba_keeps_alpha_for_argb() {
    let src = [10u8, 20, 30, 40];
    assert_eq!(to_rgba(&src, 1, 1, PixelFormat::Argb8888), Ok(vec![30, 20, 10, 40]));
}

#[test]
fn to_rgba_copies_bgr_formats() {
    let src = [10u8, 20, 30, 40];
    assert_eq!(to_rgba(&src, 1, 1, PixelFormat::Xbgr8888), Ok(vec![10, 20, 30, 255]));
    assert_eq!(to_rgba(&src, 1, 1, PixelFormat::Abgr8888), Ok(vec![10, 20, 30, 40]));
}

#[test]
fn to_rgba_refuses_other_formats() {
    let src = [0u8; 4];
    assert_eq!(
        to_rgba(&src, 1, 1, PixelFormat::Other(9)),
        Err(CaptureError::UnsupportedFormat(PixelFormat::Other(9)))
    );
}

#[test]
fn to_rgba_reads_only_the_image() {
    let src = [1u8, 2, 3, 4, 99, 99, 99, 99];
    assert_eq!(to_rgba(&src, 1, 1, PixelFormat::Xbgr8888), Ok(vec![1, 2, 3, 255]));
}

#[test]
fn session_waits_until_done() {
    let mut s = CaptureState::new();
    assert!(s.session_outcome().is_none());
    s.on_session_event(SessionEvent::BufferSize { width: 3, height: 2 });
    s.on_session_event(SessionEvent::ShmFormat(Some(PixelFormat::Argb8888)));
    s.on_session_event(SessionEvent::ShmFormat(None));
    s.on_session_event(SessionEvent::ShmFormat(Some(PixelFormat::Xrgb8888)));
    s.on_session_event(SessionEvent::Other);
    assert!(s.session_outcome().is_none());
    assert_eq!(s.shm_formats, vec![PixelFormat::Argb8888, PixelFormat::Xrgb8888]);
    s.on_session_event(SessionEvent::Done);
    assert_eq!(
        s.session_outcome(),
        Some(Ok(CaptureLayout {
            width: 3,
            height: 2,
            format: PixelFormat::Xrgb8888,
            stride: 12,
            len: 24,
        }))
    );
}

#[test]
fn session_without_size_fails() {
    let mut s = CaptureState::new();
    s.on_session_event(SessionEvent::ShmFormat(Some(PixelFormat::Xbgr8888)));
    s.on_session_event(SessionEvent::Done);
    assert_eq!(s.session_outcome(), Some(Err(CaptureError::MissingBufferSize)));
}

#[test]
fn session_without_decodable_format_fails() {
    let mut s = CaptureState::new();
    s.on_session_event(SessionEvent::BufferSize { width: 1, height: 1 });
    s.on_session_event(SessionEvent::ShmFormat(Some(PixelFormat::Other(5))));
    s.on_session_event(SessionEvent::Done);
    assert_eq!(
        s.session_outcome(),
        Some(Err(CaptureError::NoDecodableFormat(vec![PixelFormat::Other(5)])))
    );
}

#[test]
fn stopped_session_fails_with_reason() {
    let mut s = CaptureState::new();
    s.on_session_event(SessionEvent::BufferSize { width: 1, height: 1 });
    s.on_session_event(SessionEvent::Stopped);
    assert!(s.session_done);
    assert_eq!(
        s.session_outcome(),
        Some(Err(CaptureError::SessionStopped("session stopped".to_string())))
    );
    // Later events do not clear the failure.
    s.on_frame_event(FrameEvent::Ready);
    assert_eq!(
        s.frame_outcome(),
        Some(Err(CaptureError::FrameFailed("session stopped".to_string())))
    );
}

#[test]
fn frame_outcome_follows_events() {
    let mut s = CaptureState::new();
    assert_eq!(s.frame_outcome(), None);
    s.on_frame_event(FrameEvent::Other);
    assert_eq!(s.frame_outcome(), None);
    s.on_frame_event(FrameEvent::Ready);
    assert_eq!(s.frame_outcome(), Some(Ok(())));
}

#[test]
fn failed_frame_reports_reason() {
    let mut s = CaptureState::new();
    s.on_frame_event(FrameEvent::Failed("BufferConstraints".to_string()));
    assert_eq!(
        s.frame_outcome(),
        Some(Err(CaptureError::FrameFailed("BufferConstraints".to_string())))
    );
}

#[test]
fn swapped_formats_read_swapped_memory() {
    let src = [1u8, 2, 3, 4, 5, 6, 7, 8];
    let swapped = [3u8, 2, 1, 4, 7, 6, 5, 8];
    assert_eq!(
        to_rgba(&src, 2, 1, PixelFormat::Xrgb8888),
        to_rgba(&swapped, 2, 1, PixelFormat::Xbgr8888)
    );
    assert_eq!(
        to_rgba(&src, 2, 1, PixelFormat::Abgr8888),
        to_rgba(&swapped, 2, 1, PixelFormat::Argb8888)
    );
}

#[test]
fn unknown_format_is_refused_whatever_the_size() {
    assert_eq!(
        to_rgba(&[], u32::MAX, u32::MAX, PixelFormat::Other(3)),
        Err(CaptureError::UnsupportedFormat(PixelFormat::Other(3)))
    );
}

#[test]
fn stopped_session_is_reported_before_its_size() {
    let mut s = CaptureState::new();
    s.on_session_event(SessionEvent::BufferSize { width: u32::MAX, height: u32::MAX });
    s.on_session_event(SessionEvent::Stopped);
    assert_eq!(
        s.session_outcome(),
        Some(Err(CaptureError::SessionStopped("session stopped".to_string())))
    );
}
