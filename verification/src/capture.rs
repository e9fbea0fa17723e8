//! The decisions of one frozen screen capture (ext-image-copy-capture-v1).
//!
//! The protocol runs in two phases. The capture session first negotiates:
//! it reports a buffer size and the shm formats it can fill, and ends with
//! `done`. Then one frame is captured into a buffer of that layout, and the
//! compositor answers `ready` or `failed`. `CaptureState` records what the
//! events said; the outcome functions say, after each batch of events,
//! whether to keep waiting, to give up with an error, or to go on.
use vstd::prelude::*;
use crate::pixel_format::{CaptureError, PixelFormat, first_offered, preferred_formats, pick_format};

verus! {

/// A capture-session event, as far as the capture depends on it.
pub enum SessionEvent {
    /// The size of the buffer the frame must be captured into.
    BufferSize { width: u32, height: u32 },
    /// One shm format the session can fill: `Some` for a format the protocol
    /// names, `None` for a raw code that it does not know.
    ShmFormat(Option<PixelFormat>),
    /// Negotiation is complete.
    Done,
    /// The compositor stopped the session.
    Stopped,
    /// Any other session event (dmabuf negotiation and the like).
    Other,
}

/// A capture-frame event, as far as the capture depends on it.
pub enum FrameEvent {
    /// The pixels are in the buffer.
    Ready,
    /// The compositor failed the frame, for the reason given.
    Failed(String),
    /// Any other frame event (damage, presentation time and the like).
    Other,
}

/// What the capture session and frame have reported so far.
pub struct CaptureState {
    pub buffer_size: Option<(u32, u32)>,
    pub shm_formats: Vec<PixelFormat>,
    pub session_done: bool,
    pub frame_ready: bool,
    pub frame_failed: Option<String>,
}

/// The negotiated buffer: its size, pixel format, row stride and length, in bytes.
#[derive(Clone, Copy, Debug, PartialEq, Eq, Structural)]
pub struct CaptureLayout {
    pub width: u32,
    pub height: u32,
    pub format: PixelFormat,
    pub stride: u32,
    pub len: usize,
}

/// `new` is `old` after the session event `event`: the buffer size is
/// recorded, a named format is appended to the offered formats (an unknown
/// code is ignored), `done` ends negotiation, and `stopped` both ends
/// negotiation and marks the capture as failed with the reason "session stopped".
pub open spec fn session_event_applied(
    old: CaptureState,
    event: SessionEvent,
    new: CaptureState,
) -> bool {
    match event {
        SessionEvent::BufferSize { width, height } => {
            &&& new.buffer_size == Some((width, height))
            &&& new.shm_formats@ == old.shm_formats@
            &&& new.session_done == old.session_done
            &&& new.frame_ready == old.frame_ready
            &&& new.frame_failed == old.frame_failed
        },
        SessionEvent::ShmFormat(f) => {
            &&& new.buffer_size == old.buffer_size
            &&& new.shm_formats@ == (match f {
                Some(f) => old.shm_formats@.push(f),
                None => old.shm_formats@,
            })
            &&& new.session_done == old.session_done
            &&& new.frame_ready == old.frame_ready
            &&& new.frame_failed == old.frame_failed
        },
        SessionEvent::Done => {
            &&& new.buffer_size == old.buffer_size
            &&& new.shm_formats@ == old.shm_formats@
            &&& new.session_done
            &&& new.frame_ready == old.frame_ready
            &&& new.frame_failed == old.frame_failed
        },
        SessionEvent::Stopped => {
            &&& new.buffer_size == old.buffer_size
            &&& new.shm_formats@ == old.shm_formats@
            &&& new.session_done
            &&& new.frame_ready == old.frame_ready
            &&& new.frame_failed matches Some(reason) && reason@ == "session stopped"@
        },
        SessionEvent::Other => {
            &&& new.buffer_size == old.buffer_size
            &&& new.shm_formats@ == old.shm_formats@
            &&& new.session_done == old.session_done
            &&& new.frame_ready == old.frame_ready
            &&& new.frame_failed == old.frame_failed
        },
    }
}

/// `new` is `old` after the frame event `event`: `ready` marks the frame as
/// captured, `failed` records the reason the compositor gave.
pub open spec fn frame_event_applied(old: CaptureState, event: FrameEvent, new: CaptureState) -> bool {
    &&& new.buffer_size == old.buffer_size
    &&& new.shm_formats@ == old.shm_formats@
    &&& new.session_done == old.session_done
    &&& match event {
        FrameEvent::Ready => {
            &&& new.frame_ready
            &&& new.frame_failed == old.frame_failed
        },
        FrameEvent::Failed(reason) => {
            &&& new.frame_ready == old.frame_ready
            &&& new.frame_failed == Some(reason)
        },
        FrameEvent::Other => {
            &&& new.frame_ready == old.frame_ready
            &&& new.frame_failed == old.frame_failed
        },
    }
}

/// The buffer layout that negotiation settled on, when it succeeded: the
/// session neither failed nor is still negotiating, the buffer size is
/// known, and a decodable format was offered (the most preferred one is
/// taken).
pub open spec fn negotiated_layout(s: CaptureState) -> Option<CaptureLayout> {
    if s.frame_failed is None && s.session_done {
        match (s.buffer_size, first_offered(preferred_formats(), s.shm_formats@)) {
            (Some((w, h)), Some(f)) => Some(
                CaptureLayout {
                    width: w,
                    height: h,
                    format: f,
                    stride: (w * 4) as u32,
                    len: (w * h * 4) as usize,
                },
            ),
            _ => None,
        }
    } else {
        None
    }
}

impl CaptureState {
    /// Nothing reported yet.
    pub fn new() -> (s: Self)
        ensures
            s.buffer_size is None,
            s.shm_formats@.len() == 0,
            !s.session_done,
            !s.frame_ready,
            s.frame_failed is None,
    {
        CaptureState {
            buffer_size: None,
            shm_formats: Vec::new(),
            session_done: false,
            frame_ready: false,
            frame_failed: None,
        }
    }

    /// When negotiation has succeeded (not failed, done, a decodable format
    /// offered), the negotiated buffer size fits 32-bit byte arithmetic. On
    /// the error paths the size is not computed, so it is not bounded.
    pub open spec fn size_fits(&self) -> bool {
        self.frame_failed is None && self.session_done && first_offered(
            preferred_formats(),
            self.shm_formats@,
        ) is Some ==> (self.buffer_size matches Some((w, h)) ==> w * 4 <= u32::MAX && w * h * 4
            <= u32::MAX)
    }

    /// Records one session event (see `session_event_applied`).
    pub fn on_session_event(&mut self, event: SessionEvent)
        ensures
            session_event_applied(*old(self), event, *final(self)),
    {
        match event {
            SessionEvent::BufferSize { width, height } => {
                self.buffer_size = Some((width, height));
            },
            SessionEvent::ShmFormat(f) => {
                if let Some(f) = f {
                    self.shm_formats.push(f);
                }
            },
            SessionEvent::Done => {
                self.session_done = true;
            },
            SessionEvent::Stopped => {
                self.frame_failed = Some("session stopped".to_owned());
                self.session_done = true;
            },
            SessionEvent::Other => {},
        }
    }

    /// Records one frame event (see `frame_event_applied`).
    pub fn on_frame_event(&mut self, event: FrameEvent)
        ensures
            frame_event_applied(*old(self), event, *final(self)),
    {
        match event {
            FrameEvent::Ready => {
                self.frame_ready = true;
            },
            FrameEvent::Failed(reason) => {
                self.frame_failed = Some(reason);
            },
            FrameEvent::Other => {},
        }
    }

    /// Where negotiation stands: `None` while the session has neither failed
    /// nor finished negotiating; the compositor's reason when the session was
    /// stopped; otherwise, once negotiation is done, the layout of the buffer
    /// to capture into, with the most preferred decodable format (an error
    /// when the size is missing or no offered format can be decoded).
    pub fn session_outcome(&self) -> (r: Option<Result<CaptureLayout, CaptureError>>)
        requires
            self.size_fits(),
        ensures
            self.frame_failed matches Some(reason) ==> (r matches Some(
                Err(CaptureError::SessionStopped(m)),
            ) && m@ == reason@),
            self.frame_failed is None && !self.session_done ==> r is None,
            self.frame_failed is None && self.session_done && self.buffer_size is None ==> r
                == Some(Err::<CaptureLayout, CaptureError>(CaptureError::MissingBufferSize)),
            self.frame_failed is None && self.session_done && self.buffer_size is Some
                && first_offered(preferred_formats(), self.shm_formats@) is None ==> (r matches Some(
                Err(CaptureError::NoDecodableFormat(v)),
            ) && v@ == self.shm_formats@),
            self.frame_failed is None && self.session_done ==> match (
                self.buffer_size,
                first_offered(preferred_formats(), self.shm_formats@),
            ) {
                (Some((w, h)), Some(f)) => r == Some(
                    Ok::<CaptureLayout, CaptureError>(
                        CaptureLayout {
                            width: w,
                            height: h,
                            format: f,
                            stride: (w * 4) as u32,
                            len: (w * h * 4) as usize,
                        },
                    ),
                ),
                _ => true,
            },
            negotiated_layout(*self) matches Some(l) ==> r == Some(
                Ok::<CaptureLayout, CaptureError>(l),
            ),
    {
        if let Some(reason) = &self.frame_failed {
            return Some(Err(CaptureError::SessionStopped(reason.clone())));
        }
        if !self.session_done {
            return None;
        }
        let (width, height) = match self.buffer_size {
            Some(size) => size,
            None => {
                return Some(Err(CaptureError::MissingBufferSize));
            },
        };
        let format = match pick_format(self.shm_formats.as_slice()) {
            Ok(f) => f,
            Err(e) => {
                return Some(Err(e));
            },
        };
        let stride = width * 4;
        assert(stride * height == width * height * 4) by (nonlinear_arith)
            requires
                stride == width * 4,
        ;
        let len = (stride * height) as usize;
        Some(Ok(CaptureLayout { width, height, format, stride, len }))
    }

    /// Where the frame stands: the compositor's reason when it failed,
    /// success once the pixels are ready, `None` while neither has happened.
    pub fn frame_outcome(&self) -> (r: Option<Result<(), CaptureError>>)
        ensures
            self.frame_failed matches Some(reason) ==> (r matches Some(
                Err(CaptureError::FrameFailed(m)),
            ) && m@ == reason@),
            self.frame_failed is None && self.frame_ready ==> r == Some(Ok::<(), CaptureError>(())),
            self.frame_failed is None && !self.frame_ready ==> r is None,
    {
        if let Some(reason) = &self.frame_failed {
            return Some(Err(CaptureError::FrameFailed(reason.clone())));
        }
        if self.frame_ready {
            Some(Ok(()))
        } else {
            None
        }
    }
}

/// Law: a failed capture stays failed. No session event and no frame event
/// clears a recorded failure.
pub proof fn lemma_failure_is_final(
    old: CaptureState,
    session_event: SessionEvent,
    frame_event: FrameEvent,
    after_session: CaptureState,
    after_frame: CaptureState,
)
    requires
        old.frame_failed is Some,
        session_event_applied(old, session_event, after_session),
        frame_event_applied(old, frame_event, after_frame),
    ensures
        after_session.frame_failed is Some,
        after_frame.frame_failed is Some,
{
}

/// Law: the negotiated buffer has the size the compositor reported, as
/// reported, whatever the order of width and height (a portrait screen
/// stays portrait). From any state that has not failed, the events
/// `buffer_size(width, height)`, a decodable shm format `f`, and `done` lead
/// to a layout `width` x `height` in the most preferred offered format
/// (`f` itself when nothing was offered before), with a stride of `width * 4`
/// bytes and `width * height * 4` bytes in all.
pub proof fn lemma_negotiated_size_as_reported(
    s0: CaptureState,
    s1: CaptureState,
    s2: CaptureState,
    s3: CaptureState,
    width: u32,
    height: u32,
    f: PixelFormat,
)
    requires
        s0.frame_failed is None,
        !(f is Other),
        session_event_applied(s0, SessionEvent::BufferSize { width, height }, s1),
        session_event_applied(s1, SessionEvent::ShmFormat(Some(f)), s2),
        session_event_applied(s2, SessionEvent::Done, s3),
    ensures
        negotiated_layout(s3) matches Some(l) && l.width == width && l.height == height
            && Some(l.format) == first_offered(preferred_formats(), s0.shm_formats@.push(f)) && (
        s0.shm_formats@.len() == 0 ==> l.format == f) && (width * 4 <= u32::MAX ==> l.stride
            == width * 4) && (width * height * 4 <= usize::MAX ==> l.len == width * height * 4),
{
    reveal_with_fuel(first_offered, 5);
    let offered = s0.shm_formats@.push(f);
    assert(offered[s0.shm_formats@.len() as int] == f);
    assert(offered.contains(f));
    if s0.shm_formats@.len() == 0 {
        assert(offered =~= seq![f]);
    }
}

} // verus!
