//! Protocol frames, as the orchestrator reads them.
//!
//! A frame holds what the transport decoded as plain values. Progress values
//! are carried as their IEEE-754 bit patterns and never computed with.

use crate::failure::AttributionClass;
use vstd::prelude::*;

verus! {

/// The identity of a request.
#[derive(Debug, Clone, Copy, PartialEq, Eq, Structural)]
pub enum MessageId {
    Uint(u64),
    Uuid(u128),
}

/// What a frame is for.
#[derive(Debug, Clone, Copy, PartialEq, Eq, Structural)]
pub enum FrameType {
    StreamStart,
    Chunk,
    StreamEnd,
    End,
    Error,
    Log,
    Credit,
    /// Any other frame: of no concern to a response consumer.
    Other,
}

/// Stream or item metadata, in its wire encoding.
#[derive(Debug)]
pub struct StreamMeta {
    pub encoded: Vec<u8>,
}

impl View for StreamMeta {
    type V = Seq<u8>;

    open spec fn view(&self) -> Seq<u8> {
        self.encoded@
    }
}

/// The contents of optional metadata.
pub open spec fn meta_view(m: Option<StreamMeta>) -> Option<Seq<u8>> {
    match m {
        None => None,
        Some(x) => Some(x@),
    }
}

/// A copy of optional metadata.
pub fn clone_meta(m: &Option<StreamMeta>) -> (r: Option<StreamMeta>)
    ensures
        meta_view(r) == meta_view(*m),
{
    match m {
        None => None,
        Some(x) => Some(StreamMeta { encoded: crate::run_arguments::clone_bytes(&x.encoded) }),
    }
}

/// What the `progress` slot of a LOG frame holds.
#[derive(Debug)]
pub enum ProgressSlot {
    /// The slot is not there.
    Absent,
    /// A number, as the bit pattern of an `f32`.
    Number(u32),
    /// Something that is no number, described in words.
    Mistyped(String),
}

/// A decoded frame.
#[derive(Debug)]
pub struct Frame {
    pub frame_type: FrameType,
    pub id: MessageId,
    pub routing_id: Option<MessageId>,
    pub seq: u64,
    pub stream_id: Option<String>,
    pub media_urn: Option<String>,
    pub is_sequence: Option<bool>,
    pub unbounded: Option<bool>,
    pub payload: Option<Vec<u8>>,
    pub meta: Option<StreamMeta>,
    /// The chunk's place in its stream (CHUNK) or the stream's chunk count
    /// (STREAM_END).
    pub index: Option<u64>,
    /// The credits that a CREDIT frame grants.
    pub credits: Option<u64>,
    /// The level of a LOG frame, where it is text.
    pub level: Option<String>,
    /// The message of a LOG or ERR frame, where it is text.
    pub message: Option<String>,
    /// The progress value of a LOG frame.
    pub progress: ProgressSlot,
    /// The attribution class that the emit source declared, or why the frame
    /// declares none.
    pub attribution: Result<AttributionClass, String>,
    /// The argument that the emit source attributed the frame to, or why the
    /// frame's attribution is invalid.
    pub attributed_arg: Result<Option<String>, String>,
    /// The code of an ERR frame, where it is text.
    pub code: Option<String>,
    /// The exit code of an END frame.
    pub exit_code: Option<i64>,
    /// The final progress of an END frame, as the bit pattern of an `f64`.
    pub final_progress: Option<u64>,
    /// The final message of an END frame.
    pub final_message: Option<String>,
}

/// Whether a frame opens an unbounded stream.
pub open spec fn declares_unbounded(f: Frame) -> bool {
    f.unbounded == Some(true)
}

/// Whether a frame of a request carries nothing.
pub open spec fn is_blank(f: Frame, frame_type: FrameType, id: MessageId) -> bool {
    &&& f.frame_type == frame_type
    &&& f.id == id
    &&& f.routing_id is None
    &&& f.seq == 0
    &&& f.stream_id is None
    &&& f.media_urn is None
    &&& f.is_sequence is None
    &&& f.unbounded is None
    &&& f.payload is None
    &&& f.meta is None
    &&& f.index is None
    &&& f.credits is None
    &&& f.level is None
    &&& f.message is None
    &&& f.progress is Absent
    &&& f.attribution is Err
    &&& f.attributed_arg == Ok::<Option<String>, String>(None)
    &&& f.code is None
    &&& f.exit_code is None
    &&& f.final_progress is None
    &&& f.final_message is None
}

impl Frame {
    /// A frame of a request that carries nothing yet.
    pub fn new(frame_type: FrameType, id: MessageId) -> (f: Self)
        ensures
            is_blank(f, frame_type, id),
    {
        Frame {
            frame_type,
            id,
            routing_id: None,
            seq: 0,
            stream_id: None,
            media_urn: None,
            is_sequence: None,
            unbounded: None,
            payload: None,
            meta: None,
            index: None,
            credits: None,
            level: None,
            message: None,
            progress: ProgressSlot::Absent,
            attribution: Err(String::new()),
            attributed_arg: Ok(None),
            code: None,
            exit_code: None,
            final_progress: None,
            final_message: None,
        }
    }

    /// Whether the frame opens an unbounded stream.
    pub fn is_unbounded(&self) -> (r: bool)
        ensures
            r == declares_unbounded(*self),
    {
        match self.unbounded {
            Some(b) => b,
            None => false,
        }
    }
}

/// What is wrong with a progress slot that holds no number.
pub open spec fn slot_description(p: ProgressSlot) -> Seq<char> {
    match p {
        ProgressSlot::Absent => "absent"@,
        ProgressSlot::Number(_) => "a number"@,
        ProgressSlot::Mistyped(what) => what@,
    }
}

impl ProgressSlot {
    /// What the slot holds, in words.
    pub fn describe(&self) -> (r: String)
        ensures
            r@ == slot_description(*self),
    {
        match self {
            ProgressSlot::Absent => "absent".to_owned(),
            ProgressSlot::Number(_) => "a number".to_owned(),
            ProgressSlot::Mistyped(what) => what.clone(),
        }
    }
}

} // verus!
