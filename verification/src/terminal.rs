//! Consuming a cap's response frames at the end of a chain.
//!
//! Two consumers share the frame semantics: the collector takes the whole
//! response (into memory, a writer or a spool), the incremental consumer
//! yields items as they arrive. LOG frames drive the progress and log
//! callbacks, CREDIT frames route to the send gates, consumed chunks are
//! granted back in batches, END delivers the final progress event, ERR fails.

use crate::credit;
use crate::credit::{CreditGrant, CreditPlumbing};
use crate::failure::AttributionClass;
use crate::frame;
use crate::frame::{clone_meta, Frame, FrameType, ProgressSlot, StreamMeta};
use crate::plan::StepToken;
use crate::stream_io;
use crate::stream_io::{EffectAudit, OutputContract, PipelineLogRecord, StreamIoError};
use crate::text;
use crate::text::{clone_opt, decimal_i64, same};
use vstd::prelude::*;
use vstd::string::*;

verus! {

/// The final progress of a successful END that states none: one, as the bit
/// pattern of an `f64`.
pub const COMPLETE_PROGRESS: u64 = 0x3FF0_0000_0000_0000;

// ---------------------------------------------------------------------------
// Reading LOG, ERR and END frames
// ---------------------------------------------------------------------------
/// What a LOG frame says: functional progress or an attributed diagnostic. The
/// LEVEL is the one criterion that decides which.
pub enum LogReading {
    Progress { bits: u32, message: String },
    Diagnostic {
        level: String,
        class: AttributionClass,
        message: String,
        meta: Option<StreamMeta>,
        arg_urn: Option<String>,
    },
}

/// The contents of a `LogReading`.
pub ghost enum LogContent {
    Progress(u32, Seq<char>),
    Diagnostic(Seq<char>, AttributionClass, Seq<char>, Option<Seq<u8>>, Option<Seq<char>>),
}

impl View for LogReading {
    type V = LogContent;

    open spec fn view(&self) -> LogContent {
        match *self {
            LogReading::Progress { bits, message } => LogContent::Progress(bits, message@),
            LogReading::Diagnostic { level, class, message, meta, arg_urn } => {
                LogContent::Diagnostic(
                    level@,
                    class,
                    message@,
                    frame::meta_view(meta),
                    text::opt_view(arg_urn),
                )
            },
        }
    }
}

/// The refusal of a progress LOG that carries no number.
pub open spec fn no_progress_value(cap_urn: Seq<char>, slot: ProgressSlot) -> Seq<char> {
    "cap '"@ + cap_urn + "' sent a progress LOG whose `progress` value is "@
        + frame::slot_description(slot)
        + " — level is \"progress\", so a numeric value is required"@
}

/// What a LOG frame of a cap says, or the protocol violation that it is.
pub open spec fn log_content(f: Frame, cap_urn: Seq<char>) -> Result<
    LogContent,
    stream_io::StreamFault,
> {
    match (f.level, f.message) {
        (None, _) => Err(
            stream_io::StreamFault::Protocol("LOG frame missing required text level"@),
        ),
        (Some(level), message) => if level@ == "progress"@ {
            match message {
                None => Err(
                    stream_io::StreamFault::Protocol(
                        "progress LOG frame missing required text message"@,
                    ),
                ),
                Some(m) => match f.progress {
                    ProgressSlot::Number(bits) => Ok(LogContent::Progress(bits, m@)),
                    slot => Err(stream_io::StreamFault::Protocol(no_progress_value(cap_urn, slot))),
                },
            }
        } else {
            match (message, f.attribution, f.attributed_arg) {
                (None, _, _) => Err(
                    stream_io::StreamFault::Protocol("LOG frame missing required text message"@),
                ),
                (Some(m), Err(why), _) => Err(stream_io::StreamFault::Protocol(why@)),
                (Some(m), Ok(class), Err(why)) => Err(stream_io::StreamFault::Protocol(why@)),
                (Some(m), Ok(class), Ok(arg)) => Ok(
                    LogContent::Diagnostic(
                        level@,
                        class,
                        m@,
                        frame::meta_view(f.meta),
                        text::opt_view(arg),
                    ),
                ),
            }
        },
    }
}

/// Read a LOG frame.
pub fn read_log(f: &Frame, cap_urn: &str) -> (r: Result<LogReading, StreamIoError>)
    ensures
        match r {
            Ok(reading) => log_content(*f, cap_urn@) == Ok::<LogContent, stream_io::StreamFault>(
                reading@,
            ),
            Err(e) => log_content(*f, cap_urn@) == Err::<LogContent, stream_io::StreamFault>(e@),
        },
{
    let level = match &f.level {
        Some(level) => level,
        None => {
            return Err(
                StreamIoError::Protocol("LOG frame missing required text level".to_owned()),
            );
        },
    };
    if same(level.as_str(), "progress") {
        let message = match &f.message {
            Some(m) => m.clone(),
            None => {
                return Err(
                    StreamIoError::Protocol(
                        "progress LOG frame missing required text message".to_owned(),
                    ),
                );
            },
        };
        match &f.progress {
            ProgressSlot::Number(bits) => Ok(LogReading::Progress { bits: *bits, message }),
            slot => Err(
                StreamIoError::Protocol(
                    "cap '".to_owned().concat(cap_urn).concat(
                        "' sent a progress LOG whose `progress` value is ",
                    ).concat(slot.describe().as_str()).concat(
                        " — level is \"progress\", so a numeric value is required",
                    ),
                ),
            ),
        }
    } else {
        let message = match &f.message {
            Some(m) => m.clone(),
            None => {
                return Err(
                    StreamIoError::Protocol("LOG frame missing required text message".to_owned()),
                );
            },
        };
        let class = match &f.attribution {
            Ok(class) => *class,
            Err(why) => {
                return Err(StreamIoError::Protocol(why.clone()));
            },
        };
        match &f.attributed_arg {
            Ok(arg) => Ok(
                LogReading::Diagnostic {
                    level: level.clone(),
                    class,
                    message,
                    meta: clone_meta(&f.meta),
                    arg_urn: clone_opt(arg),
                },
            ),
            Err(why) => Err(StreamIoError::Protocol(why.clone())),
        }
    }
}

/// The failure that an ERR frame of a cap declares — its identity is read from
/// the frame, never re-derived — or the protocol violation that the frame is.
pub open spec fn declared_failure(f: Frame, cap_urn: Seq<char>) -> stream_io::StreamFault {
    match (f.attribution, f.code, f.message, f.attributed_arg) {
        (Err(why), _, _, _) => stream_io::StreamFault::Protocol(why@),
        (_, None, _, _) => stream_io::StreamFault::Protocol("ERR frame missing required text code"@),
        (_, _, None, _) => stream_io::StreamFault::Protocol(
            "ERR frame missing required text message"@,
        ),
        (_, _, _, Err(why)) => stream_io::StreamFault::Protocol(why@),
        (Ok(class), Some(code), Some(details), Ok(arg)) => stream_io::StreamFault::Terminal(
            cap_urn,
            Some(code@),
            class,
            details@,
            text::opt_view(arg),
        ),
    }
}

/// Read an ERR frame.
pub fn read_err(f: &Frame, cap_urn: &str) -> (e: StreamIoError)
    ensures
        e@ == declared_failure(*f, cap_urn@),
{
    let class = match &f.attribution {
        Ok(class) => *class,
        Err(why) => {
            return StreamIoError::Protocol(why.clone());
        },
    };
    let code = match &f.code {
        Some(code) => code.clone(),
        None => {
            return StreamIoError::Protocol("ERR frame missing required text code".to_owned());
        },
    };
    let details = match &f.message {
        Some(message) => message.clone(),
        None => {
            return StreamIoError::Protocol("ERR frame missing required text message".to_owned());
        },
    };
    match &f.attributed_arg {
        Ok(arg) => StreamIoError::Terminal {
            cap_urn: cap_urn.to_owned(),
            code: Some(code),
            class,
            details,
            arg_urn: clone_opt(arg),
        },
        Err(why) => StreamIoError::Protocol(why.clone()),
    }
}

/// A failure that the engine detected itself: no source declared an identity,
/// so it is ours, with no code.
pub open spec fn engine_failure(cap_urn: Seq<char>, details: Seq<char>) -> stream_io::StreamFault {
    stream_io::StreamFault::Terminal(cap_urn, None, AttributionClass::Internal, details, None)
}

/// The engine's own failure of a cap.
pub fn engine_error(cap_urn: &str, details: String) -> (e: StreamIoError)
    ensures
        e@ == engine_failure(cap_urn@, details@),
{
    StreamIoError::Terminal {
        cap_urn: cap_urn.to_owned(),
        code: None,
        class: AttributionClass::Internal,
        details,
        arg_urn: None,
    }
}

/// The final progress of a successful END: what it states, one by default.
pub open spec fn final_progress_bits(f: Frame) -> u64 {
    match f.final_progress {
        Some(bits) => bits,
        None => COMPLETE_PROGRESS,
    }
}

/// The final message of an END, empty by default.
pub open spec fn final_message_text(f: Frame) -> Seq<char> {
    match f.final_message {
        Some(m) => m@,
        None => Seq::empty(),
    }
}

/// The final progress event of a successful END.
pub fn final_event(f: &Frame) -> (r: (u64, String))
    ensures
        r.0 == final_progress_bits(*f),
        r.1@ == final_message_text(*f),
{
    let bits: u64 = match f.final_progress {
        Some(bits) => bits,
        None => COMPLETE_PROGRESS,
    };
    let message = match &f.final_message {
        Some(m) => m.clone(),
        None => String::new(),
    };
    (bits, message)
}

// ---------------------------------------------------------------------------
// Terminal metadata
// ---------------------------------------------------------------------------
/// Metadata collected from the terminal cap's output stream.
///
/// `stream_meta` is set from the STREAM_START frame.
/// `item_metas` collects per-item meta from each CHUNK frame that starts a new
/// sequence item (used by ForEach to propagate per-item provenance).
pub struct TerminalMeta {
    pub stream_meta: Option<StreamMeta>,
    pub item_metas: Vec<StreamMeta>,
}

/// The contents of a list of metadata.
pub open spec fn metas_view(v: Seq<StreamMeta>) -> Seq<Seq<u8>> {
    Seq::new(v.len(), |i: int| v[i]@)
}

impl TerminalMeta {
    /// No metadata.
    pub fn new() -> (m: Self)
        ensures
            m.stream_meta is None,
            m.item_metas@.len() == 0,
    {
        TerminalMeta { stream_meta: None, item_metas: Vec::new() }
    }
}

// ---------------------------------------------------------------------------
// The incremental consumer
// ---------------------------------------------------------------------------
/// One item yielded incrementally from a cap's terminal output stream.
pub struct TerminalItem {
    /// Raw chunk payload (CBOR transport bytes as sent by the producer).
    pub payload: Vec<u8>,
    /// Per-item metadata from the chunk frame (first chunk of an item).
    pub meta: Option<StreamMeta>,
    /// The stream this item belongs to.
    pub stream_id: Option<String>,
}

/// Incremental consumer for a cap's terminal output: yields items AS THEY
/// ARRIVE (before STREAM_END or END exist — required for unbounded streams).
pub struct TerminalOutput {
    pub cap_urn: String,
    pub step_token_id: StepToken,
    pub credit: Option<CreditPlumbing>,
    pub is_sequence: Option<bool>,
    pub terminal_meta: TerminalMeta,
    /// Set once END was seen; nothing is yielded afterwards.
    pub ended: bool,
    pub unbounded: bool,
    /// Audits every STREAM_START emission against the cap's declared
    /// effect contract before its items are yielded.
    pub effect_audit: EffectAudit,
}

/// What one frame means to the incremental consumer.
pub enum ItemStep {
    /// Nothing to hand out: read on.
    ReadOn,
    /// Consumed chunk without data; its credits may be due.
    Consumed { grant: Option<CreditGrant> },
    /// An item, and the credits that are due for it.
    Item { item: TerminalItem, grant: Option<CreditGrant> },
    /// The frame credits our own input streams.
    RouteCredit,
    Progress { bits: u32, message: String },
    Log(PipelineLogRecord),
    /// The request completed; its final progress event.
    Done { progress: u64, message: String },
    /// The consumer fails with this error.
    Failed(StreamIoError),
    /// The request ended before: nothing is yielded any more.
    Ended,
}

/// The diagnostic that a LOG frame of a step's cap gives rise to.
pub open spec fn diagnostic(
    step: Seq<char>,
    cap_urn: Seq<char>,
    body_index: Option<usize>,
    content: LogContent,
) -> stream_io::LogEntry
    recommends
        content is Diagnostic,
{
    match content {
        LogContent::Diagnostic(level, class, message, meta, arg) => stream_io::cap_diagnostic(
            step,
            cap_urn,
            level,
            class,
            message,
            meta,
            body_index,
            arg,
        ),
        LogContent::Progress(_, message) => stream_io::cap_diagnostic(
            step,
            cap_urn,
            "progress"@,
            AttributionClass::Internal,
            message,
            None,
            body_index,
            None,
        ),
    }
}

/// Whether consuming one chunk of a stream took the counters from `before` to
/// `after` and made `grant` due.
pub open spec fn chunk_counted(
    before: Option<CreditPlumbing>,
    after: Option<CreditPlumbing>,
    stream: Option<Seq<char>>,
    grant: Option<CreditGrant>,
) -> bool {
    match (before, after) {
        (None, None) => grant is None,
        (Some(b), Some(a)) => {
            let (left, due) = credit::counted(b.pending(stream), b.batch());
            &&& a.batch() == b.batch()
            &&& a.streams() == (if b.streams().contains(stream) {
                b.streams()
            } else {
                b.streams().push(stream)
            })
            &&& a.pending(stream) == left
            &&& forall|s: Option<Seq<char>>|
                s != stream ==> #[trigger] a.pending(s) == b.pending(s)
            &&& match grant {
                None => due is None,
                Some(g) => due is Some && g@ == (stream, due->Some_0),
            }
        },
        _ => false,
    }
}

/// Count one consumed chunk.
pub fn count_chunk(plumbing: &mut Option<CreditPlumbing>, stream_id: &Option<String>) -> (r: Option<
    CreditGrant,
>)
    ensures
        chunk_counted(*old(plumbing), *final(plumbing), text::opt_view(*stream_id), r),
{
    match plumbing {
        None => None,
        Some(p) => p.consume(stream_id),
    }
}

/// Whether flushing took the counters from `before` to `after` with `grants`:
/// nothing stays pending, and each stream is granted what was pending for it.
pub open spec fn flushed(
    before: Option<CreditPlumbing>,
    after: Option<CreditPlumbing>,
    grants: Seq<CreditGrant>,
) -> bool {
    match (before, after) {
        (None, None) => grants.len() == 0,
        (Some(b), Some(a)) => {
            &&& a.batch() == b.batch()
            &&& a.streams() == b.streams()
            &&& forall|s: Option<Seq<char>>| #[trigger] a.pending(s) == 0
            &&& forall|i: int|
                0 <= i < grants.len() ==> (#[trigger] grants[i])@.1 > 0 && grants[i]@.1
                    == b.pending(grants[i]@.0)
            &&& forall|s: Option<Seq<char>>| #[trigger]
                b.pending(s) > 0 ==> exists|i: int|
                    0 <= i < grants.len() && (#[trigger] grants[i])@.0 == s
            &&& forall|i: int, j: int|
                0 <= i < j < grants.len() ==> (#[trigger] grants[i])@.0
                    != (#[trigger] grants[j])@.0
        },
        _ => false,
    }
}

/// Grant everything that is held back.
pub fn flush_all(plumbing: &mut Option<CreditPlumbing>) -> (r: Vec<CreditGrant>)
    ensures
        flushed(*old(plumbing), *final(plumbing), r@),
{
    match plumbing {
        None => Vec::new(),
        Some(p) => p.flush(),
    }
}

/// What a frame means to an incremental consumer that has not ended: the step
/// it gives rise to, and the consumer behind it.
pub open spec fn item_step(
    before: TerminalOutput,
    after: TerminalOutput,
    f: Frame,
    logging: bool,
    step: ItemStep,
) -> bool {
    let cap = before.cap_urn@;
    &&& after.cap_urn == before.cap_urn
    &&& after.step_token_id == before.step_token_id
    &&& after.effect_audit == before.effect_audit
    &&& f.frame_type != FrameType::Chunk ==> after.credit == before.credit
    &&& f.frame_type != FrameType::StreamStart ==> {
        &&& after.is_sequence == before.is_sequence
        &&& after.unbounded == before.unbounded
        &&& after.terminal_meta == before.terminal_meta
    }
    &&& match f.frame_type {
        FrameType::StreamStart => match stream_io::frame_audit_outcome(before.effect_audit, f) {
            Err(fault) => step matches ItemStep::Failed(e) && e@ == fault && after.ended,
            Ok(()) => {
                &&& step is ReadOn
                &&& !after.ended
                &&& after.is_sequence == (if f.is_sequence is Some {
                    f.is_sequence
                } else {
                    before.is_sequence
                })
                &&& after.unbounded == (before.unbounded || frame::declares_unbounded(f))
                &&& frame::meta_view(after.terminal_meta.stream_meta) == frame::meta_view(f.meta)
                &&& after.terminal_meta.item_metas == before.terminal_meta.item_metas
            },
        },
        FrameType::Chunk => {
            &&& !after.ended
            &&& match step {
                ItemStep::Item { item, grant } => {
                    &&& f.payload == Some(item.payload)
                    &&& item.meta == f.meta
                    &&& item.stream_id == f.stream_id
                    &&& chunk_counted(
                        before.credit,
                        after.credit,
                        text::opt_view(f.stream_id),
                        grant,
                    )
                },
                ItemStep::Consumed { grant } => {
                    &&& f.payload is None
                    &&& chunk_counted(
                        before.credit,
                        after.credit,
                        text::opt_view(f.stream_id),
                        grant,
                    )
                },
                _ => false,
            }
        },
        FrameType::Credit => {
            &&& !after.ended
            &&& step == (if before.credit is Some {
                ItemStep::RouteCredit
            } else {
                ItemStep::ReadOn
            })
        },
        FrameType::Log => {
            &&& !after.ended
            &&& match log_content(if logging {
                f
            } else {
                (Frame { attributed_arg: Ok(None), ..f })
            }, cap) {
                Err(fault) => step matches ItemStep::Failed(e) && e@ == fault,
                Ok(LogContent::Progress(bits, message)) => step matches ItemStep::Progress {
                    bits: b,
                    message: m,
                } && b == bits && m@ == message,
                Ok(content) => if logging {
                    step matches ItemStep::Log(record) && record@ == diagnostic(
                        before.step_token_id@,
                        cap,
                        None,
                        content,
                    )
                } else {
                    step is ReadOn
                },
            }
        },
        FrameType::End => {
            &&& after.ended
            &&& if f.exit_code == Some(0i64) {
                step matches ItemStep::Done { progress, message } && progress
                    == final_progress_bits(f) && message@ == final_message_text(f)
            } else {
                step matches ItemStep::Failed(e) && e@ == engine_failure(
                    cap,
                    "END without success: exit_code="@ + exit_code_debug(f.exit_code),
                )
            }
        },
        FrameType::Error => {
            &&& after.ended
            &&& step matches ItemStep::Failed(e) && e@ == declared_failure(f, cap)
        },
        _ => step is ReadOn && !after.ended,
    }
}

/// The debug rendering of an optional exit code.
pub open spec fn exit_code_debug(code: Option<i64>) -> Seq<char> {
    match code {
        Some(n) => "Some("@ + text::decimal_int(n as int) + ")"@,
        None => "None"@,
    }
}

/// Render an optional exit code.
pub fn exit_code_string(code: Option<i64>) -> (r: String)
    ensures
        r@ == exit_code_debug(code),
{
    match code {
        Some(n) => "Some(".to_owned().concat(decimal_i64(n).as_str()).concat(")"),
        None => "None".to_owned(),
    }
}

impl TerminalOutput {
    /// Fails when the cap URN (or its declared `in=`) does not parse — every
    /// terminal emission is audited, so an unauditable cap must fail at
    /// construction, not be consumed unaudited.
    pub fn new(
        cap_urn: &str,
        contract: OutputContract,
        step_token_id: &StepToken,
        credit: Option<CreditPlumbing>,
    ) -> (r: Result<Self, StreamIoError>)
        ensures
            match r {
                Ok(t) => {
                    &&& stream_io::audit_build_fault(cap_urn@) is None
                    &&& t.cap_urn@ == cap_urn@
                    &&& t.step_token_id == *step_token_id
                    &&& t.credit == credit
                    &&& t.is_sequence is None
                    &&& t.terminal_meta.stream_meta is None
                    &&& t.terminal_meta.item_metas@.len() == 0
                    &&& !t.ended
                    &&& !t.unbounded
                    &&& stream_io::audits(t.effect_audit, cap_urn@, contract)
                },
                Err(e) => stream_io::audit_build_fault(cap_urn@) == Some(e@),
            },
    {
        let effect_audit = match EffectAudit::new(cap_urn, contract) {
            Ok(a) => a,
            Err(e) => {
                return Err(e);
            },
        };
        Ok(
            TerminalOutput {
                cap_urn: cap_urn.to_owned(),
                step_token_id: step_token_id.clone(),
                credit,
                is_sequence: None,
                terminal_meta: TerminalMeta::new(),
                ended: false,
                unbounded: false,
                effect_audit,
            },
        )
    }

    /// Whether the response stream declared itself unbounded (known after the
    /// first STREAM_START has been observed).
    pub fn is_unbounded(&self) -> (r: bool)
        ensures
            r == self.unbounded,
    {
        self.unbounded
    }

    /// Whether the producer used sequence mode (known after STREAM_START).
    pub fn is_sequence(&self) -> (r: Option<bool>)
        ensures
            r == self.is_sequence,
    {
        self.is_sequence
    }

    /// Whether a further frame is awaited: not once the request ended.
    pub fn awaits_frame(&self) -> (r: bool)
        ensures
            r == !self.ended,
    {
        !self.ended
    }

    /// The next frame is not there yet and the consumer is about to block:
    /// flush pending sub-batch grants, so a producer with a smaller send window
    /// than the batch threshold can proceed.
    pub fn before_block(&mut self) -> (grants: Vec<CreditGrant>)
        ensures
            flushed(old(self).credit, final(self).credit, grants@),
            *final(self) == (TerminalOutput { credit: final(self).credit, ..*old(self) }),
    {
        flush_all(&mut self.credit)
    }

    /// The response channel closed: a failure where END is still out, nothing
    /// where the request ended before.
    pub fn on_closed(&mut self) -> (step: ItemStep)
        ensures
            old(self).ended ==> step is Ended && *final(self) == *old(self),
            !old(self).ended ==> {
                &&& step matches ItemStep::Failed(e) && e@ == engine_failure(
                    old(self).cap_urn@,
                    "response channel closed without END"@,
                )
                &&& *final(self) == (TerminalOutput { ended: true, ..*old(self) })
            },
    {
        if self.ended {
            return ItemStep::Ended;
        }
        self.ended = true;
        ItemStep::Failed(
            engine_error(
                self.cap_urn.as_str(),
                "response channel closed without END".to_owned(),
            ),
        )
    }

    /// Take the next frame of a request: LOG/CREDIT/STREAM_* frames are handled,
    /// a chunk yields an item, ERR and unsuccessful END fail. Once the request
    /// ended, every further call yields nothing and changes nothing. `logging`
    /// says whether anyone listens to diagnostics.
    pub fn next_item(&mut self, f: Frame, logging: bool) -> (step: ItemStep)
        ensures
            old(self).ended ==> step is Ended && *final(self) == *old(self),
            !old(self).ended ==> item_step(*old(self), *final(self), f, logging, step),
    {
        if self.ended {
            return ItemStep::Ended;
        }
        match f.frame_type {
            FrameType::StreamStart => {
                // Effect audit at receipt: the emission must satisfy the
                // cap's declared effect contract before any of its items
                // are yielded.
                match self.effect_audit.audit_frame(&f) {
                    Err(e) => {
                        self.ended = true;
                        return ItemStep::Failed(e);
                    },
                    Ok(()) => {},
                }
                if f.is_sequence.is_some() {
                    self.is_sequence = f.is_sequence;
                }
                if f.is_unbounded() {
                    self.unbounded = true;
                }
                self.terminal_meta.stream_meta = f.meta;
                ItemStep::ReadOn
            },
            FrameType::Chunk => {
                let grant = count_chunk(&mut self.credit, &f.stream_id);
                match f.payload {
                    Some(payload) => ItemStep::Item {
                        item: TerminalItem { payload, meta: f.meta, stream_id: f.stream_id },
                        grant,
                    },
                    None => ItemStep::Consumed { grant },
                }
            },
            FrameType::Credit => {
                if self.credit.is_some() {
                    ItemStep::RouteCredit
                } else {
                    ItemStep::ReadOn
                }
            },
            FrameType::Log => {
                let f = if logging {
                    f
                } else {
                    Frame { attributed_arg: Ok(None), ..f }
                };
                match read_log(&f, self.cap_urn.as_str()) {
                    Err(e) => ItemStep::Failed(e),
                    Ok(LogReading::Progress { bits, message }) => ItemStep::Progress {
                        bits,
                        message,
                    },
                    Ok(LogReading::Diagnostic { level, class, message, meta, arg_urn }) => {
                        if logging {
                            ItemStep::Log(
                                PipelineLogRecord::detailed(
                                    &self.step_token_id,
                                    self.cap_urn.as_str(),
                                    level.as_str(),
                                    class,
                                    message.as_str(),
                                    meta,
                                    None,
                                    arg_urn,
                                ),
                            )
                        } else {
                            ItemStep::ReadOn
                        }
                    },
                }
            },
            FrameType::End => {
                self.ended = true;
                let success: bool = match f.exit_code {
                    Some(code) => code == 0,
                    None => false,
                };
                if !success {
                    // Non-success END with no ERR frame — the source never
                    // declared an identity.
                    return ItemStep::Failed(
                        engine_error(
                            self.cap_urn.as_str(),
                            "END without success: exit_code=".to_owned().concat(
                                exit_code_string(f.exit_code).as_str(),
                            ),
                        ),
                    );
                }
                // Terminal metadata IS the final progress event.
                let (progress, message) = final_event(&f);
                ItemStep::Done { progress, message }
            },
            FrameType::Error => {
                self.ended = true;
                ItemStep::Failed(read_err(&f, self.cap_urn.as_str()))
            },
            _ => ItemStep::ReadOn,
        }
    }

    /// The stream-level terminal metadata and the producer's mode, once the
    /// remainder was drained.
    pub fn finish(self) -> (r: (TerminalMeta, Option<bool>))
        ensures
            r.0 == self.terminal_meta,
            r.1 == self.is_sequence,
    {
        (self.terminal_meta, self.is_sequence)
    }
}

/// The completion of a request is its last step, and so is every failure but
/// that of a malformed LOG: behind it nothing is yielded any more.
pub proof fn a_terminal_step_is_the_last(
    before: TerminalOutput,
    after: TerminalOutput,
    f: Frame,
    logging: bool,
    step: ItemStep,
)
    requires
        item_step(before, after, f, logging, step),
        step is Done || step is Failed,
        f.frame_type != FrameType::Log,
    ensures
        after.ended,
{
}

/// Nothing but END, ERR and a refused emission ends the incremental consumer.
pub proof fn consumer_ends_only_on_a_terminal(
    before: TerminalOutput,
    after: TerminalOutput,
    f: Frame,
    logging: bool,
    step: ItemStep,
)
    requires
        item_step(before, after, f, logging, step),
        after.ended,
    ensures
        ({
            ||| f.frame_type == FrameType::End
            ||| f.frame_type == FrameType::Error
            ||| f.frame_type == FrameType::StreamStart && step is Failed
        }),
{
}

/// An item is yielded exactly where a chunk with a payload comes, with that
/// payload, metadata and stream.
pub proof fn every_payload_is_one_item(
    before: TerminalOutput,
    after: TerminalOutput,
    f: Frame,
    logging: bool,
    step: ItemStep,
)
    requires
        item_step(before, after, f, logging, step),
    ensures
        step is Item <==> f.frame_type == FrameType::Chunk && f.payload is Some,
        step is Item ==> step->item.payload == f.payload->0 && step->item.meta == f.meta
            && step->item.stream_id == f.stream_id,
{
}

/// The consumer is done exactly on an END that reports success; an ERR and any
/// other END fail it.
pub proof fn only_a_successful_end_is_done(
    before: TerminalOutput,
    after: TerminalOutput,
    f: Frame,
    logging: bool,
    step: ItemStep,
)
    requires
        item_step(before, after, f, logging, step),
    ensures
        step is Done <==> f.frame_type == FrameType::End && f.exit_code == Some(0i64),
        f.frame_type == FrameType::Error ==> step is Failed,
        f.frame_type == FrameType::End && f.exit_code != Some(0i64) ==> step is Failed,
        step is Done ==> (f.final_progress is Some ==> Some(step->Done_progress)
            == f.final_progress) && (f.final_message is Some ==> step->Done_message@
            == f.final_message->0@),
{
}

/// A LOG is read as what it says: progress where its level says so and it has a
/// number, else a diagnostic with its own level, class and message. One that
/// lacks its level or message is refused.
pub proof fn a_log_is_read_as_it_says(f: Frame, cap_urn: Seq<char>)
    ensures
        f.level is None || f.message is None ==> log_content(f, cap_urn) is Err,
        log_content(f, cap_urn) matches Ok(LogContent::Progress(bits, message)) ==> f.level is Some
            && f.level->0@ == "progress"@ && f.progress == ProgressSlot::Number(bits)
            && f.message->0@ == message,
        log_content(f, cap_urn) matches Ok(
            LogContent::Diagnostic(level, class, message, meta, arg),
        ) ==> f.level is Some && level == f.level->0@ && level != "progress"@ && f.attribution
            == Ok::<AttributionClass, String>(class) && message == f.message->0@ && meta
            == frame::meta_view(f.meta),
        f.level is Some && f.level->0@ == "progress"@ && f.message is Some && f.progress is Number
            ==> log_content(f, cap_urn) is Ok,
        f.level is Some && f.level->0@ != "progress"@ && f.message is Some && f.attribution is Ok
            && f.attributed_arg is Ok ==> log_content(f, cap_urn) is Ok,
{
}

} // verus!
