//! Forwarding one cap's response frames live into the next cap's input.
//!
//! Request and stream ids are re-stamped for wire fidelity. STREAM_START is
//! relabeled from the producer's output URN to the downstream edge's declared
//! input arg URN, because the consumer demuxes args by URN equivalence; the
//! plan proved the producer's output conforms, and that conformance is
//! re-asserted here. Credit flows both ways per hop: forwarded chunks acquire
//! from the downstream cap's window; consumed upstream chunks are granted back.
//! On the upstream END, the next group's extra-arg streams are sent, then END.

use crate::credit;
use crate::credit::{CreditGrant, CreditPlumbing};
use crate::executor_error::ExecutionError;
use crate::failure::AttributionClass;
use crate::frame;
use crate::frame::{clone_meta, Frame, FrameType, MessageId, ProgressSlot};
use crate::plan::StepToken;
use crate::spool;
use crate::stream_io;
use crate::stream_io::{ActivityTimer, EffectAudit, OutputContract, PipelineLogRecord, StreamIoError};
use crate::table::Table;
use crate::terminal;
use crate::terminal::{exit_code_string, final_event};
use crate::text;
use crate::text::{bool_str, clone_opt, decimal_u64, join};
use crate::urn;
use crate::urn::MediaUrn;
use vstd::prelude::*;
use vstd::string::*;

verus! {

/// Forwards one hop of a chain.
pub struct Forwarder {
    pub prev_cap_urn: String,
    pub prev_step_token_id: StepToken,
    pub next_in_media: String,
    /// The downstream edge's declared arg URN, parsed.
    pub target: MediaUrn,
    pub effect_audit: EffectAudit,
    pub next_rid: MessageId,
    pub body_index: Option<usize>,
    /// Upstream stream id → downstream stream id.
    pub streams: Table<String>,
    /// Upstream chunks consumed and not granted back yet.
    pub credit: CreditPlumbing,
    pub timer: ActivityTimer,
    /// Whether the silence warning of the current quiet window is out.
    pub warned: bool,
}

/// What one frame means to a forwarder.
pub enum ForwardStep {
    /// Nothing to do: read on.
    ReadOn,
    /// Send this frame downstream.
    Send(Frame),
    /// A chunk of a known stream: acquire one credit of that stream's
    /// downstream window, then forward the chunk.
    AwaitWindow(Frame),
    /// The frame credits the previous cap's own input streams.
    RouteCredit,
    Progress { bits: u32, message: String },
    Log(PipelineLogRecord),
    /// The upstream is complete: report its final progress, send the extra-arg
    /// streams, then END.
    Complete { progress: u64, message: String },
}

/// The downstream window, as a chunk meets it.
#[derive(Debug, Clone, Copy, PartialEq, Eq, Structural)]
pub enum WindowState {
    /// One credit was acquired.
    Acquired,
    /// No credit is there right now.
    Exhausted,
    /// The consumer's request terminated or was cancelled.
    Closed,
}

/// What a chunk that meets its window means.
pub enum ChunkStep {
    /// Send the chunk, then grant the credits that are due.
    Forward { out: Frame, grant: Option<CreditGrant> },
    /// Grant these, wait for a credit, then try the chunk again.
    Wait { chunk: Frame, grants: Vec<CreditGrant> },
    /// Stop forwarding.
    Stop,
}

/// What a chunk does to a forwarder when it meets its window.
pub open spec fn chunk_step(
    before: Forwarder,
    after: Forwarder,
    f: Frame,
    window: WindowState,
    step: ChunkStep,
) -> bool {
    match window {
        WindowState::Acquired => step matches ChunkStep::Forward { out, grant } && {
            &&& restamped(f, out, before.next_rid, before.streams@[stream_key(f)]@)
            &&& text::opt_view(out.media_urn) == text::opt_view(f.media_urn)
            &&& terminal::chunk_counted(
                Some(before.credit),
                Some(after.credit),
                Some(stream_key(f)),
                grant,
            )
        },
        WindowState::Exhausted => step matches ChunkStep::Wait { chunk, grants } && chunk == f
            && terminal::flushed(Some(before.credit), Some(after.credit), grants@),
        WindowState::Closed => step is Stop && after == before,
    }
}

/// The frame that a failed send was to forward, in words.
pub open spec fn forwarded_text(frame: FrameType) -> Seq<char> {
    match frame {
        FrameType::StreamStart => "forward STREAM_START: "@,
        FrameType::Chunk => "forward CHUNK: "@,
        FrameType::StreamEnd => "forward STREAM_END: "@,
        _ => "forward END: "@,
    }
}

/// The failure to send a frame downstream.
pub fn forward_failed(frame: FrameType, why: &str) -> (e: ExecutionError)
    ensures
        spool::host_error(e, forwarded_text(frame) + why@),
{
    let what = match frame {
        FrameType::StreamStart => "forward STREAM_START: ",
        FrameType::Chunk => "forward CHUNK: ",
        FrameType::StreamEnd => "forward STREAM_END: ",
        _ => "forward END: ",
    };
    ExecutionError::HostError(what.to_owned().concat(why))
}

/// The forwarder fails: a diagnostic to emit first, and the error.
pub struct ForwardFailure {
    pub log: Option<PipelineLogRecord>,
    pub error: ExecutionError,
}

/// The id of a frame's stream, empty where it has none.
pub open spec fn stream_key(f: Frame) -> Seq<char> {
    match f.stream_id {
        Some(s) => s@,
        None => Seq::empty(),
    }
}

/// A frame re-stamped for the next request and one of its streams: everything
/// else but its label is kept.
pub open spec fn restamped(f: Frame, out: Frame, rid: MessageId, stream: Seq<char>) -> bool {
    &&& out == (Frame {
        id: rid,
        routing_id: None,
        seq: 0,
        stream_id: out.stream_id,
        media_urn: out.media_urn,
        ..f
    })
    &&& text::opt_view(out.stream_id) == Some(stream)
}

/// The counters once a stream is opened: nothing is pending under its id.
pub open spec fn stream_opened(before: CreditPlumbing, after: CreditPlumbing, key: Seq<char>) -> bool {
    &&& after.batch() == before.batch()
    &&& after.streams() == (if before.streams().contains(Some(key)) {
        before.streams()
    } else {
        before.streams().push(Some(key))
    })
    &&& after.pending(Some(key)) == 0
    &&& forall|s: Option<Seq<char>>|
        s != Some(key) ==> #[trigger] after.pending(s) == before.pending(s)
}

/// The downstream window of a stream, as its gate reports it.
pub struct GateState {
    pub available: u64,
    pub closed: bool,
}

/// How the credit state of a stream reads.
pub open spec fn gate_text(h: Forwarder, key: Seq<char>, gate: GateState) -> Seq<char> {
    "stream "@ + key + "→"@ + h.streams@[key]@ + ": downstream_available="@ + text::decimal(
        gate.available as nat,
    ) + " pending_upstream_grants="@ + text::decimal(h.credit.pending(Some(key)) as nat)
        + " gate_closed="@ + text::bool_text(gate.closed)
}

/// How the credit state of every stream reads, in the order of their opening.
pub open spec fn gate_texts(h: Forwarder, gates: Seq<GateState>) -> Seq<Seq<char>> {
    Seq::new(gates.len(), |i: int| gate_text(h, h.streams.order()[i], gates[i]))
}

/// How the failure of an audit is reported by a forwarder.
pub open spec fn audit_error(e: ExecutionError, fault: stream_io::StreamFault) -> bool {
    match fault {
        stream_io::StreamFault::EffectContract(cap_urn, effect, input, expected, actual) => {
            e matches ExecutionError::EffectContractViolation {
                cap_urn: c,
                effect: x,
                runtime_input: i,
                expected: w,
                actual: a,
            } && c@ == cap_urn && x@ == effect && i@ == input && w@ == expected && a@ == actual
        },
        other => spool::host_error(
            e,
            "pipelined forward: "@ + stream_io::stream_fault_text(other),
        ),
    }
}

/// What stays the same whatever comes in.
pub open spec fn same_hop(before: Forwarder, after: Forwarder) -> bool {
    &&& after.prev_cap_urn == before.prev_cap_urn
    &&& after.prev_step_token_id == before.prev_step_token_id
    &&& after.next_in_media == before.next_in_media
    &&& after.target == before.target
    &&& after.effect_audit == before.effect_audit
    &&& after.next_rid == before.next_rid
    &&& after.body_index == before.body_index
}

/// A diagnostic of the upstream cap.
pub open spec fn hop_entry(
    h: Forwarder,
    level: Seq<char>,
    class: AttributionClass,
    message: Seq<char>,
    meta: Option<Seq<u8>>,
    arg: Option<Seq<char>>,
) -> stream_io::LogEntry {
    stream_io::cap_diagnostic(
        h.prev_step_token_id@,
        h.prev_cap_urn@,
        level,
        class,
        message,
        meta,
        h.body_index,
        arg,
    )
}

/// The text of a malformed frame of the upstream cap.
pub open spec fn emitted_text(h: Forwarder, what: Seq<char>) -> Seq<char> {
    "Cap '"@ + h.prev_cap_urn@ + "' emitted "@ + what
}

/// How an unsuccessful upstream END reads.
pub open spec fn upstream_end_text(h: Forwarder, code: Option<i64>) -> Seq<char> {
    "Cap '"@ + h.prev_cap_urn@ + "' END without success: exit_code="@ + terminal::exit_code_debug(
        code,
    )
}

/// Why the label of an audited emission cannot be relabeled, if it cannot.
pub open spec fn relabel_fault(h: Forwarder, label: Seq<char>) -> Option<Seq<char>> {
    match urn::media_parsed(label) {
        Err(fault) => Some(
            "pipelined forward: cap '"@ + h.prev_cap_urn@
                + "' emitted a stream with invalid media URN '"@ + label + "': "@
                + urn::fault_text(fault),
        ),
        Ok(tags) => if urn::tags_conform(tags, h.target@) {
            None
        } else {
            Some(
                "pipelined forward: cap '"@ + h.prev_cap_urn@ + "' output stream URN '"@ + label
                    + "' does not conform to the downstream declared arg URN '"@ + h.next_in_media@
                    + "'"@,
            )
        },
    }
}

/// The label of a frame, empty where it has none.
pub open spec fn label_of(f: Frame) -> Seq<char> {
    match f.media_urn {
        Some(m) => m@,
        None => Seq::empty(),
    }
}

/// What a taken frame does to a forwarder, and the step it gives rise to.
/// `fresh` is the downstream id of a stream that the frame opens.
pub open spec fn forward_step(
    before: Forwarder,
    after: Forwarder,
    f: Frame,
    fresh: Seq<char>,
    now: u128,
    step: ForwardStep,
) -> bool {
    &&& same_hop(before, after)
    &&& !after.warned
    &&& f.frame_type != FrameType::StreamStart ==> after.credit == before.credit
        && after.streams == before.streams
    &&& match f.frame_type {
        FrameType::StreamStart => {
            &&& after.timer == stream_io::timer_touched(before.timer, now)
            &&& stream_io::frame_audit_outcome(before.effect_audit, f) is Ok
            &&& relabel_fault(before, label_of(f)) is None
            &&& stream_opened(before.credit, after.credit, stream_key(f))
            &&& after.streams@.contains_key(stream_key(f)) && after.streams@[stream_key(f)]@
                == fresh
            &&& forall|s: Seq<char>|
                s != stream_key(f) ==> (#[trigger] after.streams@.contains_key(s)
                    == before.streams@.contains_key(s)) && (after.streams@.contains_key(s)
                    ==> after.streams@[s] == before.streams@[s])
            &&& step matches ForwardStep::Send(out) && restamped(f, out, before.next_rid, fresh)
                && text::opt_view(out.media_urn) == Some(before.next_in_media@)
        },
        FrameType::Chunk => {
            &&& after.timer == stream_io::timer_touched(before.timer, now)
            &&& before.streams@.contains_key(stream_key(f))
            &&& step == ForwardStep::AwaitWindow(f)
        },
        FrameType::StreamEnd => {
            &&& after.timer == stream_io::timer_touched(before.timer, now)
            &&& before.streams@.contains_key(stream_key(f))
            &&& step matches ForwardStep::Send(out) && restamped(
                f,
                out,
                before.next_rid,
                before.streams@[stream_key(f)]@,
            ) && out.media_urn == f.media_urn
        },
        FrameType::Credit => after.timer == before.timer && step is RouteCredit,
        FrameType::End => {
            &&& after.timer == before.timer
            &&& f.exit_code == Some(0i64)
            &&& step matches ForwardStep::Complete { progress, message } && progress
                == terminal::final_progress_bits(f) && message@ == terminal::final_message_text(f)
        },
        FrameType::Log => {
            &&& f.level is Some
            &&& after.timer == stream_io::timer_after_log(before.timer, f.level->Some_0@, now)
            &&& f.message is Some
            &&& match f.progress {
                ProgressSlot::Number(bits) => step matches ForwardStep::Progress {
                    bits: b,
                    message: m,
                } && b == bits && m@ == f.message->Some_0@,
                _ => {
                    &&& f.attribution is Ok
                    &&& f.attributed_arg is Ok
                    &&& step matches ForwardStep::Log(record) && record@ == hop_entry(
                        before,
                        f.level->Some_0@,
                        f.attribution->Ok_0,
                        f.message->Some_0@,
                        frame::meta_view(f.meta),
                        text::opt_view(f.attributed_arg->Ok_0),
                    )
                },
            }
        },
        FrameType::Error => false,
        FrameType::Other => after.timer == before.timer && step is ReadOn,
    }
}

/// The failure that a LOG frame is, where it is one.
pub open spec fn log_fault(h: Forwarder, f: Frame) -> Option<Seq<char>> {
    match (f.level, f.message, f.progress, f.attribution, f.attributed_arg) {
        (None, _, _, _, _) => Some(emitted_text(h, "a LOG frame without required text level"@)),
        (_, None, ProgressSlot::Number(_), _, _) => Some(
            emitted_text(h, "a progress LOG without required text message"@),
        ),
        (_, None, _, _, _) => Some(emitted_text(h, "a LOG frame without required text message"@)),
        (_, _, ProgressSlot::Number(_), _, _) => None,
        (_, _, _, Err(why), _) => Some(emitted_text(h, "an invalid LOG frame: "@ + why@)),
        (_, _, _, _, Err(why)) => Some(emitted_text(h, "an invalid LOG frame: "@ + why@)),
        _ => None,
    }
}

/// The failure that a frame is, where it is one.
pub open spec fn forward_fault(h: Forwarder, f: Frame, failure: ForwardFailure) -> bool {
    match f.frame_type {
        FrameType::StreamStart => {
            &&& failure.log is None
            &&& match stream_io::frame_audit_outcome(h.effect_audit, f) {
                Err(fault) => audit_error(failure.error, fault),
                Ok(()) => relabel_fault(h, label_of(f)) matches Some(why) && spool::host_error(
                    failure.error,
                    why,
                ),
            }
        },
        FrameType::Chunk => {
            &&& !h.streams@.contains_key(stream_key(f))
            &&& failure.log is None
            &&& spool::host_error(
                failure.error,
                "forward CHUNK: unknown stream_id '"@ + stream_key(f) + "'"@,
            )
        },
        FrameType::StreamEnd => {
            &&& !h.streams@.contains_key(stream_key(f))
            &&& failure.log is None
            &&& spool::host_error(
                failure.error,
                "forward STREAM_END: unknown stream_id '"@ + stream_key(f) + "'"@,
            )
        },
        FrameType::End => {
            let details = upstream_end_text(h, f.exit_code);
            &&& f.exit_code != Some(0i64)
            &&& failure.log matches Some(record) && record@ == hop_entry(
                h,
                "error"@,
                AttributionClass::Internal,
                details,
                None,
                None,
            )
            &&& failure.error matches ExecutionError::CartridgeExecutionFailed {
                cap_urn,
                code,
                class,
                details: d,
                arg_urn,
            } && cap_urn == h.prev_cap_urn && code is None && class == AttributionClass::Internal
                && d@ == details && arg_urn is None
        },
        FrameType::Log => {
            &&& failure.log is None
            &&& log_fault(h, f) matches Some(why) && spool::host_error(failure.error, why)
        },
        FrameType::Error => match (f.attribution, f.code, f.message, f.attributed_arg) {
            (Err(why), _, _, _) => failure.log is None && spool::host_error(
                failure.error,
                emitted_text(h, "an invalid ERR frame: "@ + why@),
            ),
            (_, None, _, _) => failure.log is None && spool::host_error(
                failure.error,
                emitted_text(h, "an ERR frame without required text code"@),
            ),
            (_, _, None, _) => failure.log is None && spool::host_error(
                failure.error,
                emitted_text(h, "an ERR frame without required text message"@),
            ),
            (_, _, _, Err(why)) => failure.log is None && spool::host_error(
                failure.error,
                emitted_text(h, "an invalid ERR frame: "@ + why@),
            ),
            (Ok(class), Some(code), Some(message), Ok(arg)) => {
                &&& failure.log matches Some(record) && record@ == hop_entry(
                    h,
                    "error"@,
                    class,
                    message@,
                    None,
                    text::opt_view(arg),
                )
                &&& failure.error matches ExecutionError::CartridgeExecutionFailed {
                    cap_urn,
                    code: c,
                    class: k,
                    details,
                    arg_urn,
                } && cap_urn == h.prev_cap_urn && text::opt_view(c) == Some(code@) && k == class
                    && details@ == message@ && text::opt_view(arg_urn) == text::opt_view(arg)
            },
        },
        _ => false,
    }
}

fn key_of(f: &Frame) -> (r: String)
    ensures
        r@ == stream_key(*f),
{
    match &f.stream_id {
        Some(s) => s.clone(),
        None => String::new(),
    }
}

fn restamp(f: Frame, rid: MessageId, stream: &String, media_urn: Option<String>) -> (out: Frame)
    ensures
        restamped(f, out, rid, stream@),
        out.media_urn == media_urn,
{
    Frame {
        id: rid,
        routing_id: None,
        seq: 0,
        stream_id: Some(stream.clone()),
        media_urn,
        ..f
    }
}

impl Forwarder {
    /// A forwarder for one hop: `prev_cap_urn`'s response feeds the request
    /// `next_rid`, under the downstream edge's declared input `next_in_media`.
    pub fn new(
        prev_cap_urn: &str,
        contract: OutputContract,
        prev_step_token_id: &StepToken,
        next_in_media: &str,
        next_rid: MessageId,
        body_index: Option<usize>,
        initial_credit: u64,
        activity_timeout_secs: u64,
        now: u128,
    ) -> (r: Result<Self, ExecutionError>)
        ensures
            match r {
                Ok(h) => {
                    &&& urn::media_parsed(next_in_media@) == Ok::<urn::TagMap, urn::UrnFault>(
                        h.target@,
                    )
                    &&& stream_io::audit_build_fault(prev_cap_urn@) is None
                    &&& stream_io::audits(h.effect_audit, prev_cap_urn@, contract)
                    &&& h.prev_cap_urn@ == prev_cap_urn@
                    &&& h.prev_step_token_id == *prev_step_token_id
                    &&& h.next_in_media@ == next_in_media@
                    &&& h.next_rid == next_rid
                    &&& h.body_index == body_index
                    &&& h.streams@ == Map::<Seq<char>, String>::empty()
                    &&& h.credit.batch() == (if initial_credit / 2 > 1 {
                        initial_credit / 2
                    } else {
                        1
                    })
                    &&& forall|s: Option<Seq<char>>| #[trigger] h.credit.pending(s) == 0
                    &&& h.timer == (ActivityTimer {
                        last_activity: now,
                        paused: false,
                        timeout_secs: activity_timeout_secs,
                    })
                    &&& !h.warned
                },
                Err(e) => match urn::media_parsed(next_in_media@) {
                    Err(fault) => spool::host_error(
                        e,
                        "pipelined forward: downstream arg URN '"@ + next_in_media@
                            + "' is not a valid media URN: "@ + urn::fault_text(fault),
                    ),
                    Ok(_) => stream_io::audit_build_fault(prev_cap_urn@) matches Some(fault)
                        && spool::host_error(
                        e,
                        "pipelined forward: "@ + stream_io::stream_fault_text(fault),
                    ),
                },
            },
    {
        let target = match MediaUrn::from_string(next_in_media) {
            Ok(u) => u,
            Err(e) => {
                return Err(
                    ExecutionError::HostError(
                        "pipelined forward: downstream arg URN '".to_owned().concat(
                            next_in_media,
                        ).concat("' is not a valid media URN: ").concat(e.detail().as_str()),
                    ),
                );
            },
        };
        // The producer's emission is audited against its declared contract
        // BEFORE the relabel: the relabel deliberately coarsens the label, so
        // an unaudited relabel would mask a lying cap.
        let effect_audit = match EffectAudit::new(prev_cap_urn, contract) {
            Ok(a) => a,
            Err(e) => {
                return Err(
                    ExecutionError::HostError(
                        "pipelined forward: ".to_owned().concat(e.message().as_str()),
                    ),
                );
            },
        };
        Ok(
            Forwarder {
                prev_cap_urn: prev_cap_urn.to_owned(),
                prev_step_token_id: prev_step_token_id.clone(),
                next_in_media: next_in_media.to_owned(),
                target,
                effect_audit,
                next_rid,
                body_index,
                streams: Table::new(),
                credit: CreditPlumbing::new(initial_credit),
                timer: ActivityTimer::new(activity_timeout_secs, now),
                warned: false,
            },
        )
    }

    fn record(
        &self,
        level: &str,
        class: AttributionClass,
        message: &str,
        meta: Option<crate::frame::StreamMeta>,
        arg_urn: Option<String>,
    ) -> (r: PipelineLogRecord)
        ensures
            r@ == hop_entry(
                *self,
                level@,
                class,
                message@,
                frame::meta_view(meta),
                text::opt_view(arg_urn),
            ),
    {
        PipelineLogRecord::detailed(
            &self.prev_step_token_id,
            self.prev_cap_urn.as_str(),
            level,
            class,
            message,
            meta,
            self.body_index,
            arg_urn,
        )
    }

    fn malformed(&self, what: &str) -> (r: ForwardFailure)
        ensures
            r.log is None,
            spool::host_error(r.error, emitted_text(*self, what@)),
    {
        ForwardFailure {
            log: None,
            error: ExecutionError::HostError(
                "Cap '".to_owned().concat(self.prev_cap_urn.as_str()).concat(
                    "' emitted ",
                ).concat(what),
            ),
        }
    }

    fn host_failure(message: String) -> (r: ForwardFailure)
        ensures
            r.log is None,
            spool::host_error(r.error, message@),
    {
        ForwardFailure { log: None, error: ExecutionError::HostError(message) }
    }

    /// Why an audited label cannot be relabeled.
    fn check_relabel(&self, label: &str) -> (r: Option<String>)
        ensures
            text::opt_view(r) == relabel_fault(*self, label@),
    {
        match MediaUrn::from_string(label) {
            Err(e) => Some(
                "pipelined forward: cap '".to_owned().concat(self.prev_cap_urn.as_str()).concat(
                    "' emitted a stream with invalid media URN '",
                ).concat(label).concat("': ").concat(e.detail().as_str()),
            ),
            Ok(produced) => {
                if produced.conforms_to(&self.target) {
                    None
                } else {
                    Some(
                        "pipelined forward: cap '".to_owned().concat(
                            self.prev_cap_urn.as_str(),
                        ).concat("' output stream URN '").concat(label).concat(
                            "' does not conform to the downstream declared arg URN '",
                        ).concat(self.next_in_media.as_str()).concat("'"),
                    )
                }
            },
        }
    }

    fn on_stream_start(&mut self, f: Frame, fresh: String, now: u128) -> (r: Result<
        ForwardStep,
        ForwardFailure,
    >)
        requires
            f.frame_type == FrameType::StreamStart,
            !old(self).warned,
        ensures
            match r {
                Ok(step) => forward_step(*old(self), *final(self), f, fresh@, now, step),
                Err(failure) => same_hop(*old(self), *final(self)) && forward_fault(
                    *old(self),
                    f,
                    failure,
                ),
            },
    {
        self.timer.touch(now);
        let key = key_of(&f);
        let stream = Some(key.clone());
        self.credit.open(&stream);
        self.streams.insert(key, fresh.clone());
        // Audit FIRST, on the producer's own claim.
        match self.effect_audit.audit_frame(&f) {
            Ok(()) => {},
            Err(
                StreamIoError::EffectContract { cap_urn, effect, runtime_input, expected, actual },
            ) => {
                return Err(
                    ForwardFailure {
                        log: None,
                        error: ExecutionError::EffectContractViolation {
                            cap_urn,
                            effect,
                            runtime_input,
                            expected,
                            actual,
                        },
                    },
                );
            },
            Err(other) => {
                return Err(
                    Self::host_failure(
                        "pipelined forward: ".to_owned().concat(other.message().as_str()),
                    ),
                );
            },
        }
        // Then relabel to the downstream edge's declared arg URN.
        let label = match &f.media_urn {
            Some(m) => m.clone(),
            None => String::new(),
        };
        if let Some(why) = self.check_relabel(label.as_str()) {
            return Err(Self::host_failure(why));
        }
        let media_urn = Some(self.next_in_media.clone());
        Ok(ForwardStep::Send(restamp(f, self.next_rid, &fresh, media_urn)))
    }

    fn on_log(&mut self, f: Frame, now: u128) -> (r: Result<ForwardStep, ForwardFailure>)
        requires
            f.frame_type == FrameType::Log,
            !old(self).warned,
        ensures
            match r {
                Ok(step) => forward_step(*old(self), *final(self), f, Seq::empty(), now, step),
                Err(failure) => same_hop(*old(self), *final(self)) && forward_fault(
                    *old(self),
                    f,
                    failure,
                ),
            },
    {
        let level = match &f.level {
            Some(level) => level.clone(),
            None => {
                return Err(self.malformed("a LOG frame without required text level"));
            },
        };
        self.timer.handle_log_level(level.as_str(), now);
        match f.progress {
            ProgressSlot::Number(bits) => {
                match &f.message {
                    Some(message) => Ok(ForwardStep::Progress { bits, message: message.clone() }),
                    None => Err(self.malformed("a progress LOG without required text message")),
                }
            },
            _ => {
                let message = match &f.message {
                    Some(message) => message,
                    None => {
                        return Err(self.malformed("a LOG frame without required text message"));
                    },
                };
                let class = match &f.attribution {
                    Ok(class) => *class,
                    Err(why) => {
                        return Err(
                            self.malformed(
                                "an invalid LOG frame: ".to_owned().concat(why.as_str()).as_str(),
                            ),
                        );
                    },
                };
                let arg_urn = match &f.attributed_arg {
                    Ok(arg) => clone_opt(arg),
                    Err(why) => {
                        return Err(
                            self.malformed(
                                "an invalid LOG frame: ".to_owned().concat(why.as_str()).as_str(),
                            ),
                        );
                    },
                };
                Ok(
                    ForwardStep::Log(
                        self.record(
                            level.as_str(),
                            class,
                            message.as_str(),
                            clone_meta(&f.meta),
                            arg_urn,
                        ),
                    ),
                )
            },
        }
    }

    fn on_err(&self, f: &Frame) -> (r: ForwardFailure)
        requires
            f.frame_type == FrameType::Error,
        ensures
            forward_fault(*self, *f, r),
    {
        let class = match &f.attribution {
            Ok(class) => *class,
            Err(why) => {
                return self.malformed(
                    "an invalid ERR frame: ".to_owned().concat(why.as_str()).as_str(),
                );
            },
        };
        let code = match &f.code {
            Some(code) => code.clone(),
            None => {
                return self.malformed("an ERR frame without required text code");
            },
        };
        let message = match &f.message {
            Some(message) => message.clone(),
            None => {
                return self.malformed("an ERR frame without required text message");
            },
        };
        let arg_urn = match &f.attributed_arg {
            Ok(arg) => clone_opt(arg),
            Err(why) => {
                return self.malformed(
                    "an invalid ERR frame: ".to_owned().concat(why.as_str()).as_str(),
                );
            },
        };
        let log = self.record("error", class, message.as_str(), None, clone_opt(&arg_urn));
        ForwardFailure {
            log: Some(log),
            error: ExecutionError::CartridgeExecutionFailed {
                cap_urn: self.prev_cap_urn.clone(),
                code: Some(code),
                class,
                details: message,
                arg_urn,
            },
        }
    }

    /// Take the next frame of the upstream response. `fresh` is a new stream
    /// id, used where the frame opens a stream.
    pub fn on_frame(&mut self, f: Frame, fresh: String, now: u128) -> (r: Result<
        ForwardStep,
        ForwardFailure,
    >)
        ensures
            match r {
                Ok(step) => forward_step(*old(self), *final(self), f, fresh@, now, step),
                Err(failure) => same_hop(*old(self), *final(self)) && forward_fault(
                    *old(self),
                    f,
                    failure,
                ),
            },
    {
        self.warned = false;
        match f.frame_type {
            FrameType::StreamStart => self.on_stream_start(f, fresh, now),
            FrameType::Chunk => {
                self.timer.touch(now);
                let key = key_of(&f);
                if !self.streams.contains_key(key.as_str()) {
                    return Err(
                        Self::host_failure(
                            "forward CHUNK: unknown stream_id '".to_owned().concat(
                                key.as_str(),
                            ).concat("'"),
                        ),
                    );
                }
                Ok(ForwardStep::AwaitWindow(f))
            },
            FrameType::StreamEnd => {
                self.timer.touch(now);
                let key = key_of(&f);
                match self.streams.get(key.as_str()) {
                    None => Err(
                        Self::host_failure(
                            "forward STREAM_END: unknown stream_id '".to_owned().concat(
                                key.as_str(),
                            ).concat("'"),
                        ),
                    ),
                    Some(stream) => {
                        let media_urn = clone_opt(&f.media_urn);
                        Ok(ForwardStep::Send(restamp(f, self.next_rid, stream, media_urn)))
                    },
                }
            },
            FrameType::Credit => Ok(ForwardStep::RouteCredit),
            FrameType::End => {
                let success: bool = match f.exit_code {
                    Some(code) => code == 0,
                    None => false,
                };
                if !success {
                    let details = "Cap '".to_owned().concat(self.prev_cap_urn.as_str()).concat(
                        "' END without success: exit_code=",
                    ).concat(exit_code_string(f.exit_code).as_str());
                    let log = self.record(
                        "error",
                        AttributionClass::Internal,
                        details.as_str(),
                        None,
                        None,
                    );
                    return Err(
                        ForwardFailure {
                            log: Some(log),
                            error: ExecutionError::CartridgeExecutionFailed {
                                cap_urn: self.prev_cap_urn.clone(),
                                code: None,
                                class: AttributionClass::Internal,
                                details,
                                arg_urn: None,
                            },
                        },
                    );
                }
                let (progress, message) = final_event(&f);
                Ok(ForwardStep::Complete { progress, message })
            },
            FrameType::Log => self.on_log(f, now),
            FrameType::Error => Err(self.on_err(&f)),
            FrameType::Other => Ok(ForwardStep::ReadOn),
        }
    }

    /// A chunk meets its downstream window. A window with a credit for it lets
    /// it through, with the credits that are due upstream. An exhausted one is
    /// waited for: what is held back is flushed first, for the upstream producer
    /// may be stalled on exactly these grants. A closed one means that the
    /// consumer terminated: forwarding stops, and is no failure — the cap's real
    /// outcome is carried by its own END or ERR.
    pub fn on_window(&mut self, f: Frame, window: WindowState) -> (step: ChunkStep)
        requires
            old(self).streams@.contains_key(stream_key(f)),
        ensures
            *final(self) == (Forwarder { credit: final(self).credit, ..*old(self) }),
            chunk_step(*old(self), *final(self), f, window, step),
    {
        match window {
            WindowState::Closed => ChunkStep::Stop,
            WindowState::Exhausted => {
                let grants = self.credit.flush();
                ChunkStep::Wait { chunk: f, grants }
            },
            WindowState::Acquired => {
                let key = key_of(&f);
                let stream = match self.streams.get(key.as_str()) {
                    Some(s) => s.clone(),
                    None => String::new(),
                };
                let media_urn = clone_opt(&f.media_urn);
                let out = restamp(f, self.next_rid, &stream, media_urn);
                let grant = self.credit.consume(&Some(key));
                ChunkStep::Forward { out, grant }
            },
        }
    }

    /// The upstream response channel closed without END.
    pub fn on_closed(&self) -> (failure: ForwardFailure)
        ensures
            ({
                let message = "Cap '"@ + self.prev_cap_urn@
                    + "' response channel closed without END"@;
                &&& spool::host_error(failure.error, message)
                &&& failure.log matches Some(record) && record@ == hop_entry(
                    *self,
                    "error"@,
                    AttributionClass::Internal,
                    message,
                    None,
                    None,
                )
            }),
    {
        let message = "Cap '".to_owned().concat(self.prev_cap_urn.as_str()).concat(
            "' response channel closed without END",
        );
        let log = self.record("error", AttributionClass::Internal, message.as_str(), None, None);
        ForwardFailure { log: Some(log), error: ExecutionError::HostError(message) }
    }

    /// The credit state of every stream, in words.
    fn credit_state(&self, gates: &Vec<GateState>) -> (r: String)
        requires
            gates@.len() == self.streams.order().len(),
        ensures
            r@ == text::join_text(gate_texts(*self, gates@), "; "@),
    {
        let ghost all = gate_texts(*self, gates@);
        let n: usize = self.streams.len();
        let mut texts: Vec<String> = Vec::new();
        let mut i: usize = 0;
        while i < n
            invariant
                i <= n,
                n == self.streams.order().len(),
                n == gates@.len(),
                all == gate_texts(*self, gates@),
                text::views(texts@) =~= all.take(i as int),
            decreases n - i,
        {
            let key = self.streams.key_at(i).clone();
            let pending: u64 = self.credit.outstanding(&Some(key.clone()));
            let line = "stream ".to_owned().concat(key.as_str()).concat("→").concat(
                self.streams.value_at(i).as_str(),
            ).concat(": downstream_available=").concat(
                decimal_u64(gates[i].available).as_str(),
            ).concat(" pending_upstream_grants=").concat(decimal_u64(pending).as_str()).concat(
                " gate_closed=",
            ).concat(bool_str(gates[i].closed));
            proof {
                assert(line@ == all[i as int]);
                assert(all.take(i + 1) =~= all.take(i as int).push(line@));
            }
            let ghost before = text::views(texts@);
            texts.push(line);
            assert(text::views(texts@) =~= before.push(line@));
            i = i + 1;
        }
        assert(all.take(n as int) =~= all);
        join(&texts, "; ")
    }

    /// The upstream is quiet: flush what is held back and, once the silence
    /// exceeds the activity timeout, warn once, with the credit state behind
    /// the flush. `gates` holds the downstream windows, in the order in which
    /// their streams were opened.
    pub fn on_quiet(&mut self, now: u128, gates: &Vec<GateState>) -> (r: (
        Vec<CreditGrant>,
        Option<PipelineLogRecord>,
    ))
        requires
            gates@.len() == old(self).streams.order().len(),
        ensures
            terminal::flushed(Some(old(self).credit), Some(final(self).credit), r.0@),
            *final(self) == (Forwarder {
                credit: final(self).credit,
                warned: old(self).warned || stream_io::timer_expired(old(self).timer, now),
                ..*old(self)
            }),
            match r.1 {
                None => old(self).warned || !stream_io::timer_expired(old(self).timer, now),
                Some(record) => {
                    &&& !old(self).warned
                    &&& stream_io::timer_expired(old(self).timer, now)
                    &&& record@ == hop_entry(
                        *old(self),
                        "warn"@,
                        AttributionClass::Internal,
                        "Cap '"@ + old(self).prev_cap_urn@ + "' has had no activity for "@
                            + text::decimal(old(self).timer.timeout_secs as nat)
                            + "s — continuing to wait. Use Cancel to abort. Forwarding credit state: ["@
                            + text::join_text(gate_texts(*final(self), gates@), "; "@) + "]"@,
                        None,
                        None,
                    )
                },
            },
    {
        let grants = self.credit.flush();
        let mut warning: Option<PipelineLogRecord> = None;
        if self.timer.is_expired(now) && !self.warned {
            self.warned = true;
            let message = "Cap '".to_owned().concat(self.prev_cap_urn.as_str()).concat(
                "' has had no activity for ",
            ).concat(decimal_u64(self.timer.timeout_secs).as_str()).concat(
                "s — continuing to wait. Use Cancel to abort. Forwarding credit state: [",
            ).concat(self.credit_state(gates).as_str()).concat("]");
            warning = Some(
                self.record("warn", AttributionClass::Internal, message.as_str(), None, None),
            );
        }
        (grants, warning)
    }
}

// ---------------------------------------------------------------------------
// Laws
// ---------------------------------------------------------------------------
/// The consumer never sees the producer's own label: every stream that is
/// opened downstream carries the declared arg URN, and only an emission whose
/// own label conforms to that URN is opened.
pub proof fn relabel_never_masks_a_mismatch(
    before: Forwarder,
    after: Forwarder,
    f: Frame,
    fresh: Seq<char>,
    now: u128,
    step: ForwardStep,
)
    requires
        forward_step(before, after, f, fresh, now, step),
        f.frame_type == FrameType::StreamStart,
    ensures
        step matches ForwardStep::Send(out) && text::opt_view(out.media_urn) == Some(
            before.next_in_media@,
        ),
        urn::media_parsed(label_of(f)) is Ok,
        urn::tags_conform(urn::media_parsed(label_of(f))->Ok_0, before.target@),
{
}

/// A forwarded chunk reaches the consumer as it was sent: same place, same data,
/// under the stream that was opened for it; and its credit is granted upstream
/// or still held back for a later grant.
pub proof fn a_forwarded_chunk_is_unchanged(
    before: Forwarder,
    after: Forwarder,
    f: Frame,
    step: ChunkStep,
)
    requires
        chunk_step(before, after, f, WindowState::Acquired, step),
        credit::below_batch(before.credit.pending(Some(stream_key(f))), before.credit.batch()),
        before.credit.pending(Some(stream_key(f))) < u64::MAX,
    ensures
        step is Forward,
        ({
            let out = step->out;
            let granted: int = match step->grant {
                Some(g) => g@.1 as int,
                None => 0,
            };
            &&& out.payload == f.payload
            &&& out.index == f.index
            &&& out.meta == f.meta
            &&& out.id == before.next_rid
            &&& text::opt_view(out.stream_id) == Some(before.streams@[stream_key(f)]@)
            &&& after.credit.pending(Some(stream_key(f))) + granted == before.credit.pending(
                Some(stream_key(f)),
            ) + 1
        }),
{
    credit::credits_are_conserved(
        before.credit.pending(Some(stream_key(f))),
        before.credit.batch(),
    );
}

/// A stream, once opened downstream, stays known under its id: every later
/// frame of it that is taken finds it.
pub proof fn opened_streams_stay_known(
    before: Forwarder,
    after: Forwarder,
    f: Frame,
    fresh: Seq<char>,
    now: u128,
    step: ForwardStep,
    stream: Seq<char>,
)
    requires
        forward_step(before, after, f, fresh, now, step),
        before.streams@.contains_key(stream),
    ensures
        after.streams@.contains_key(stream),
{
    if f.frame_type == FrameType::StreamStart && stream != stream_key(f) {
        assert(after.streams@.contains_key(stream) == before.streams@.contains_key(stream));
    }
}

/// A hop completes only on an END that reports success; every other END and
/// every ERR fails it.
pub proof fn only_a_successful_end_completes_a_hop(
    before: Forwarder,
    after: Forwarder,
    f: Frame,
    fresh: Seq<char>,
    now: u128,
    step: ForwardStep,
    failure: ForwardFailure,
)
    ensures
        forward_step(before, after, f, fresh, now, step) ==> (step is Complete <==> f.frame_type
            == FrameType::End),
        forward_step(before, after, f, fresh, now, step) && step is Complete ==> f.exit_code
            == Some(0i64),
        f.frame_type == FrameType::Error ==> !forward_step(before, after, f, fresh, now, step),
        forward_fault(before, f, failure) && f.frame_type == FrameType::End ==> f.exit_code
            != Some(0i64),
{
}

/// The end of a stream reaches the consumer under the stream that was opened for
/// it, with what it carries unchanged; a frame of a stream that was not opened
/// is never passed on.
pub proof fn a_forwarded_end_closes_its_own_stream(
    before: Forwarder,
    after: Forwarder,
    f: Frame,
    fresh: Seq<char>,
    now: u128,
    step: ForwardStep,
)
    requires
        forward_step(before, after, f, fresh, now, step),
        f.frame_type == FrameType::StreamEnd || f.frame_type == FrameType::Chunk,
    ensures
        before.streams@.contains_key(
            match f.stream_id {
                Some(s) => s@,
                None => Seq::<char>::empty(),
            },
        ),
        f.frame_type == FrameType::StreamEnd ==> step is Send && step->Send_0.frame_type
            == f.frame_type && step->Send_0.payload == f.payload && step->Send_0.meta == f.meta
            && step->Send_0.id == before.next_rid && step->Send_0.stream_id is Some
            && step->Send_0.stream_id->0@ == before.streams@[match f.stream_id {
            Some(s) => s@,
            None => Seq::<char>::empty(),
        }]@,
        f.frame_type == FrameType::Chunk ==> step == ForwardStep::AwaitWindow(f),
{
}

} // verus!
