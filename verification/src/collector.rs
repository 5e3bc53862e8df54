//! Collecting the terminal response of a cap.
//!
//! The collector walks the response stream (STREAM_START → CHUNK… → STREAM_END
//! → END). Its data goes to memory, or — where a persisted sink or an engaged
//! spool takes it — to disk as it arrives.
//!
//! - `END` with non-zero or absent exit code, an `ERR` frame, and a response
//!   channel that closes without `END` are terminal failures.
//! - Silence is surfaced as a one-shot warning, never an abort: long-running
//!   caps legitimately sit silent, and cancellation is the user's call.

use crate::credit;
use crate::credit::{CreditGrant, CreditPlumbing};
use crate::failure::AttributionClass;
use crate::frame;
use crate::frame::{clone_meta, Frame, FrameType, ProgressSlot, StreamMeta};
use crate::plan::StepToken;
use crate::stream_io;
use crate::stream_io::{ActivityTimer, EffectAudit, OutputContract, PipelineLogRecord, StreamIoError};
use crate::terminal;
use crate::terminal::{
    count_chunk, engine_error, final_event, flush_all, read_err, read_log, LogReading, TerminalMeta,
};
use crate::text;
use crate::text::{clone_opt, decimal_i64, decimal_u64, decimal_usize};
use vstd::prelude::*;
use vstd::string::*;

verus! {

/// Where the response data goes.
#[derive(Debug, Clone, Copy, PartialEq, Eq, Structural)]
pub enum Sink {
    /// Into memory; an intermediate has a spool that it may engage.
    Memory { spool_available: bool },
    /// Into the caller's writer.
    Writer,
    /// Into the engaged spool.
    Spool,
}

/// Whether data goes to disk.
pub open spec fn on_disk(sink: Sink) -> bool {
    !(sink is Memory)
}

/// Collects one response.
pub struct TerminalCollector {
    pub cap_urn: String,
    pub step_token_id: StepToken,
    pub body_index: Option<usize>,
    pub effect_audit: EffectAudit,
    pub response_chunks: Vec<u8>,
    pub is_sequence: Option<bool>,
    pub terminal_meta: TerminalMeta,
    pub credit: Option<CreditPlumbing>,
    pub timer: ActivityTimer,
    /// Whether the silence warning of the current quiet window is out.
    pub warned: bool,
    pub sink: Sink,
}

/// Data for the sink: a payload and its metadata.
pub struct SinkWrite {
    pub payload: Vec<u8>,
    pub meta: Option<StreamMeta>,
}

/// What one frame means to the collector.
pub enum CollectStep {
    /// Nothing to do: read on.
    ReadOn,
    /// Announce the stream to the writer or spool.
    OpenSink {
        is_sequence: Option<bool>,
        media_urn: String,
        meta: Option<StreamMeta>,
        stream_id: Option<String>,
    },
    /// A chunk: data for the sink, if it is on disk, and credits that are due.
    Consumed { write: Option<SinkWrite>, grant: Option<CreditGrant> },
    /// The frame credits our own input streams.
    RouteCredit,
    Progress { bits: u32, message: String },
    Log(PipelineLogRecord),
    /// The response is complete: last data for a sink on disk, which is then
    /// closed, and the final progress event.
    Finished { write: Option<SinkWrite>, close_sink: bool, progress: u64, message: String },
}

/// The collector fails: a diagnostic to emit first, and the error.
pub struct CollectFailure {
    pub log: Option<PipelineLogRecord>,
    pub error: StreamIoError,
}

/// The failure diagnostic of the collected cap.
pub open spec fn failure_entry(
    c: TerminalCollector,
    class: AttributionClass,
    message: Seq<char>,
    arg: Option<Seq<char>>,
) -> stream_io::LogEntry {
    stream_io::cap_diagnostic(
        c.step_token_id@,
        c.cap_urn@,
        "error"@,
        class,
        message,
        None,
        c.body_index,
        arg,
    )
}

/// What an unsuccessful END says about itself.
pub open spec fn unsuccessful_end(code: Option<i64>) -> Seq<char> {
    "END without success: "@ + (match code {
        Some(n) => "exit_code="@ + text::decimal_int(n as int),
        None => "exit_code absent (cartridge likely crashed)"@,
    })
}

/// The refusal of an unbounded terminal whose sink is not persisted.
pub open spec fn unbounded_refusal(cap_urn: Seq<char>) -> Seq<char> {
    "cap '"@ + cap_urn
        + "' terminal declared an UNBOUNDED stream but the sink is not persisted — unbounded terminals require incremental consumption (a persisted sink / IncrementalWriter, or TerminalOutput), never a buffering collector (L16)"@
}

/// Where the data of a stream goes once its STREAM_START is through: an
/// unbounded stream must be consumed incrementally, so it engages the spool of
/// an intermediate and is refused where there is none.
pub open spec fn sink_for(sink: Sink, unbounded: bool) -> Option<Sink> {
    match sink {
        Sink::Memory { spool_available } => if !unbounded {
            Some(sink)
        } else if spool_available {
            Some(Sink::Spool)
        } else {
            None
        },
        _ => Some(sink),
    }
}

/// Whether `w` carries the payload and metadata of a frame.
pub open spec fn writes_frame(w: Option<SinkWrite>, f: Frame) -> bool {
    w matches Some(x) && f.payload matches Some(p) && x.payload@ == p@ && frame::meta_view(x.meta)
        == frame::meta_view(f.meta)
}

/// What stays the same whatever frame comes in.
pub open spec fn same_request(before: TerminalCollector, after: TerminalCollector) -> bool {
    &&& after.cap_urn == before.cap_urn
    &&& after.step_token_id == before.step_token_id
    &&& after.body_index == before.body_index
    &&& after.effect_audit == before.effect_audit
    &&& !after.warned
}

/// What a taken frame does to the collector, and the step it gives rise to.
pub open spec fn collect_step(
    before: TerminalCollector,
    after: TerminalCollector,
    f: Frame,
    now: u128,
    step: CollectStep,
) -> bool {
    &&& same_request(before, after)
    &&& f.frame_type != FrameType::Chunk ==> after.credit == before.credit
    &&& f.frame_type != FrameType::Chunk && f.frame_type != FrameType::End
        ==> after.response_chunks == before.response_chunks
    &&& f.frame_type != FrameType::Chunk ==> after.terminal_meta.item_metas
        == before.terminal_meta.item_metas
    &&& f.frame_type != FrameType::StreamStart ==> {
        &&& after.sink == before.sink
        &&& after.is_sequence == before.is_sequence
        &&& after.terminal_meta.stream_meta == before.terminal_meta.stream_meta
    }
    &&& match f.frame_type {
        FrameType::Chunk => {
            &&& after.timer == stream_io::timer_touched(before.timer, now)
            &&& step matches CollectStep::Consumed { write, grant } && {
                &&& terminal::chunk_counted(
                    before.credit,
                    after.credit,
                    text::opt_view(f.stream_id),
                    grant,
                )
                &&& match f.payload {
                    None => {
                        &&& write is None
                        &&& after.response_chunks@ == before.response_chunks@
                        &&& terminal::metas_view(after.terminal_meta.item_metas@)
                            == terminal::metas_view(before.terminal_meta.item_metas@)
                    },
                    Some(payload) => if on_disk(before.sink) {
                        &&& writes_frame(write, f)
                        &&& after.response_chunks@ == before.response_chunks@
                        &&& terminal::metas_view(after.terminal_meta.item_metas@)
                            == terminal::metas_view(before.terminal_meta.item_metas@)
                    } else {
                        &&& write is None
                        &&& after.response_chunks@ == before.response_chunks@ + payload@
                        &&& terminal::metas_view(after.terminal_meta.item_metas@) == (match f.meta {
                            None => terminal::metas_view(before.terminal_meta.item_metas@),
                            Some(m) => terminal::metas_view(
                                before.terminal_meta.item_metas@,
                            ).push(m@),
                        })
                    },
                }
            }
        },
        FrameType::Credit => {
            &&& after.timer == before.timer
            &&& step == (if before.credit is Some {
                CollectStep::RouteCredit
            } else {
                CollectStep::ReadOn
            })
        },
        FrameType::End => {
            &&& f.exit_code == Some(0i64)
            &&& after.timer == before.timer
            &&& step matches CollectStep::Finished { write, close_sink, progress, message } && {
                &&& close_sink == on_disk(before.sink)
                &&& progress == terminal::final_progress_bits(f)
                &&& message@ == terminal::final_message_text(f)
                &&& match f.payload {
                    None => write is None && after.response_chunks@ == before.response_chunks@,
                    Some(payload) => if on_disk(before.sink) {
                        &&& after.response_chunks@ == before.response_chunks@
                        &&& if payload@.len() > 0 {
                            writes_frame(write, f)
                        } else {
                            write is None
                        }
                    } else {
                        &&& write is None
                        &&& after.response_chunks@ == before.response_chunks@ + payload@
                    },
                }
            }
        },
        FrameType::Error => false,
        FrameType::Log => {
            &&& f.level is Some
            &&& after.timer == stream_io::timer_after_log(before.timer, f.level->Some_0@, now)
            &&& match terminal::log_content(f, before.cap_urn@) {
                Err(_) => false,
                Ok(terminal::LogContent::Progress(bits, message)) => {
                    step matches CollectStep::Progress { bits: b, message: m } && b == bits && m@
                        == message
                },
                Ok(content) => step matches CollectStep::Log(record) && record@
                    == terminal::diagnostic(
                    before.step_token_id@,
                    before.cap_urn@,
                    before.body_index,
                    content,
                ),
            }
        },
        FrameType::StreamStart => {
            &&& after.timer == stream_io::timer_touched(before.timer, now)
            &&& stream_io::frame_audit_outcome(before.effect_audit, f) is Ok
            &&& sink_for(before.sink, frame::declares_unbounded(f)) == Some(after.sink)
            &&& after.is_sequence == (if f.is_sequence is Some {
                f.is_sequence
            } else {
                before.is_sequence
            })
            &&& if on_disk(after.sink) {
                &&& step matches CollectStep::OpenSink { is_sequence, media_urn, meta, stream_id } && {
                    &&& is_sequence == after.is_sequence
                    &&& media_urn@ == (match f.media_urn {
                        Some(m) => m@,
                        None => Seq::<char>::empty(),
                    })
                    &&& frame::meta_view(meta) == frame::meta_view(f.meta)
                    &&& stream_id == f.stream_id
                }
                &&& after.terminal_meta.stream_meta == before.terminal_meta.stream_meta
            } else {
                &&& step is ReadOn
                &&& frame::meta_view(after.terminal_meta.stream_meta) == frame::meta_view(f.meta)
            }
        },
        _ => {
            &&& after.timer == before.timer
            &&& step is ReadOn
        },
    }
}

/// The failure that a frame is, where it is one.
pub open spec fn collect_fault(c: TerminalCollector, f: Frame, failure: CollectFailure) -> bool {
    match f.frame_type {
        FrameType::End => {
            let details = unsuccessful_end(f.exit_code);
            &&& f.exit_code != Some(0i64)
            &&& failure.error@ == terminal::engine_failure(c.cap_urn@, details)
            &&& failure.log matches Some(record) && record@ == failure_entry(
                c,
                AttributionClass::Internal,
                details,
                None,
            )
        },
        FrameType::Error => {
            &&& failure.error@ == terminal::declared_failure(f, c.cap_urn@)
            &&& match failure.error@ {
                stream_io::StreamFault::Terminal(_, _, class, details, arg) => {
                    failure.log matches Some(record) && record@ == failure_entry(
                        c,
                        class,
                        details,
                        arg,
                    )
                },
                _ => failure.log is None,
            }
        },
        FrameType::Log => {
            &&& failure.log is None
            &&& terminal::log_content(f, c.cap_urn@) == Err::<
                terminal::LogContent,
                stream_io::StreamFault,
            >(failure.error@)
        },
        FrameType::StreamStart => {
            &&& failure.log is None
            &&& match stream_io::frame_audit_outcome(c.effect_audit, f) {
                Err(fault) => failure.error@ == fault,
                Ok(()) => {
                    &&& sink_for(c.sink, frame::declares_unbounded(f)) is None
                    &&& failure.error@ == stream_io::StreamFault::Protocol(
                        unbounded_refusal(c.cap_urn@),
                    )
                },
            }
        },
        _ => false,
    }
}

impl TerminalCollector {
    /// A collector at the start of a response. The terminal cap's emission is
    /// audited against its declared contract at receipt — before the payload
    /// is collected or persisted.
    pub fn new(
        cap_urn: &str,
        contract: OutputContract,
        step_token_id: &StepToken,
        body_index: Option<usize>,
        sink: Sink,
        credit: Option<CreditPlumbing>,
        activity_timeout_secs: u64,
        now: u128,
    ) -> (r: Result<Self, StreamIoError>)
        ensures
            match r {
                Ok(c) => {
                    &&& stream_io::audit_build_fault(cap_urn@) is None
                    &&& c.cap_urn@ == cap_urn@
                    &&& c.step_token_id == *step_token_id
                    &&& c.body_index == body_index
                    &&& stream_io::audits(c.effect_audit, cap_urn@, contract)
                    &&& c.response_chunks@.len() == 0
                    &&& c.is_sequence is None
                    &&& c.terminal_meta.stream_meta is None
                    &&& c.terminal_meta.item_metas@.len() == 0
                    &&& c.credit == credit
                    &&& c.timer == (ActivityTimer {
                        last_activity: now,
                        paused: false,
                        timeout_secs: activity_timeout_secs,
                    })
                    &&& !c.warned
                    &&& c.sink == sink
                },
                Err(e) => stream_io::audit_build_fault(cap_urn@) == Some(e@),
            },
    {
        let effect_audit = match EffectAudit::new(cap_urn, contract) {
            Ok(a) => a,
            Err(e) => {
                return Err(e);
            },
        };
        Ok(
            TerminalCollector {
                cap_urn: cap_urn.to_owned(),
                step_token_id: step_token_id.clone(),
                body_index,
                effect_audit,
                response_chunks: Vec::new(),
                is_sequence: None,
                terminal_meta: TerminalMeta::new(),
                credit,
                timer: ActivityTimer::new(activity_timeout_secs, now),
                warned: false,
                sink,
            },
        )
    }

    fn disk(&self) -> (r: bool)
        ensures
            r == on_disk(self.sink),
    {
        match self.sink {
            Sink::Memory { .. } => false,
            _ => true,
        }
    }

    fn failure_record(
        &self,
        class: AttributionClass,
        message: &str,
        arg_urn: Option<String>,
    ) -> (r: PipelineLogRecord)
        ensures
            r@ == failure_entry(*self, class, message@, text::opt_view(arg_urn)),
    {
        PipelineLogRecord::detailed(
            &self.step_token_id,
            self.cap_urn.as_str(),
            "error",
            class,
            message,
            None,
            self.body_index,
            arg_urn,
        )
    }

    /// Take the next frame of the response.
    pub fn on_frame(&mut self, f: Frame, now: u128) -> (r: Result<CollectStep, CollectFailure>)
        ensures
            match r {
                Ok(step) => collect_step(*old(self), *final(self), f, now, step),
                Err(failure) => same_request(*old(self), *final(self)) && collect_fault(
                    *old(self),
                    f,
                    failure,
                ),
            },
    {
        // Re-arm the warn-once gate for any subsequent silence.
        self.warned = false;
        match f.frame_type {
            FrameType::Chunk => {
                self.timer.touch(now);
                let mut write: Option<SinkWrite> = None;
                let disk: bool = self.disk();
                match f.payload {
                    Some(payload) => {
                        if disk {
                            write = Some(SinkWrite { payload, meta: f.meta });
                        } else {
                            let mut payload = payload;
                            self.response_chunks.append(&mut payload);
                            // Each non-None chunk meta marks the first chunk
                            // of a new item.
                            if let Some(meta) = f.meta {
                                let ghost before = terminal::metas_view(
                                    self.terminal_meta.item_metas@,
                                );
                                self.terminal_meta.item_metas.push(meta);
                                assert(terminal::metas_view(self.terminal_meta.item_metas@)
                                    =~= before.push(meta@));
                            }
                        }
                    },
                    None => {},
                }
                // Replenish the producer's window, batched.
                let grant = count_chunk(&mut self.credit, &f.stream_id);
                Ok(CollectStep::Consumed { write, grant })
            },
            FrameType::Credit => {
                if self.credit.is_some() {
                    Ok(CollectStep::RouteCredit)
                } else {
                    Ok(CollectStep::ReadOn)
                }
            },
            FrameType::End => {
                // exit_code: 0 = success, absent or non-zero = failure.
                // Absence means the cartridge died and the relay synthesized a
                // bare END.
                let success: bool = match f.exit_code {
                    Some(code) => code == 0,
                    None => false,
                };
                if !success {
                    let detail = match f.exit_code {
                        Some(code) => "exit_code=".to_owned().concat(decimal_i64(code).as_str()),
                        None => "exit_code absent (cartridge likely crashed)".to_owned(),
                    };
                    let details = "END without success: ".to_owned().concat(detail.as_str());
                    let log = self.failure_record(
                        AttributionClass::Internal,
                        details.as_str(),
                        None,
                    );
                    return Err(
                        CollectFailure {
                            log: Some(log),
                            error: engine_error(self.cap_urn.as_str(), details),
                        },
                    );
                }
                // Terminal metadata IS the final progress event: delivering it
                // from the terminal frame itself makes it un-raceable.
                let (progress, message) = final_event(&f);
                let mut write: Option<SinkWrite> = None;
                let disk: bool = self.disk();
                match f.payload {
                    Some(payload) => {
                        if disk {
                            if payload.len() > 0 {
                                write = Some(SinkWrite { payload, meta: f.meta });
                            }
                        } else {
                            let mut payload = payload;
                            self.response_chunks.append(&mut payload);
                        }
                    },
                    None => {},
                }
                Ok(CollectStep::Finished { write, close_sink: disk, progress, message })
            },
            FrameType::Error => {
                let error = read_err(&f, self.cap_urn.as_str());
                let log = match &error {
                    StreamIoError::Terminal { class, details, arg_urn, .. } => Some(
                        self.failure_record(*class, details.as_str(), clone_opt(arg_urn)),
                    ),
                    _ => None,
                };
                Err(CollectFailure { log, error })
            },
            FrameType::Log => {
                if let Some(level) = &f.level {
                    self.timer.handle_log_level(level.as_str(), now);
                }
                match read_log(&f, self.cap_urn.as_str()) {
                    Err(error) => Err(CollectFailure { log: None, error }),
                    Ok(LogReading::Progress { bits, message }) => Ok(
                        CollectStep::Progress { bits, message },
                    ),
                    Ok(LogReading::Diagnostic { level, class, message, meta, arg_urn }) => Ok(
                        CollectStep::Log(
                            PipelineLogRecord::detailed(
                                &self.step_token_id,
                                self.cap_urn.as_str(),
                                level.as_str(),
                                class,
                                message.as_str(),
                                meta,
                                self.body_index,
                                arg_urn,
                            ),
                        ),
                    ),
                }
            },
            FrameType::StreamStart => {
                self.timer.touch(now);
                // The emission must satisfy the cap's declared effect and
                // declared shape before a single byte of it is collected or
                // persisted.
                match self.effect_audit.audit_frame(&f) {
                    Err(error) => {
                        return Err(CollectFailure { log: None, error });
                    },
                    Ok(()) => {},
                }
                let unbounded: bool = f.is_unbounded();
                match self.sink {
                    Sink::Memory { spool_available } => {
                        if unbounded {
                            if !spool_available {
                                return Err(
                                    CollectFailure {
                                        log: None,
                                        error: StreamIoError::Protocol(
                                            "cap '".to_owned().concat(
                                                self.cap_urn.as_str(),
                                            ).concat(
                                                "' terminal declared an UNBOUNDED stream but the sink is not persisted — unbounded terminals require incremental consumption (a persisted sink / IncrementalWriter, or TerminalOutput), never a buffering collector (L16)",
                                            ),
                                        ),
                                    },
                                );
                            }
                            self.sink = Sink::Spool;
                        }
                    },
                    _ => {},
                }
                if f.is_sequence.is_some() {
                    self.is_sequence = f.is_sequence;
                }
                if self.disk() {
                    let media_urn = match f.media_urn {
                        Some(m) => m,
                        None => String::new(),
                    };
                    Ok(
                        CollectStep::OpenSink {
                            is_sequence: self.is_sequence,
                            media_urn,
                            meta: f.meta,
                            stream_id: f.stream_id,
                        },
                    )
                } else {
                    // Stream-level meta for ForEach propagation.
                    self.terminal_meta.stream_meta = f.meta;
                    Ok(CollectStep::ReadOn)
                }
            },
            _ => Ok(CollectStep::ReadOn),
        }
    }

    /// A frame that was queued behind END. LOG diagnostics are delivered, not
    /// lost; stale progress never reaches the progress callback; anything else
    /// is moot by protocol.
    pub fn on_late_frame(&self, f: Frame) -> (r: Result<Option<PipelineLogRecord>, StreamIoError>)
        ensures
            late_outcome(*self, f, r),
    {
        if f.frame_type != FrameType::Log {
            return Ok(None);
        }
        match f.progress {
            ProgressSlot::Number(_) => {
                return Ok(None);
            },
            _ => {},
        }
        let level = match &f.level {
            Some(level) => level,
            None => {
                return Err(
                    StreamIoError::Protocol("LOG frame missing required text level".to_owned()),
                );
            },
        };
        let message = match &f.message {
            Some(message) => message,
            None => {
                return Err(
                    StreamIoError::Protocol("LOG frame missing required text message".to_owned()),
                );
            },
        };
        let class = match &f.attribution {
            Ok(class) => *class,
            Err(why) => {
                return Err(StreamIoError::Protocol(why.clone()));
            },
        };
        let arg_urn = match &f.attributed_arg {
            Ok(arg) => clone_opt(arg),
            Err(why) => {
                return Err(StreamIoError::Protocol(why.clone()));
            },
        };
        Ok(
            Some(
                PipelineLogRecord::detailed(
                    &self.step_token_id,
                    self.cap_urn.as_str(),
                    level.as_str(),
                    class,
                    message.as_str(),
                    clone_meta(&f.meta),
                    self.body_index,
                    arg_urn,
                ),
            ),
        )
    }

    /// The response channel closed without END.
    pub fn on_closed(&self) -> (failure: CollectFailure)
        ensures
            failure.error@ == terminal::engine_failure(
                self.cap_urn@,
                "response channel closed without END"@,
            ),
            failure.log matches Some(record) && record@ == failure_entry(
                *self,
                AttributionClass::Internal,
                "response channel closed without END"@,
                None,
            ),
    {
        let details = "response channel closed without END".to_owned();
        CollectFailure {
            log: Some(self.failure_record(AttributionClass::Internal, details.as_str(), None)),
            error: engine_error(self.cap_urn.as_str(), details),
        }
    }

    /// The producer is quiet: flush what is held back — it may be stalled
    /// waiting for exactly this credit — and, once the silence exceeds the
    /// activity timeout, warn once, with the credit counters behind the flush.
    pub fn on_quiet(&mut self, now: u128) -> (r: (
        Vec<CreditGrant>,
        Option<PipelineLogRecord>,
    ))
        ensures
            terminal::flushed(old(self).credit, final(self).credit, r.0@),
            *final(self) == (TerminalCollector {
                credit: final(self).credit,
                warned: old(self).warned || stream_io::timer_expired(old(self).timer, now),
                ..*old(self)
            }),
            match r.1 {
                None => old(self).warned || !stream_io::timer_expired(old(self).timer, now),
                Some(record) => {
                    &&& !old(self).warned
                    &&& stream_io::timer_expired(old(self).timer, now)
                    &&& record@ == stream_io::cap_diagnostic(
                        old(self).step_token_id@,
                        old(self).cap_urn@,
                        "warn"@,
                        AttributionClass::Internal,
                        silence_text(
                            old(self).timer.timeout_secs,
                            old(self).response_chunks@.len(),
                            final(self).credit,
                        ),
                        None,
                        old(self).body_index,
                        None,
                    )
                },
            },
    {
        let grants = flush_all(&mut self.credit);
        let mut warning: Option<PipelineLogRecord> = None;
        if self.timer.is_expired(now) && !self.warned {
            let pending = match &self.credit {
                Some(c) => c.describe(),
                None => String::new(),
            };
            let details = "no activity for ".to_owned().concat(
                decimal_u64(self.timer.timeout_secs).as_str(),
            ).concat(
                "s — continuing to wait. Use Cancel to abort. Terminal credit state: consumed_bytes=",
            ).concat(decimal_usize(self.response_chunks.len()).as_str()).concat(" [").concat(
                pending.as_str(),
            ).concat("]");
            warning = Some(
                PipelineLogRecord::detailed(
                    &self.step_token_id,
                    self.cap_urn.as_str(),
                    "warn",
                    AttributionClass::Internal,
                    details.as_str(),
                    None,
                    self.body_index,
                    None,
                ),
            );
            self.warned = true;
        }
        (grants, warning)
    }
}

/// How prolonged silence reads.
pub open spec fn silence_text(
    timeout_secs: u64,
    consumed: nat,
    counters: Option<CreditPlumbing>,
) -> Seq<char> {
    let pending = match counters {
        Some(c) => text::join_text(credit::counter_texts(c), "; "@),
        None => Seq::empty(),
    };
    "no activity for "@ + text::decimal(timeout_secs as nat)
        + "s — continuing to wait. Use Cancel to abort. Terminal credit state: consumed_bytes="@
        + text::decimal(consumed) + " ["@ + pending + "]"@
}

/// What a frame behind END comes to.
pub open spec fn late_outcome(
    c: TerminalCollector,
    f: Frame,
    r: Result<Option<PipelineLogRecord>, StreamIoError>,
) -> bool {
    if f.frame_type != FrameType::Log || f.progress is Number {
        r == Ok::<Option<PipelineLogRecord>, StreamIoError>(None)
    } else {
        match (f.level, f.message, f.attribution, f.attributed_arg) {
            (None, _, _, _) => r matches Err(e) && e@ == stream_io::StreamFault::Protocol(
                "LOG frame missing required text level"@,
            ),
            (_, None, _, _) => r matches Err(e) && e@ == stream_io::StreamFault::Protocol(
                "LOG frame missing required text message"@,
            ),
            (_, _, Err(why), _) => r matches Err(e) && e@ == stream_io::StreamFault::Protocol(
                why@,
            ),
            (_, _, _, Err(why)) => r matches Err(e) && e@ == stream_io::StreamFault::Protocol(
                why@,
            ),
            (Some(level), Some(message), Ok(class), Ok(arg)) => {
                &&& r is Ok
                &&& r->Ok_0 is Some
                &&& r->Ok_0->Some_0@ == stream_io::cap_diagnostic(
                    c.step_token_id@,
                    c.cap_urn@,
                    level@,
                    class,
                    message@,
                    frame::meta_view(f.meta),
                    c.body_index,
                    text::opt_view(arg),
                )
            },
        }
    }
}

// ---------------------------------------------------------------------------
// Laws
// ---------------------------------------------------------------------------
/// Unbounded data never accumulates in memory: behind the STREAM_START of an
/// unbounded stream the sink is on disk, and stays there.
pub proof fn unbounded_streams_go_to_disk(
    before: TerminalCollector,
    after: TerminalCollector,
    f: Frame,
    now: u128,
    step: CollectStep,
)
    requires
        collect_step(before, after, f, now, step),
    ensures
        f.frame_type == FrameType::StreamStart && frame::declares_unbounded(f) ==> on_disk(
            after.sink,
        ),
        on_disk(before.sink) ==> on_disk(after.sink),
        on_disk(before.sink) ==> after.response_chunks@ == before.response_chunks@,
{
}

/// What a frame adds to an output that is collected in memory: the payload of a
/// chunk or of the end.
pub open spec fn brought(f: Frame) -> Seq<u8> {
    if (f.frame_type == FrameType::Chunk || f.frame_type == FrameType::End) && f.payload is Some {
        f.payload->0@
    } else {
        Seq::empty()
    }
}

/// The output collected in memory is what the frames brought, end to end: no
/// payload is lost, repeated or put out of order.
pub proof fn output_is_what_the_frames_brought(
    states: Seq<TerminalCollector>,
    frames: Seq<Frame>,
    times: Seq<u128>,
    steps: Seq<CollectStep>,
)
    requires
        states.len() == frames.len() + 1,
        times.len() == frames.len(),
        steps.len() == frames.len(),
        forall|i: int|
            #![trigger frames[i]]
            0 <= i < frames.len() ==> collect_step(
                states[i],
                states[i + 1],
                frames[i],
                times[i],
                steps[i],
            ) && !on_disk(states[i].sink),
    ensures
        states.last().response_chunks@ == states[0].response_chunks@ + Seq::new(
            frames.len(),
            |i: int| brought(frames[i]),
        ).flatten(),
    decreases frames.len(),
{
    let each = Seq::new(frames.len(), |i: int| brought(frames[i]));
    each.lemma_flatten_and_flatten_alt_are_equivalent();
    if frames.len() > 0 {
        let n = frames.len() - 1;
        let short = frames.drop_last();
        let s = states.drop_last();
        assert forall|i: int|
            #![trigger short[i]]
            0 <= i < short.len() implies collect_step(
            s[i],
            s[i + 1],
            short[i],
            times.drop_last()[i],
            steps.drop_last()[i],
        ) && !on_disk(s[i].sink) by {
            assert(frames[i] == short[i]);
        }
        output_is_what_the_frames_brought(s, short, times.drop_last(), steps.drop_last());
        let before = Seq::new(short.len(), |i: int| brought(short[i]));
        before.lemma_flatten_and_flatten_alt_are_equivalent();
        assert(each.drop_last() =~= before);
        assert(frames[n] == frames.last());
        assert(states[n + 1] == states.last());
        assert(states.last().response_chunks@ =~= s.last().response_chunks@ + brought(
            frames.last(),
        ));
        assert(s.last().response_chunks@ + brought(frames.last()) =~= states[0].response_chunks@
            + each.flatten());
    } else {
        assert(states[0].response_chunks@ + each.flatten() =~= states[0].response_chunks@);
    }
}

/// A payload that arrives while the sink is on disk is handed on to be written,
/// as it came and with its metadata, and none is kept in memory.
pub proof fn a_persisted_payload_is_handed_on(
    before: TerminalCollector,
    after: TerminalCollector,
    f: Frame,
    now: u128,
    step: CollectStep,
)
    requires
        collect_step(before, after, f, now, step),
        on_disk(before.sink),
        f.frame_type == FrameType::Chunk,
        f.payload is Some,
    ensures
        step is Consumed,
        step->Consumed_write is Some,
        step->Consumed_write->0.payload@ == f.payload->0@,
        frame::meta_view(step->Consumed_write->0.meta) == frame::meta_view(f.meta),
        after.response_chunks@ == before.response_chunks@,
{
}

/// A request ends well only on an END that says so, and an END that says so ends
/// it well.
pub proof fn only_a_successful_end_finishes(
    before: TerminalCollector,
    after: TerminalCollector,
    f: Frame,
    now: u128,
    step: CollectStep,
    failure: CollectFailure,
)
    ensures
        collect_step(before, after, f, now, step) && step is Finished ==> f.frame_type
            == FrameType::End && f.exit_code == Some(0i64),
        collect_step(before, after, f, now, step) && f.frame_type == FrameType::End
            ==> step is Finished && f.exit_code == Some(0i64),
        collect_fault(before, f, failure) && f.frame_type == FrameType::End ==> f.exit_code
            != Some(0i64),
        f.frame_type == FrameType::Error ==> !collect_step(before, after, f, now, step),
        f.frame_type == FrameType::Chunk ==> !collect_fault(before, f, failure),
{
}

/// Whether a stream is a sequence is what its STREAM_START says, and stays so
/// until another one says otherwise.
pub proof fn a_start_states_the_cardinality(
    before: TerminalCollector,
    after: TerminalCollector,
    f: Frame,
    now: u128,
    step: CollectStep,
)
    requires
        collect_step(before, after, f, now, step),
    ensures
        f.frame_type == FrameType::StreamStart && f.is_sequence is Some ==> after.is_sequence
            == f.is_sequence,
        f.frame_type != FrameType::StreamStart || f.is_sequence is None ==> after.is_sequence
            == before.is_sequence,
        f.frame_type == FrameType::StreamStart && !frame::declares_unbounded(f) ==> on_disk(
            after.sink,
        ) == on_disk(before.sink),
{
}

} // verus!
