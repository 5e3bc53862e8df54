//! Shared stream I/O decisions for cap execution: stream errors, the audit of
//! emissions against declared contracts, activity tracking and diagnostics.
//!
//! The key invariant: node data between caps is stored as raw bytes
//! (unwrapped from CBOR transport). Sequence-mode output is stored
//! as an RFC 8742 CBOR sequence where each item's CBOR Bytes/Text
//! wrapper has been unwrapped to raw bytes, then re-encoded as
//! CBOR Bytes for self-delimiting boundaries.

use crate::executor_error;
use crate::executor_error::effect_violation_message;
use crate::failure::AttributionClass;
use crate::frame;
use crate::frame::{Frame, StreamMeta};
use crate::plan::StepToken;
use crate::text;
use crate::text::{bool_str, decimal_usize, same};
use crate::urn;
use crate::urn::{CapUrn, MediaUrn, TagMap};
use vstd::prelude::*;
use vstd::string::*;

verus! {

// ---------------------------------------------------------------------------
// Errors
// ---------------------------------------------------------------------------
/// Why a stream failed.
#[derive(Debug)]
pub enum StreamIoError {
    Transport(String),
    CborEncode(String),
    CborDecode(String),
    Protocol(String),
    UnexpectedCborType { index: usize, description: String },
    /// Cap-level failure: the cartridge returned END without success, ERR frame,
    /// or the response channel closed without an END. `cap_urn` identifies the
    /// failing cap; `details` carries the cartridge's error message or the
    /// protocol violation detail. `code` and `class` carry the failure identity
    /// DECLARED at the emit source: the ERR frame's code + class when one
    /// arrived, `None` + `Internal` for engine-detected protocol violations.
    /// `arg_urn` is the emit source's argument attribution — the ERR frame's
    /// when it carried one, `None` otherwise (never inferred here).
    Terminal {
        cap_urn: String,
        code: Option<String>,
        class: AttributionClass,
        details: String,
        arg_urn: Option<String>,
    },
    /// Writer failure while persisting chunk data.
    Writer(String),
    /// A cap emitted an output STREAM_START whose media URN violates its
    /// declared effect contract. The plan was built on the effect promise, so
    /// a violating emission fails hard at receipt, before any relabel or
    /// forward can mask it.
    EffectContract {
        cap_urn: String,
        effect: String,
        runtime_input: String,
        expected: String,
        actual: String,
    },
    /// A cap emitted an output STREAM_START whose shape violates its declared
    /// stream contract: it opened an UNBOUNDED stream from an output declared
    /// `streaming: false`, or it emitted in a cardinality mode other than the
    /// declared `is_sequence`.
    StreamContract {
        cap_urn: String,
        declared_is_sequence: bool,
        declared_streaming: bool,
        emitted_is_sequence: bool,
        emitted_unbounded: bool,
    },
}

/// The contents of a `StreamIoError`.
pub ghost enum StreamFault {
    Transport(Seq<char>),
    CborEncode(Seq<char>),
    CborDecode(Seq<char>),
    Protocol(Seq<char>),
    UnexpectedCborType(nat, Seq<char>),
    Terminal(Seq<char>, Option<Seq<char>>, AttributionClass, Seq<char>, Option<Seq<char>>),
    Writer(Seq<char>),
    EffectContract(Seq<char>, Seq<char>, Seq<char>, Seq<char>, Seq<char>),
    StreamContract(Seq<char>, bool, bool, bool, bool),
}

impl View for StreamIoError {
    type V = StreamFault;

    open spec fn view(&self) -> StreamFault {
        match *self {
            StreamIoError::Transport(s) => StreamFault::Transport(s@),
            StreamIoError::CborEncode(s) => StreamFault::CborEncode(s@),
            StreamIoError::CborDecode(s) => StreamFault::CborDecode(s@),
            StreamIoError::Protocol(s) => StreamFault::Protocol(s@),
            StreamIoError::UnexpectedCborType { index, description } => {
                StreamFault::UnexpectedCborType(index as nat, description@)
            },
            StreamIoError::Terminal { cap_urn, code, class, details, arg_urn } => {
                StreamFault::Terminal(
                    cap_urn@,
                    text::opt_view(code),
                    class,
                    details@,
                    text::opt_view(arg_urn),
                )
            },
            StreamIoError::Writer(s) => StreamFault::Writer(s@),
            StreamIoError::EffectContract { cap_urn, effect, runtime_input, expected, actual } => {
                StreamFault::EffectContract(
                    cap_urn@,
                    effect@,
                    runtime_input@,
                    expected@,
                    actual@,
                )
            },
            StreamIoError::StreamContract {
                cap_urn,
                declared_is_sequence,
                declared_streaming,
                emitted_is_sequence,
                emitted_unbounded,
            } => StreamFault::StreamContract(
                cap_urn@,
                declared_is_sequence,
                declared_streaming,
                emitted_is_sequence,
                emitted_unbounded,
            ),
        }
    }
}

/// The contents of a stream result.
pub open spec fn stream_result<T>(r: Result<T, StreamIoError>) -> Result<T, StreamFault> {
    match r {
        Ok(v) => Ok(v),
        Err(e) => Err(e@),
    }
}

/// How a stream failure reads.
pub open spec fn stream_fault_text(f: StreamFault) -> Seq<char> {
    match f {
        StreamFault::Transport(s) => "Stream I/O error: "@ + s,
        StreamFault::CborEncode(s) => "CBOR encoding error: "@ + s,
        StreamFault::CborDecode(s) => "CBOR decoding error: "@ + s,
        StreamFault::Protocol(s) => "Protocol error: "@ + s,
        StreamFault::UnexpectedCborType(index, description) => {
            "Protocol error: expected Bytes or Text in CBOR transport at item "@ + text::decimal(index)
                + ", got "@ + description
        },
        StreamFault::Terminal(cap_urn, _, _, details, _) => "Cap '"@ + cap_urn + "' failed: "@
            + details,
        StreamFault::Writer(s) => "Writer error: "@ + s,
        StreamFault::EffectContract(cap_urn, effect, runtime_input, expected, actual) => {
            executor_error::effect_violation_text(cap_urn, effect, runtime_input, expected, actual)
        },
        StreamFault::StreamContract(cap_urn, ds, dt, es, eu) => "Cap '"@ + cap_urn
            + "' violated its stream contract: declared is_sequence="@ + text::bool_text(ds)
            + " streaming="@ + text::bool_text(dt) + ", emitted is_sequence="@ + text::bool_text(es)
            + " unbounded="@ + text::bool_text(eu),
    }
}

impl StreamIoError {
    /// How the error reads.
    pub fn message(&self) -> (r: String)
        ensures
            r@ == stream_fault_text(self@),
    {
        match self {
            StreamIoError::Transport(s) => "Stream I/O error: ".to_owned().concat(s.as_str()),
            StreamIoError::CborEncode(s) => "CBOR encoding error: ".to_owned().concat(s.as_str()),
            StreamIoError::CborDecode(s) => "CBOR decoding error: ".to_owned().concat(s.as_str()),
            StreamIoError::Protocol(s) => "Protocol error: ".to_owned().concat(s.as_str()),
            StreamIoError::UnexpectedCborType { index, description } => {
                "Protocol error: expected Bytes or Text in CBOR transport at item ".to_owned().concat(
                    decimal_usize(*index).as_str(),
                ).concat(", got ").concat(description.as_str())
            },
            StreamIoError::Terminal { cap_urn, details, .. } => "Cap '".to_owned().concat(
                cap_urn.as_str(),
            ).concat("' failed: ").concat(details.as_str()),
            StreamIoError::Writer(s) => "Writer error: ".to_owned().concat(s.as_str()),
            StreamIoError::EffectContract { cap_urn, effect, runtime_input, expected, actual } => {
                effect_violation_message(cap_urn, effect, runtime_input, expected, actual)
            },
            StreamIoError::StreamContract {
                cap_urn,
                declared_is_sequence,
                declared_streaming,
                emitted_is_sequence,
                emitted_unbounded,
            } => "Cap '".to_owned().concat(cap_urn.as_str()).concat(
                "' violated its stream contract: declared is_sequence=",
            ).concat(bool_str(*declared_is_sequence)).concat(" streaming=").concat(
                bool_str(*declared_streaming),
            ).concat(", emitted is_sequence=").concat(bool_str(*emitted_is_sequence)).concat(
                " unbounded=",
            ).concat(bool_str(*emitted_unbounded)),
        }
    }
}

// ---------------------------------------------------------------------------
// Output contract and effect audit
// ---------------------------------------------------------------------------
/// The declared shape of a cap's output stream, carried to the receipt points
/// so every STREAM_START is audited against the definition the plan was built
/// on.
#[derive(Debug, Clone, Copy, PartialEq, Eq, Structural)]
pub struct OutputContract {
    pub is_sequence: bool,
    pub streaming: bool,
}

/// Audits a cap's emitted output STREAM_START media against its declared
/// effect contract, at the frame boundary where the engine receives it.
///
/// The audit base is the cap's declared main-input media URN (`in=`): the
/// orchestrator labels every stream it feeds a cap with the declared arg URN,
/// so that label is the runtime input the cap actually saw and the only
/// basis its emission can honestly be derived from.
pub struct EffectAudit {
    pub cap_urn_str: String,
    pub cap: CapUrn,
    pub runtime_input: MediaUrn,
    /// The declared output shape — audited on the same STREAM_START as the
    /// effect, so a cap lying about boundedness or cardinality fails at the
    /// same boundary as a cap lying about its output type.
    pub contract: OutputContract,
}

/// Whether an emission keeps the effect promise of a capability, or why the
/// question cannot be answered: `effect=none` promises the runtime input's own
/// type, the declared effect a refinement of `out=`.
pub open spec fn effect_kept(cap: TagMap, input: TagMap, emitted: TagMap) -> Result<bool, Seq<char>> {
    let effect = urn::tag_or(cap, "effect"@, "declared"@);
    if effect == "none"@ {
        Ok(emitted == input)
    } else if effect == "declared"@ {
        match urn::media_parsed(urn::tag_or(cap, "out"@, "media:"@)) {
            Ok(out) => Ok(urn::tags_conform(emitted, out)),
            Err(fault) => Err(urn::fault_text(fault)),
        }
    } else {
        Err("unknown effect '"@ + effect + "'"@)
    }
}

/// The media URN that the effect promise leads one to expect.
pub open spec fn effect_expectation(cap: TagMap, input: Seq<char>) -> Seq<char> {
    if urn::tag_or(cap, "effect"@, "declared"@) == "none"@ {
        input
    } else {
        urn::tag_or(cap, "out"@, "media:"@)
    }
}

/// What the audit of an emitted label comes to.
pub open spec fn audit_outcome(a: EffectAudit, emitted: Option<Seq<char>>) -> Result<
    (),
    StreamFault,
> {
    if emitted is None || emitted->Some_0.len() == 0 {
        Err(
            StreamFault::Protocol(
                "cap '"@ + a.cap_urn_str@
                    + "' emitted an output STREAM_START without a media URN label — every output stream must be labeled"@,
            ),
        )
    } else {
        let label = emitted->Some_0;
        match urn::media_parsed(label) {
            Err(fault) => Err(
                StreamFault::Protocol(
                    "cap '"@ + a.cap_urn_str@
                        + "' emitted an output STREAM_START with invalid media URN '"@ + label
                        + "': "@ + urn::fault_text(fault),
                ),
            ),
            Ok(tags) => match effect_kept(a.cap@, a.runtime_input@, tags) {
                Err(why) => Err(
                    StreamFault::Protocol(
                        "effect audit for cap '"@ + a.cap_urn_str@ + "' could not run: "@ + why,
                    ),
                ),
                Ok(kept) => if kept {
                    Ok(())
                } else {
                    Err(
                        StreamFault::EffectContract(
                            a.cap_urn_str@,
                            urn::tag_or(a.cap@, "effect"@, "declared"@),
                            a.runtime_input.text@,
                            effect_expectation(a.cap@, a.runtime_input.text@),
                            label,
                        ),
                    )
                },
            },
        }
    }
}

/// The cardinality mode that an emission is in: an emission that does not state
/// one is an empty stream and cannot lie about it.
pub open spec fn emitted_sequence(contract: OutputContract, stated: Option<bool>) -> bool {
    match stated {
        Some(b) => b,
        None => contract.is_sequence,
    }
}

/// What the audit of an emitted STREAM_START comes to. The effect is checked
/// first: an emission of the wrong TYPE is the graver lie.
pub open spec fn frame_audit_outcome(a: EffectAudit, f: Frame) -> Result<(), StreamFault> {
    match audit_outcome(a, text::opt_view(f.media_urn)) {
        Err(fault) => Err(fault),
        Ok(()) => {
            let sequence = emitted_sequence(a.contract, f.is_sequence);
            let unbounded = frame::declares_unbounded(f);
            if sequence != a.contract.is_sequence || (unbounded && !a.contract.streaming) {
                Err(
                    StreamFault::StreamContract(
                        a.cap_urn_str@,
                        a.contract.is_sequence,
                        a.contract.streaming,
                        sequence,
                        unbounded,
                    ),
                )
            } else {
                Ok(())
            }
        },
    }
}

/// What building an audit comes to: nothing, or the fault that prevents it.
pub open spec fn audit_build_fault(cap_urn: Seq<char>) -> Option<StreamFault> {
    match urn::cap_parsed(cap_urn) {
        Err(fault) => Some(
            StreamFault::Protocol(
                "effect audit: cap URN '"@ + cap_urn + "' does not parse: "@ + urn::fault_text(fault),
            ),
        ),
        Ok(tags) => match urn::media_parsed(urn::tag_or(tags, "in"@, "media:"@)) {
            Err(fault) => Some(
                StreamFault::Protocol(
                    "effect audit: cap '"@ + cap_urn
                        + "' declared input is not a valid media URN: "@ + urn::fault_text(fault),
                ),
            ),
            Ok(_) => None,
        },
    }
}

/// Whether `a` is the audit of the capability `cap_urn` under `contract`.
pub open spec fn audits(a: EffectAudit, cap_urn: Seq<char>, contract: OutputContract) -> bool {
    &&& a.cap_urn_str@ == cap_urn
    &&& urn::cap_parsed(cap_urn) == Ok::<TagMap, crate::urn::UrnFault>(a.cap@)
    &&& a.runtime_input.text@ == urn::tag_or(a.cap@, "in"@, "media:"@)
    &&& urn::media_parsed(a.runtime_input.text@) == Ok::<TagMap, crate::urn::UrnFault>(a.runtime_input@)
    &&& a.contract == contract
}

impl EffectAudit {
    /// Build the audit for one cap invocation. Fails when the cap URN does
    /// not parse or its declared `in=` is not a valid media URN — engine-side
    /// inconsistencies that must fail hard, not skip the audit.
    pub fn new(cap_urn: &str, contract: OutputContract) -> (r: Result<Self, StreamIoError>)
        ensures
            match r {
                Ok(a) => audit_build_fault(cap_urn@) is None && audits(a, cap_urn@, contract),
                Err(e) => audit_build_fault(cap_urn@) == Some(e@),
            },
    {
        let cap = match CapUrn::from_string(cap_urn) {
            Ok(cap) => cap,
            Err(e) => {
                return Err(
                    StreamIoError::Protocol(
                        "effect audit: cap URN '".to_owned().concat(cap_urn).concat(
                            "' does not parse: ",
                        ).concat(e.detail().as_str()),
                    ),
                );
            },
        };
        let runtime_input = match MediaUrn::from_string(cap.in_spec().as_str()) {
            Ok(urn) => urn,
            Err(e) => {
                return Err(
                    StreamIoError::Protocol(
                        "effect audit: cap '".to_owned().concat(cap_urn).concat(
                            "' declared input is not a valid media URN: ",
                        ).concat(e.detail().as_str()),
                    ),
                );
            },
        };
        Ok(EffectAudit { cap_urn_str: cap_urn.to_owned(), cap, runtime_input, contract })
    }

    /// The declared output contract this audit enforces.
    pub fn contract(&self) -> (r: OutputContract)
        ensures
            r == self.contract,
    {
        self.contract
    }

    /// Audit one emitted output STREAM_START frame — its media label against
    /// the effect contract, its `is_sequence` and `unbounded` flags against
    /// the declared output shape. Both must hold.
    pub fn audit_frame(&self, frame: &Frame) -> (r: Result<(), StreamIoError>)
        ensures
            stream_result(r) == frame_audit_outcome(*self, *frame),
    {
        match &frame.media_urn {
            Some(label) => match self.audit(Some(label.as_str())) {
                Ok(()) => {},
                Err(e) => {
                    return Err(e);
                },
            },
            None => match self.audit(None) {
                Ok(()) => {},
                Err(e) => {
                    return Err(e);
                },
            },
        }
        let emitted_is_sequence: bool = match frame.is_sequence {
            Some(b) => b,
            None => self.contract.is_sequence,
        };
        let emitted_unbounded: bool = frame.is_unbounded();
        let sequence_lie: bool = emitted_is_sequence != self.contract.is_sequence;
        let boundedness_lie: bool = emitted_unbounded && !self.contract.streaming;
        if sequence_lie || boundedness_lie {
            return Err(
                StreamIoError::StreamContract {
                    cap_urn: self.cap_urn_str.clone(),
                    declared_is_sequence: self.contract.is_sequence,
                    declared_streaming: self.contract.streaming,
                    emitted_is_sequence,
                    emitted_unbounded,
                },
            );
        }
        Ok(())
    }

    fn keeps_effect(&self, emitted: &MediaUrn) -> (r: Result<bool, String>)
        ensures
            match r {
                Ok(b) => effect_kept(self.cap@, self.runtime_input@, emitted@) == Ok::<
                    bool,
                    Seq<char>,
                >(b),
                Err(why) => effect_kept(self.cap@, self.runtime_input@, emitted@) == Err::<
                    bool,
                    Seq<char>,
                >(why@),
            },
    {
        let effect = self.cap.effect();
        if same(effect.as_str(), "none") {
            Ok(emitted.is_equivalent(&self.runtime_input))
        } else if same(effect.as_str(), "declared") {
            match MediaUrn::from_string(self.cap.out_spec().as_str()) {
                Ok(out) => Ok(emitted.conforms_to(&out)),
                Err(e) => Err(e.detail()),
            }
        } else {
            Err("unknown effect '".to_owned().concat(effect.as_str()).concat("'"))
        }
    }

    /// Audit one emitted output STREAM_START label. `Ok(())` iff the
    /// emission satisfies the declared effect contract. An unlabeled or
    /// unparseable emission, and an audit that cannot run, are `Protocol`
    /// errors; a clean contract violation is `EffectContract`. Both fail hard.
    pub fn audit(&self, emitted: Option<&str>) -> (r: Result<(), StreamIoError>)
        ensures
            stream_result(r) == audit_outcome(*self, crate::executor_error::opt_str(emitted)),
    {
        let label = match emitted {
            Some(s) => s,
            None => "",
        };
        proof {
            reveal_strlit("");
        }
        if label.is_empty() {
            return Err(
                StreamIoError::Protocol(
                    "cap '".to_owned().concat(self.cap_urn_str.as_str()).concat(
                        "' emitted an output STREAM_START without a media URN label — every output stream must be labeled",
                    ),
                ),
            );
        }
        let emitted_urn = match MediaUrn::from_string(label) {
            Ok(urn) => urn,
            Err(e) => {
                return Err(
                    StreamIoError::Protocol(
                        "cap '".to_owned().concat(self.cap_urn_str.as_str()).concat(
                            "' emitted an output STREAM_START with invalid media URN '",
                        ).concat(label).concat("': ").concat(e.detail().as_str()),
                    ),
                );
            },
        };
        match self.keeps_effect(&emitted_urn) {
            Err(why) => Err(
                StreamIoError::Protocol(
                    "effect audit for cap '".to_owned().concat(self.cap_urn_str.as_str()).concat(
                        "' could not run: ",
                    ).concat(why.as_str()),
                ),
            ),
            Ok(true) => Ok(()),
            Ok(false) => {
                let effect = self.cap.effect();
                let expected = if same(effect.as_str(), "none") {
                    self.runtime_input.text.clone()
                } else {
                    self.cap.out_spec()
                };
                Err(
                    StreamIoError::EffectContract {
                        cap_urn: self.cap_urn_str.clone(),
                        effect,
                        runtime_input: self.runtime_input.text.clone(),
                        expected,
                        actual: label.to_owned(),
                    },
                )
            },
        }
    }
}

/// An emission that passes the audit states no mode but the declared one and is
/// unbounded only where the output is declared streaming.
pub proof fn audited_emission_keeps_the_declared_shape(a: EffectAudit, f: Frame)
    requires
        frame_audit_outcome(a, f) is Ok,
    ensures
        f.is_sequence is Some ==> f.is_sequence == Some(a.contract.is_sequence),
        frame::declares_unbounded(f) ==> a.contract.streaming,
{
}

// ---------------------------------------------------------------------------
// Activity tracking
// ---------------------------------------------------------------------------
/// Pipeline-level stall warning threshold in seconds.
///
/// If no progress LOG frame arrives from ANY body in the entire pipeline
/// for this duration, the runtime emits a one-shot warning and keeps waiting.
/// The pipeline is NOT aborted automatically: cancellation is the user's call.
pub const PIPELINE_STALL_TIMEOUT_SECS: u64 = 120;

/// The nanoseconds of a second.
pub const NANOS_PER_SEC: u128 = 1_000_000_000;

/// Per-cap activity timer.
///
/// Tracks time since the last activity frame from a cap. A "queued" LOG frame
/// pauses the timer (the cartridge has confirmed receipt but is waiting for a
/// handler slot), and any other LOG, progress, or data frame unpauses it and
/// resets the clock. Times are nanoseconds of one monotone clock.
#[derive(Debug, Clone, Copy)]
pub struct ActivityTimer {
    pub last_activity: u128,
    pub paused: bool,
    pub timeout_secs: u64,
}

/// Whether a timer has run out at `now`.
pub open spec fn timer_expired(t: ActivityTimer, now: u128) -> bool {
    !t.paused && now - t.last_activity > t.timeout_secs * NANOS_PER_SEC
}

/// A timer after activity at `now`.
pub open spec fn timer_touched(t: ActivityTimer, now: u128) -> ActivityTimer {
    ActivityTimer { last_activity: now, paused: false, ..t }
}

/// A timer after a LOG frame of the given level at `now`.
pub open spec fn timer_after_log(t: ActivityTimer, level: Seq<char>, now: u128) -> ActivityTimer {
    if level == "queued"@ {
        ActivityTimer { paused: true, ..t }
    } else {
        timer_touched(t, now)
    }
}

impl ActivityTimer {
    /// A running timer, started at `now`.
    pub fn new(timeout_secs: u64, now: u128) -> (t: Self)
        ensures
            t.last_activity == now,
            !t.paused,
            t.timeout_secs == timeout_secs,
    {
        ActivityTimer { last_activity: now, paused: false, timeout_secs }
    }

    /// Record activity and resume if paused.
    pub fn touch(&mut self, now: u128)
        ensures
            *final(self) == timer_touched(*old(self), now),
            final(self).last_activity == now,
            !final(self).paused,
            final(self).timeout_secs == old(self).timeout_secs,
    {
        self.last_activity = now;
        self.paused = false;
    }

    /// Pause the timeout (request is queued, no progress expected).
    pub fn pause(&mut self)
        ensures
            *final(self) == (ActivityTimer { paused: true, ..*old(self) }),
    {
        self.paused = true;
    }

    /// Handle a LOG frame's level:
    /// - `"queued"` → pause (request waiting in cartridge queue)
    /// - anything else → touch (handler active, reset timer)
    pub fn handle_log_level(&mut self, level: &str, now: u128)
        ensures
            *final(self) == timer_after_log(*old(self), level@, now),
            final(self).paused == (level@ == "queued"@),
            final(self).last_activity == (if level@ == "queued"@ {
                old(self).last_activity
            } else {
                now
            }),
            final(self).timeout_secs == old(self).timeout_secs,
    {
        if same(level, "queued") {
            self.pause();
        } else {
            self.touch(now);
        }
    }

    /// Check if the timeout has been exceeded. Returns false when paused.
    pub fn is_expired(&self, now: u128) -> (r: bool)
        ensures
            r == timer_expired(*self, now),
            r <==> !self.paused && now > self.last_activity + self.timeout_secs * 1_000_000_000,
    {
        let elapsed: u128 = if now > self.last_activity {
            now - self.last_activity
        } else {
            0
        };
        assert(self.timeout_secs * NANOS_PER_SEC <= 0xFFFF_FFFF_FFFF_FFFF * 1_000_000_000) by (nonlinear_arith)
            requires
                self.timeout_secs <= 0xFFFF_FFFF_FFFF_FFFF,
                NANOS_PER_SEC == 1_000_000_000,
        ;
        let limit: u128 = self.timeout_secs as u128 * NANOS_PER_SEC;
        !self.paused && elapsed > limit
    }
}

/// Pipeline-level stall detection: the time of the last progress event in
/// milliseconds of one monotone clock.
#[derive(Debug, Clone, Copy)]
pub struct PipelineProgressTracker {
    pub last_progress_ms: u64,
}

impl PipelineProgressTracker {
    /// A tracker that starts at `now_ms`.
    pub fn new(now_ms: u64) -> (t: Self)
        ensures
            t.last_progress_ms == now_ms,
    {
        PipelineProgressTracker { last_progress_ms: now_ms }
    }

    /// Record that progress was observed.
    pub fn touch(&mut self, now_ms: u64)
        ensures
            final(self).last_progress_ms == now_ms,
    {
        self.last_progress_ms = now_ms;
    }

    /// Check if the stall timeout has been exceeded.
    pub fn is_stalled(&self, now_ms: u64) -> (r: bool)
        ensures
            r == (now_ms - self.last_progress_ms > PIPELINE_STALL_TIMEOUT_SECS * 1000),
    {
        let quiet: u64 = if now_ms > self.last_progress_ms {
            now_ms - self.last_progress_ms
        } else {
            0
        };
        quiet > PIPELINE_STALL_TIMEOUT_SECS * 1000
    }
}

// ---------------------------------------------------------------------------
// Diagnostics
// ---------------------------------------------------------------------------
/// One transient, non-progress diagnostic emitted while a pipeline is live.
/// The stable step token is the graph address; `body_index` only identifies a
/// ForEach item within that step and is never used as a node address.
#[derive(Debug)]
pub struct PipelineLogRecord {
    pub step_token_id: Option<StepToken>,
    pub cap_urn: Option<String>,
    pub level: String,
    pub attribution_class: AttributionClass,
    pub message: String,
    pub meta: Option<StreamMeta>,
    pub body_index: Option<usize>,
    pub arg_urn: Option<String>,
}

/// The contents of a `PipelineLogRecord`.
pub ghost struct LogEntry {
    pub step: Option<Seq<char>>,
    pub cap_urn: Option<Seq<char>>,
    pub level: Seq<char>,
    pub class: AttributionClass,
    pub message: Seq<char>,
    pub meta: Option<Seq<u8>>,
    pub body_index: Option<usize>,
    pub arg_urn: Option<Seq<char>>,
}

impl View for PipelineLogRecord {
    type V = LogEntry;

    open spec fn view(&self) -> LogEntry {
        LogEntry {
            step: text::opt_view(self.step_token_id),
            cap_urn: text::opt_view(self.cap_urn),
            level: self.level@,
            class: self.attribution_class,
            message: self.message@,
            meta: crate::frame::meta_view(self.meta),
            body_index: self.body_index,
            arg_urn: text::opt_view(self.arg_urn),
        }
    }
}

/// A diagnostic of a step's capability.
pub open spec fn cap_diagnostic(
    step: Seq<char>,
    cap_urn: Seq<char>,
    level: Seq<char>,
    class: AttributionClass,
    message: Seq<char>,
    meta: Option<Seq<u8>>,
    body_index: Option<usize>,
    arg_urn: Option<Seq<char>>,
) -> LogEntry {
    LogEntry {
        step: Some(step),
        cap_urn: Some(cap_urn),
        level,
        class,
        message,
        meta,
        body_index,
        arg_urn,
    }
}

impl PipelineLogRecord {
    /// A diagnostic of a step's capability that carries no metadata, body or
    /// argument.
    pub fn attributed(
        step_token_id: &StepToken,
        cap_urn: &str,
        level: &str,
        attribution_class: AttributionClass,
        message: &str,
    ) -> (r: Self)
        ensures
            r@ == cap_diagnostic(
                step_token_id@,
                cap_urn@,
                level@,
                attribution_class,
                message@,
                None,
                None,
                None,
            ),
            r.step_token_id is Some && r.step_token_id->0@ == step_token_id@,
            r.cap_urn is Some && r.cap_urn->0@ == cap_urn@,
            r.level@ == level@,
            r.attribution_class == attribution_class,
            r.message@ == message@,
            r.meta is None,
            r.body_index is None,
            r.arg_urn is None,
    {
        PipelineLogRecord {
            step_token_id: Some(step_token_id.clone()),
            cap_urn: Some(cap_urn.to_owned()),
            level: level.to_owned(),
            attribution_class,
            message: message.to_owned(),
            meta: None,
            body_index: None,
            arg_urn: None,
        }
    }

    /// A diagnostic of a step's capability with everything it carries.
    pub fn detailed(
        step_token_id: &StepToken,
        cap_urn: &str,
        level: &str,
        attribution_class: AttributionClass,
        message: &str,
        meta: Option<StreamMeta>,
        body_index: Option<usize>,
        arg_urn: Option<String>,
    ) -> (r: Self)
        ensures
            r@ == cap_diagnostic(
                step_token_id@,
                cap_urn@,
                level@,
                attribution_class,
                message@,
                crate::frame::meta_view(meta),
                body_index,
                text::opt_view(arg_urn),
            ),
            r.step_token_id is Some && r.step_token_id->0@ == step_token_id@,
            r.cap_urn is Some && r.cap_urn->0@ == cap_urn@,
            r.level@ == level@,
            r.attribution_class == attribution_class,
            r.message@ == message@,
            r.meta == meta,
            r.body_index == body_index,
            r.arg_urn == arg_urn,
    {
        let mut record = PipelineLogRecord::attributed(
            step_token_id,
            cap_urn,
            level,
            attribution_class,
            message,
        );
        record.meta = meta;
        record.body_index = body_index;
        record.arg_urn = arg_urn;
        record
    }
}

/// A labeled emission passes the audit exactly if the cap's effect admits its
/// type: under `none` the input's own type, under `declared` one that conforms
/// to the cap's output. Any other effect admits nothing, and neither does an
/// emission without a valid label pass.
pub proof fn only_declared_emissions_pass(a: EffectAudit, emitted: Option<Seq<char>>)
    ensures
        audit_outcome(a, emitted) is Ok ==> emitted is Some && emitted->0.len() > 0
            && urn::media_parsed(emitted->0) is Ok,
        ({
            let effect = if a.cap@.contains_key("effect"@) && a.cap@["effect"@] is Some {
                a.cap@["effect"@]->Some_0
            } else {
                "declared"@
            };
            let out = urn::media_parsed(
                if a.cap@.contains_key("out"@) && a.cap@["out"@] is Some {
                    a.cap@["out"@]->Some_0
                } else {
                    "media:"@
                },
            );
            let label = urn::media_parsed(emitted->0);
            emitted is Some && emitted->0.len() > 0 && label is Ok ==> {
                &&& effect == "none"@ ==> (audit_outcome(a, emitted) is Ok <==> label->Ok_0
                    == a.runtime_input@)
                &&& effect == "declared"@ && effect != "none"@ ==> (audit_outcome(
                    a,
                    emitted,
                ) is Ok <==> out is Ok && urn::tags_conform(label->Ok_0, out->Ok_0))
                &&& effect != "declared"@ && effect != "none"@ ==> audit_outcome(a, emitted) is Err
            }
        }),
{
}

/// A labeled emission is accepted exactly if it is what the cap declares: a
/// sequence or not, and unbounded only where the cap may stream. A start that
/// does not say whether it is a sequence is taken as declared.
pub proof fn only_the_declared_shape_is_accepted(a: EffectAudit, f: Frame)
    requires
        audit_outcome(a, text::opt_view(f.media_urn)) is Ok,
    ensures
        frame_audit_outcome(a, f) is Ok <==> (f.is_sequence is None || f.is_sequence == Some(
            a.contract.is_sequence,
        )) && (frame::declares_unbounded(f) ==> a.contract.streaming),
{
}

} // verus!
