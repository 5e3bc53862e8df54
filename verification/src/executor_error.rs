//! Failures of plan execution.

use crate::failure::AttributionClass;
use crate::plan::StepToken;
use vstd::prelude::*;
use vstd::string::*;

verus! {

/// Why an execution failed.
#[derive(Debug)]
pub enum ExecutionError {
    /// An execution failure attributed to the exact immutable strand step.
    StepFailed { step_token_id: StepToken, source: Box<ExecutionError> },
    CartridgeNotFound { cap_urn: String },
    CartridgeDownloadFailed(String),
    /// A cap invocation failed. `code`/`class` carry the failure identity
    /// DECLARED at the emit source — read from the ERR frame, never re-derived
    /// from message text. Engine-detected failures carry `None` + `Internal`.
    /// `arg_urn` is the emit source's argument attribution (the media URN of
    /// the ONE argument the failure is about); `None` when the source did not
    /// attribute — never inferred.
    CartridgeExecutionFailed {
        cap_urn: String,
        code: Option<String>,
        class: AttributionClass,
        details: String,
        arg_urn: Option<String>,
    },
    /// A cap emitted an output STREAM_START whose media URN violates its
    /// declared effect contract. The plan's downstream type refinement was
    /// built on that promise, so the violation fails hard at receipt.
    EffectContractViolation {
        cap_urn: String,
        effect: String,
        runtime_input: String,
        expected: String,
        actual: String,
    },
    NoIncomingData { node: String },
    IoError(String),
    HostError(String),
    /// The cartridge that would serve this step left its host's inventory and
    /// did not return within the admission grace window. Its own class because
    /// the deployment changed under a valid request.
    CartridgeUnavailable { cap_urn: String, details: String },
    FabricRegistryError(String),
}

/// The failure itself, without the steps it is attributed to.
pub open spec fn leaf(e: ExecutionError) -> ExecutionError
    decreases e,
{
    match e {
        ExecutionError::StepFailed { source, .. } => leaf(*source),
        other => other,
    }
}

/// The text of a violated effect contract.
pub open spec fn effect_violation_text(
    cap_urn: Seq<char>,
    effect: Seq<char>,
    runtime_input: Seq<char>,
    expected: Seq<char>,
    actual: Seq<char>,
) -> Seq<char> {
    "Cap '"@ + cap_urn + "' violated its effect contract: effect="@ + effect
        + ", runtime input '"@ + runtime_input + "', expected output '"@ + expected
        + "', emitted '"@ + actual + "'"@
}

/// How a failure reads.
pub open spec fn error_text(e: ExecutionError) -> Seq<char>
    decreases e,
{
    match e {
        ExecutionError::StepFailed { step_token_id, source } => "Step "@ + step_token_id@
            + " failed: "@ + error_text(*source),
        ExecutionError::CartridgeNotFound { cap_urn } => "Cartridge not found for cap: "@
            + cap_urn@,
        ExecutionError::CartridgeDownloadFailed(s) => "Cartridge download failed: "@ + s@,
        ExecutionError::CartridgeExecutionFailed { cap_urn, details, .. } => {
            "Cartridge execution failed for cap "@ + cap_urn@ + ": "@ + details@
        },
        ExecutionError::EffectContractViolation {
            cap_urn,
            effect,
            runtime_input,
            expected,
            actual,
        } => effect_violation_text(cap_urn@, effect@, runtime_input@, expected@, actual@),
        ExecutionError::NoIncomingData { node } => "Node "@ + node@ + " has no incoming data"@,
        ExecutionError::IoError(s) => "IO error: "@ + s@,
        ExecutionError::HostError(s) => "Host error: "@ + s@,
        ExecutionError::CartridgeUnavailable { cap_urn, details } => {
            "Cartridge unavailable for cap '"@ + cap_urn@ + "': "@ + details@
        },
        ExecutionError::FabricRegistryError(s) => "Registry error: "@ + s@,
    }
}

/// The class that a failure declares: the one its emit source declared for a
/// cap failure; a deployment problem for missing, undownloadable or unavailable
/// cartridges and registry failures; ours for everything else.
pub open spec fn class_of(e: ExecutionError) -> AttributionClass {
    match leaf(e) {
        ExecutionError::CartridgeExecutionFailed { class, .. } => class,
        ExecutionError::CartridgeNotFound { .. } => AttributionClass::Environment,
        ExecutionError::CartridgeDownloadFailed(_) => AttributionClass::Environment,
        ExecutionError::CartridgeUnavailable { .. } => AttributionClass::Environment,
        ExecutionError::FabricRegistryError(_) => AttributionClass::Environment,
        _ => AttributionClass::Internal,
    }
}

/// The failure carries no step attribution.
pub proof fn lemma_leaf_is_no_step(e: ExecutionError)
    ensures
        !(leaf(e) is StepFailed),
    decreases e,
{
    match e {
        ExecutionError::StepFailed { source, .. } => {
            lemma_leaf_is_no_step(*source);
        },
        _ => {},
    }
}

/// The characters of an optional string slice.
pub open spec fn opt_str(s: Option<&str>) -> Option<Seq<char>> {
    match s {
        None => None,
        Some(x) => Some(x@),
    }
}

impl ExecutionError {
    /// The failure class this error DECLARES.
    pub fn attribution_class(&self) -> (r: AttributionClass)
        ensures
            r == class_of(*self),
        decreases self,
    {
        match self {
            ExecutionError::StepFailed { source, .. } => source.attribution_class(),
            ExecutionError::CartridgeExecutionFailed { class, .. } => *class,
            ExecutionError::CartridgeNotFound { .. } => AttributionClass::Environment,
            ExecutionError::CartridgeDownloadFailed(_) => AttributionClass::Environment,
            ExecutionError::CartridgeUnavailable { .. } => AttributionClass::Environment,
            ExecutionError::FabricRegistryError(_) => AttributionClass::Environment,
            ExecutionError::NoIncomingData { .. } => AttributionClass::Internal,
            ExecutionError::IoError(_) => AttributionClass::Internal,
            ExecutionError::HostError(_) => AttributionClass::Internal,
            ExecutionError::EffectContractViolation { .. } => AttributionClass::Internal,
        }
    }

    /// The machine-readable code declared at the emit source, when carried.
    pub fn failure_code(&self) -> (r: Option<&str>)
        ensures
            opt_str(r) == match leaf(*self) {
                ExecutionError::CartridgeExecutionFailed { code, .. } => crate::text::opt_view(
                    code,
                ),
                _ => None,
            },
        decreases self,
    {
        match self {
            ExecutionError::StepFailed { source, .. } => source.failure_code(),
            ExecutionError::CartridgeExecutionFailed { code, .. } => match code {
                Some(c) => Some(c.as_str()),
                None => None,
            },
            _ => None,
        }
    }

    /// Media URN of the argument the failure is attributed to, when the
    /// emit source declared one on the ERR frame. Every other variant is
    /// not about one argument and returns `None` — never a guess.
    pub fn failure_arg_urn(&self) -> (r: Option<&str>)
        ensures
            opt_str(r) == match leaf(*self) {
                ExecutionError::CartridgeExecutionFailed { arg_urn, .. } => crate::text::opt_view(
                    arg_urn,
                ),
                _ => None,
            },
        decreases self,
    {
        match self {
            ExecutionError::StepFailed { source, .. } => source.failure_arg_urn(),
            ExecutionError::CartridgeExecutionFailed { arg_urn, .. } => match arg_urn {
                Some(a) => Some(a.as_str()),
                None => None,
            },
            _ => None,
        }
    }

    /// How the error reads.
    pub fn message(&self) -> (r: String)
        ensures
            r@ == error_text(*self),
        decreases self,
    {
        match self {
            ExecutionError::StepFailed { step_token_id, source } => "Step ".to_owned().concat(
                step_token_id.as_str(),
            ).concat(" failed: ").concat(source.message().as_str()),
            ExecutionError::CartridgeNotFound { cap_urn } => {
                "Cartridge not found for cap: ".to_owned().concat(cap_urn.as_str())
            },
            ExecutionError::CartridgeDownloadFailed(s) => {
                "Cartridge download failed: ".to_owned().concat(s.as_str())
            },
            ExecutionError::CartridgeExecutionFailed { cap_urn, details, .. } => {
                "Cartridge execution failed for cap ".to_owned().concat(cap_urn.as_str()).concat(
                    ": ",
                ).concat(details.as_str())
            },
            ExecutionError::EffectContractViolation {
                cap_urn,
                effect,
                runtime_input,
                expected,
                actual,
            } => effect_violation_message(cap_urn, effect, runtime_input, expected, actual),
            ExecutionError::NoIncomingData { node } => "Node ".to_owned().concat(
                node.as_str(),
            ).concat(" has no incoming data"),
            ExecutionError::IoError(s) => "IO error: ".to_owned().concat(s.as_str()),
            ExecutionError::HostError(s) => "Host error: ".to_owned().concat(s.as_str()),
            ExecutionError::CartridgeUnavailable { cap_urn, details } => {
                "Cartridge unavailable for cap '".to_owned().concat(cap_urn.as_str()).concat(
                    "': ",
                ).concat(details.as_str())
            },
            ExecutionError::FabricRegistryError(s) => "Registry error: ".to_owned().concat(
                s.as_str(),
            ),
        }
    }

    /// The LEAF human reason — the emit source's own message for cap
    /// failures, the whole text otherwise.
    pub fn failure_reason(&self) -> (r: String)
        ensures
            r@ == match leaf(*self) {
                ExecutionError::CartridgeExecutionFailed { details, .. } => details@,
                other => error_text(other),
            },
        decreases self,
    {
        match self {
            ExecutionError::StepFailed { source, .. } => source.failure_reason(),
            ExecutionError::CartridgeExecutionFailed { details, .. } => details.clone(),
            other => other.message(),
        }
    }

    /// The step the failure is attributed to.
    pub fn step_token_id(&self) -> (r: Option<&StepToken>)
        ensures
            match *self {
                ExecutionError::StepFailed { step_token_id, .. } => r == Some(&step_token_id),
                _ => r is None,
            },
    {
        match self {
            ExecutionError::StepFailed { step_token_id, .. } => Some(step_token_id),
            _ => None,
        }
    }

    /// The cap the failure is about.
    pub fn failure_cap_urn(&self) -> (r: Option<&str>)
        ensures
            opt_str(r) == match leaf(*self) {
                ExecutionError::CartridgeExecutionFailed { cap_urn, .. } => Some(cap_urn@),
                ExecutionError::EffectContractViolation { cap_urn, .. } => Some(cap_urn@),
                _ => None,
            },
        decreases self,
    {
        match self {
            ExecutionError::StepFailed { source, .. } => source.failure_cap_urn(),
            ExecutionError::CartridgeExecutionFailed { cap_urn, .. } => Some(cap_urn.as_str()),
            ExecutionError::EffectContractViolation { cap_urn, .. } => Some(cap_urn.as_str()),
            _ => None,
        }
    }

    /// Attribute the failure to a step; one that is attributed already stays
    /// with its step.
    pub fn at_step(self, step_token_id: &StepToken) -> (r: Self)
        ensures
            r == attributed_to(self, *step_token_id),
    {
        match self {
            ExecutionError::StepFailed { .. } => self,
            _ => ExecutionError::StepFailed {
                step_token_id: step_token_id.clone(),
                source: Box::new(self),
            },
        }
    }
}

/// A failure attributed to a step, unless it is attributed to one already.
pub open spec fn attributed_to(e: ExecutionError, step: StepToken) -> ExecutionError {
    if e is StepFailed {
        e
    } else {
        ExecutionError::StepFailed { step_token_id: step, source: Box::new(e) }
    }
}

/// The text of a violated effect contract.
pub fn effect_violation_message(
    cap_urn: &String,
    effect: &String,
    runtime_input: &String,
    expected: &String,
    actual: &String,
) -> (r: String)
    ensures
        r@ == effect_violation_text(cap_urn@, effect@, runtime_input@, expected@, actual@),
{
    "Cap '".to_owned().concat(cap_urn.as_str()).concat(
        "' violated its effect contract: effect=",
    ).concat(effect.as_str()).concat(", runtime input '").concat(runtime_input.as_str()).concat(
        "', expected output '",
    ).concat(expected.as_str()).concat("', emitted '").concat(actual.as_str()).concat("'")
}

/// Attributing a failure to a step changes neither its class nor its leaf.
pub proof fn attribution_keeps_the_failure(e: ExecutionError, step: StepToken)
    ensures
        leaf(attributed_to(e, step)) == leaf(e),
        class_of(attributed_to(e, step)) == class_of(e),
{
    reveal_with_fuel(leaf, 2);
}

/// The first step that a failure is attributed to is the one it keeps.
pub proof fn first_attribution_stays(e: ExecutionError, first: StepToken, second: StepToken)
    ensures
        attributed_to(e, first) is StepFailed,
        !(e is StepFailed) ==> attributed_to(e, first)->step_token_id == first && *attributed_to(
            e,
            first,
        )->StepFailed_source == e,
        attributed_to(attributed_to(e, first), second) == attributed_to(e, first),
{
}

/// A failure that is attributed to a step stays the failure it is: its class and
/// its innermost cause are those of what it wraps, and the innermost cause wraps
/// nothing.
pub proof fn a_wrapped_failure_keeps_its_class(e: ExecutionError)
    ensures
        e matches ExecutionError::StepFailed { source, .. } ==> class_of(e) == class_of(*source)
            && leaf(e) == leaf(*source),
        e matches ExecutionError::CartridgeExecutionFailed { class, .. } ==> class_of(e) == class,
        e is CartridgeNotFound || e is CartridgeDownloadFailed || e is CartridgeUnavailable
            || e is FabricRegistryError ==> class_of(e) == AttributionClass::Environment,
        e is NoIncomingData || e is IoError || e is HostError || e is EffectContractViolation
            ==> class_of(e) == AttributionClass::Internal,
        !(e is StepFailed) ==> leaf(e) == e,
        !(leaf(e) is StepFailed),
        class_of(leaf(e)) == class_of(e),
    decreases e,
{
    if let ExecutionError::StepFailed { source, .. } = e {
        a_wrapped_failure_keeps_its_class(*source);
    }
}

} // verus!
