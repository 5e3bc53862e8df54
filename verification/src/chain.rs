//! Decisions around one live chain of cap invocations: how it is opened, how
//! its hops are wired, and what its tasks amount to once they ended.

use crate::context::ExecutionContext;
use crate::executor_error;
use crate::executor_error::ExecutionError;
use crate::groups;
use crate::groups::{EdgeGroup, ResolvedEdge};
use crate::plan::StepToken;
use crate::spool;
use crate::stream_io;
use crate::stream_io::StreamIoError;
use crate::text;
use crate::text::{decimal_u64, decimal_usize, same};
use crate::transport;
use crate::transport::decode_terminal_output;
use vstd::prelude::*;
use vstd::string::*;

verus! {

/// How long an invocation waits for a master that advertises a dispatchable
/// cap, in seconds.
pub const CAP_DISPATCH_READY_TIMEOUT_SECS: u64 = 15;

// ---------------------------------------------------------------------------
// Opening the invocations
// ---------------------------------------------------------------------------
/// The failure of a cap whose admission pools cannot be asked for because no
/// master came to advertise it.
pub fn admission_not_ready(cap_urn: &str) -> (e: ExecutionError)
    ensures
        spool::host_error(
            e,
            "resolve admission capacity for cap '"@ + cap_urn@
                + "': no master advertised a cap dispatchable for this request within "@
                + text::decimal(CAP_DISPATCH_READY_TIMEOUT_SECS as nat) + "s"@,
        ),
{
    ExecutionError::HostError(
        "resolve admission capacity for cap '".to_owned().concat(cap_urn).concat(
            "': no master advertised a cap dispatchable for this request within ",
        ).concat(decimal_u64(CAP_DISPATCH_READY_TIMEOUT_SECS).as_str()).concat("s"),
    )
}

/// The failure of a cap whose admission pools were refused.
pub fn admission_refused(cap_urn: &str, why: &str) -> (e: ExecutionError)
    ensures
        spool::host_error(
            e,
            "resolve admission capacity for cap '"@ + cap_urn@ + "': "@ + why@,
        ),
{
    ExecutionError::HostError(
        "resolve admission capacity for cap '".to_owned().concat(cap_urn).concat("': ").concat(why),
    )
}

/// The failure of an invocation that no master came to serve.
pub fn dispatch_not_ready(cap_urn: &str) -> (e: ExecutionError)
    ensures
        spool::host_error(
            e,
            "execute_cap '"@ + cap_urn@
                + "': no master advertised a cap dispatchable for this request within "@
                + text::decimal(CAP_DISPATCH_READY_TIMEOUT_SECS as nat)
                + "s — RelayNotify never arrived, the identity probe failed, or no candidate conforms to this cap"@,
        ),
{
    ExecutionError::HostError(
        "execute_cap '".to_owned().concat(cap_urn).concat(
            "': no master advertised a cap dispatchable for this request within ",
        ).concat(decimal_u64(CAP_DISPATCH_READY_TIMEOUT_SECS).as_str()).concat(
            "s — RelayNotify never arrived, the identity probe failed, or no candidate conforms to this cap",
        ),
    )
}

/// A failure reported by the relay switch, as it reads.
pub enum SwitchFailure {
    /// The serving cartridge left its host's inventory.
    CartridgeUnavailable { details: String },
    /// The request is not known (any more).
    UnknownRequest { rid: String },
    Other { message: String },
}

/// What a refused invocation is: the switch's classification is kept.
pub fn dispatch_failure(cap_urn: &String, failure: SwitchFailure) -> (e: ExecutionError)
    ensures
        match failure {
            SwitchFailure::CartridgeUnavailable { details } => e
                == (ExecutionError::CartridgeUnavailable { cap_urn: *cap_urn, details }),
            SwitchFailure::UnknownRequest { rid } => spool::host_error(
                e,
                "execute_cap '"@ + cap_urn@ + "': "@ + rid@,
            ),
            SwitchFailure::Other { message } => spool::host_error(
                e,
                "execute_cap '"@ + cap_urn@ + "': "@ + message@,
            ),
        },
{
    match failure {
        SwitchFailure::CartridgeUnavailable { details } => ExecutionError::CartridgeUnavailable {
            cap_urn: cap_urn.clone(),
            details,
        },
        SwitchFailure::UnknownRequest { rid } => ExecutionError::HostError(
            "execute_cap '".to_owned().concat(cap_urn.as_str()).concat("': ").concat(rid.as_str()),
        ),
        SwitchFailure::Other { message } => ExecutionError::HostError(
            "execute_cap '".to_owned().concat(cap_urn.as_str()).concat("': ").concat(
                message.as_str(),
            ),
        ),
    }
}

/// What the outcome of an upstream credit grant means. Exactly one failure is
/// tolerated: the request no longer existing because it TERMINATED while the
/// grant was being prepared. Credits for a finished request are moot; every
/// other failure is a real host error and stays hard.
pub fn upstream_credit_outcome(context: &str, sent: Result<(), SwitchFailure>) -> (r: Result<
    (),
    ExecutionError,
>)
    ensures
        match sent {
            Ok(()) => r is Ok,
            Err(SwitchFailure::UnknownRequest { rid }) => r is Ok,
            Err(SwitchFailure::CartridgeUnavailable { details }) => r is Err && spool::host_error(
                r->Err_0,
                context@ + ": "@ + details@,
            ),
            Err(SwitchFailure::Other { message }) => r is Err && spool::host_error(
                r->Err_0,
                context@ + ": "@ + message@,
            ),
        },
{
    match sent {
        Ok(_) => Ok(()),
        Err(SwitchFailure::UnknownRequest { .. }) => Ok(()),
        Err(SwitchFailure::CartridgeUnavailable { details }) => Err(
            ExecutionError::HostError(context.to_owned().concat(": ").concat(details.as_str())),
        ),
        Err(SwitchFailure::Other { message }) => Err(
            ExecutionError::HostError(context.to_owned().concat(": ").concat(message.as_str())),
        ),
    }
}

/// Whether an invocation resolves a live reference.
pub open spec fn feed_bearing(group: EdgeGroup, references: Map<Seq<char>, String>) -> bool {
    exists|e: int|
        0 <= e < group.edges@.len() && references.contains_key(
            (#[trigger] group.edges@[e]).from@,
        )
}

/// Whether a chain head is FEED-BEARING: any of its inputs is a live reference,
/// so the selector it is sent resolves into an open device tap in the receiving
/// cartridge. The stop-input control closes exactly these taps.
pub fn is_feed_bearing(head: &EdgeGroup, ctx: &ExecutionContext) -> (r: bool)
    ensures
        r == feed_bearing(*head, ctx.node_live_reference@),
{
    let mut e: usize = 0;
    while e < head.edges.len()
        invariant
            e <= head.edges@.len(),
            forall|j: int|
                0 <= j < e ==> !ctx.node_live_reference@.contains_key(
                    (#[trigger] head.edges@[j]).from@,
                ),
        decreases head.edges@.len() - e,
    {
        if ctx.node_live_reference.contains_key(head.edges[e].from.as_str()) {
            assert(ctx.node_live_reference@.contains_key(head.edges@[e as int].from@));
            return true;
        }
        e = e + 1;
    }
    false
}

// ---------------------------------------------------------------------------
// Wiring a hop
// ---------------------------------------------------------------------------
/// The edges that take their input from a node.
pub open spec fn feeding(edges: Seq<ResolvedEdge>, node: Seq<char>) -> Seq<ResolvedEdge>
    decreases edges.len(),
{
    if edges.len() == 0 {
        Seq::empty()
    } else if edges.last().from@ == node {
        feeding(edges.drop_last(), node).push(edges.last())
    } else {
        feeding(edges.drop_last(), node)
    }
}

/// The label of the stream that a hop forwards, or why there is none: exactly
/// one edge of the consumer must come from the producer's node.
pub open spec fn hop_media(prev: EdgeGroup, next: EdgeGroup) -> Result<Seq<char>, Seq<char>> {
    let edges = feeding(next.edges@, prev.to@);
    if edges.len() == 0 {
        Err(
            "pipelined forward: chain wiring bug — group for cap '"@ + next.cap_urn@
                + "' has no edge from its producer node '"@ + prev.to@ + "'"@,
        )
    } else if edges.len() == 1 {
        Ok(edges[0].in_media@)
    } else {
        Err(
            "pipelined forward: node '"@ + prev.to@ + "' feeds cap '"@ + next.cap_urn@
                + "' through multiple edges (args '"@ + edges[0].in_media@ + "' and '"@
                + edges[1].in_media@
                + "') — a single forwarded stream cannot be split into two args"@,
        )
    }
}

/// The media URN that the stream forwarded from `prev` to `next` is labeled
/// with: the downstream cap demuxes its input streams by argument URN, so the
/// hop relabels the producer's (richer) output to the declared one.
pub fn next_in_media(prev: &EdgeGroup, next: &EdgeGroup) -> (r: Result<String, ExecutionError>)
    ensures
        match hop_media(*prev, *next) {
            Ok(media) => r is Ok && r->Ok_0@ == media,
            Err(text) => r is Err && spool::host_error(r->Err_0, text),
        },
{
    let mut first: Option<usize> = None;
    let mut second: Option<usize> = None;
    let mut e: usize = 0;
    proof {
        assert(next.edges@.take(0) =~= Seq::<ResolvedEdge>::empty());
    }
    while e < next.edges.len()
        invariant
            e <= next.edges@.len(),
            match first {
                None => feeding(next.edges@.take(e as int), prev.to@).len() == 0 && second is None,
                Some(i) => {
                    let edges = feeding(next.edges@.take(e as int), prev.to@);
                    &&& i < next.edges@.len()
                    &&& edges.len() >= 1
                    &&& edges[0] == next.edges@[i as int]
                    &&& match second {
                        None => edges.len() == 1,
                        Some(j) => j < next.edges@.len() && edges.len() >= 2 && edges[1]
                            == next.edges@[j as int],
                    }
                },
            },
        decreases next.edges@.len() - e,
    {
        proof {
            assert(next.edges@.take(e + 1).drop_last() =~= next.edges@.take(e as int));
            assert(next.edges@.take(e + 1).last() == next.edges@[e as int]);
        }
        if same(next.edges[e].from.as_str(), prev.to.as_str()) {
            if first.is_none() {
                first = Some(e);
            } else if second.is_none() {
                second = Some(e);
            }
        }
        e = e + 1;
    }
    assert(next.edges@.take(e as int) =~= next.edges@);
    match (first, second) {
        (Some(a), None) => Ok(next.edges[a].in_media.clone()),
        (Some(a), Some(b)) => Err(
            ExecutionError::HostError(
                "pipelined forward: node '".to_owned().concat(prev.to.as_str()).concat(
                    "' feeds cap '",
                ).concat(next.cap_urn.as_str()).concat("' through multiple edges (args '").concat(
                    next.edges[a].in_media.as_str(),
                ).concat("' and '").concat(next.edges[b].in_media.as_str()).concat(
                    "') — a single forwarded stream cannot be split into two args",
                ),
            ),
        ),
        (None, _) => Err(
            ExecutionError::HostError(
                "pipelined forward: chain wiring bug — group for cap '".to_owned().concat(
                    next.cap_urn.as_str(),
                ).concat("' has no edge from its producer node '").concat(prev.to.as_str()).concat(
                    "'",
                ),
            ),
        ),
    }
}

/// A group that continues its producer in a chain always has exactly one edge
/// to forward into: wiring a decomposed chain never fails.
pub proof fn a_decomposed_chain_is_wired(groups: Seq<EdgeGroup>, i: int, d: int)
    requires
        0 <= i < groups.len(),
        groups::follows(groups, i, d),
    ensures
        hop_media(groups[d], groups[i]) == Ok::<Seq<char>, Seq<char>>(
            groups[i].edges@[0].in_media@,
        ),
{
    groups::lemma_follows(groups, i, d);
    let edges = groups[i].edges@;
    let e = choose|e: int| 0 <= e < edges.len() && #[trigger] groups::fed_by(groups, i, e, d);
    assert(edges[0].from@ == groups[d].to@);
    assert(edges.drop_last() =~= Seq::<ResolvedEdge>::empty());
    assert(feeding(edges.drop_last(), groups[d].to@) =~= Seq::<ResolvedEdge>::empty());
    assert(feeding(edges, groups[d].to@) =~= seq![edges[0]]);
}

// ---------------------------------------------------------------------------
// What the chain amounts to
// ---------------------------------------------------------------------------
/// The execution failure that a failed collection is: a cap failure and an
/// effect violation keep their declared identity and are attributed to the
/// step; everything else is a host error.
pub open spec fn collection_failure(
    fault: stream_io::StreamFault,
    step: StepToken,
    e: ExecutionError,
) -> bool {
    match fault {
        stream_io::StreamFault::Terminal(cap_urn, code, class, details, arg_urn) => {
            &&& e matches ExecutionError::StepFailed { step_token_id, source }
            &&& step_token_id == step
            &&& *source matches ExecutionError::CartridgeExecutionFailed {
                cap_urn: c,
                code: k,
                class: l,
                details: d,
                arg_urn: a,
            }
            &&& c@ == cap_urn
            &&& text::opt_view(k) == code
            &&& l == class
            &&& d@ == details
            &&& text::opt_view(a) == arg_urn
        },
        stream_io::StreamFault::EffectContract(cap_urn, effect, runtime_input, expected, actual) => {
            &&& e matches ExecutionError::StepFailed { step_token_id, source }
            &&& step_token_id == step
            &&& *source matches ExecutionError::EffectContractViolation {
                cap_urn: c,
                effect: f,
                runtime_input: i,
                expected: x,
                actual: a,
            }
            &&& c@ == cap_urn
            &&& f@ == effect
            &&& i@ == runtime_input
            &&& x@ == expected
            &&& a@ == actual
        },
        other => spool::host_error(e, stream_io::stream_fault_text(other)),
    }
}

/// The execution failure of a collection that failed at a step.
pub fn collection_error(error: StreamIoError, step: &StepToken) -> (e: ExecutionError)
    ensures
        collection_failure(error@, *step, e),
{
    match error {
        StreamIoError::Terminal { cap_urn, code, class, details, arg_urn } => {
            ExecutionError::CartridgeExecutionFailed {
                cap_urn,
                code,
                class,
                details,
                arg_urn,
            }.at_step(step)
        },
        StreamIoError::EffectContract { cap_urn, effect, runtime_input, expected, actual } => {
            ExecutionError::EffectContractViolation {
                cap_urn,
                effect,
                runtime_input,
                expected,
                actual,
            }.at_step(step)
        },
        other => ExecutionError::HostError(other.message()),
    }
}

/// How a feeding or forwarding task ended.
pub enum TaskEnd {
    Done,
    Failed(ExecutionError),
    /// The task panicked: what the runtime says about it.
    Panicked(String),
}

/// Whether `e` is the failure of a task, attributed to its step.
pub open spec fn task_failure(
    end: TaskEnd,
    panic_label: Seq<char>,
    step: StepToken,
    e: ExecutionError,
) -> bool {
    match end {
        TaskEnd::Done => false,
        TaskEnd::Failed(cause) => e == executor_error::attributed_to(cause, step),
        TaskEnd::Panicked(why) => {
            &&& e matches ExecutionError::StepFailed { step_token_id, source }
            &&& step_token_id == step
            &&& spool::host_error(*source, panic_label + " panicked: "@ + why@)
        },
    }
}

fn task_error(end: TaskEnd, panic_label: &str, step: &StepToken) -> (r: Option<ExecutionError>)
    ensures
        match r {
            None => end is Done,
            Some(e) => !(end is Done) && task_failure(end, panic_label@, *step, e),
        },
{
    match end {
        TaskEnd::Done => None,
        TaskEnd::Failed(cause) => Some(cause.at_step(step)),
        TaskEnd::Panicked(why) => {
            let text = panic_label.to_owned().concat(" panicked: ").concat(why.as_str());
            let cause = ExecutionError::HostError(text);
            Some(cause.at_step(step))
        },
    }
}

/// The first forwarding task at or after `from` that failed, or the number of
/// tasks where none did.
pub open spec fn first_failed(ends: Seq<TaskEnd>, from: int) -> int
    decreases ends.len() - from,
{
    if from >= ends.len() {
        ends.len() as int
    } else if !(ends[from] is Done) {
        from
    } else {
        first_failed(ends, from + 1)
    }
}

/// Whether no task of a chain failed.
pub open spec fn tasks_done(send: TaskEnd, forwards: Seq<TaskEnd>) -> bool {
    send is Done && first_failed(forwards, 0) >= forwards.len()
}

/// Whether `e` is the failure that the tasks of a chain amount to: the feeding
/// task's before any forwarding task's, and of these the first along the
/// chain.
pub open spec fn tasks_failure(
    chain: Seq<EdgeGroup>,
    send: TaskEnd,
    forwards: Seq<TaskEnd>,
    e: ExecutionError,
) -> bool {
    if !(send is Done) {
        task_failure(send, "Input send task"@, chain[0].token_id, e)
    } else {
        let i = first_failed(forwards, 0);
        i < forwards.len() && task_failure(
            forwards[i],
            "Forwarding task "@ + text::decimal(i as nat),
            chain[i].token_id,
            e,
        )
    }
}

fn first_task_error(chain: &Vec<EdgeGroup>, send: TaskEnd, forwards: Vec<TaskEnd>) -> (r: Option<
    ExecutionError,
>)
    requires
        chain@.len() > 0,
        forwards@.len() < chain@.len(),
    ensures
        match r {
            None => tasks_done(send, forwards@),
            Some(e) => !tasks_done(send, forwards@) && tasks_failure(chain@, send, forwards@, e),
        },
{
    if let Some(e) = task_error(send, "Input send task", &chain[0].token_id) {
        return Some(e);
    }
    let ghost all = forwards@;
    let n: usize = chain.len();
    let mut rest = forwards;
    let mut i: usize = 0;
    assert(all.skip(0) =~= all);
    while rest.len() > 0
        invariant
            send is Done,
            all == forwards@,
            n == chain@.len(),
            n > all.len(),
            i <= all.len(),
            rest@ == all.skip(i as int),
            first_failed(all, 0) == first_failed(all, i as int),
        decreases rest@.len(),
    {
        let end = rest.remove(0);
        assert(end == all[i as int]);
        assert(rest@ =~= all.skip(i + 1));
        let label = "Forwarding task ".to_owned().concat(decimal_usize(i).as_str());
        if let Some(e) = task_error(end, label.as_str(), &chain[i].token_id) {
            return Some(e);
        }
        i = i + 1;
    }
    None
}

/// What a chain's sink delivered.
pub struct Collected<M> {
    pub output_bytes: Vec<u8>,
    pub is_sequence: Option<bool>,
    pub meta: M,
}

/// What a chain amounts to once all its tasks ended. A chain that broke
/// upstream fails even where its terminal END came: that END is not
/// trustworthy. On a failure the caller cancels every invocation of the chain.
pub fn settle_chain<M>(
    chain: &Vec<EdgeGroup>,
    send: TaskEnd,
    forwards: Vec<TaskEnd>,
    collected: Result<Collected<M>, ExecutionError>,
) -> (r: Result<Collected<M>, ExecutionError>)
    requires
        chain@.len() > 0,
        forwards@.len() < chain@.len(),
    ensures
        match r {
            Ok(c) => tasks_done(send, forwards@) && collected == Ok::<
                Collected<M>,
                ExecutionError,
            >(c),
            Err(e) => if tasks_done(send, forwards@) {
                collected == Err::<Collected<M>, ExecutionError>(e)
            } else {
                tasks_failure(chain@, send, forwards@, e)
            },
        },
        r is Ok <==> collected is Ok && send is Done && forall|i: int|
            0 <= i < forwards@.len() ==> (#[trigger] forwards@[i]) is Done,
{
    proof {
        the_first_failed_task_is_found(forwards@, 0);
    }
    match first_task_error(chain, send, forwards) {
        Some(e) => Err(e),
        None => collected,
    }
}

/// The items of a chain's sink. Where a writer persisted them or the
/// intermediate spool engaged, the data is on disk and there are none in
/// memory; otherwise the response is decoded.
pub fn sink_items(output_bytes: &Vec<u8>, is_sequence: Option<bool>, on_disk: bool) -> (r: Result<
    Vec<Vec<u8>>,
    ExecutionError,
>)
    ensures
        on_disk ==> r is Ok && r->Ok_0@.len() == 0,
        !on_disk ==> exists|d: Result<Vec<Vec<u8>>, StreamIoError>|
            #![trigger transport::decoded(output_bytes@, is_sequence, d)]
            transport::decoded(output_bytes@, is_sequence, d) && match d {
                Ok(items) => r == Ok::<Vec<Vec<u8>>, ExecutionError>(items),
                Err(e) => r is Err && spool::host_error(
                    r->Err_0,
                    stream_io::stream_fault_text(e@),
                ),
            },
        forall|chunks: Seq<Seq<u8>>|
            !on_disk && output_bytes@.len() > 0 && output_bytes@ == #[trigger] transport::encodings(
                chunks,
            ) ==> r is Ok && transport::byte_views(r->Ok_0@) == (if is_sequence == Some(true) {
                chunks
            } else {
                seq![transport::joined(chunks)]
            }),
{
    if on_disk {
        return Ok(Vec::new());
    }
    let d = decode_terminal_output(output_bytes.as_slice(), is_sequence);
    assert(transport::decoded(output_bytes@, is_sequence, d));
    match d {
        Ok(items) => Ok(items),
        Err(e) => Err(ExecutionError::HostError(e.message())),
    }
}

/// The first task that did not end well is found, and none where all did.
pub proof fn the_first_failed_task_is_found(ends: Seq<TaskEnd>, from: int)
    requires
        0 <= from <= ends.len(),
    ensures
        from <= first_failed(ends, from) <= ends.len(),
        first_failed(ends, from) < ends.len() ==> !(ends[first_failed(ends, from)] is Done),
        forall|i: int| from <= i < first_failed(ends, from) ==> (#[trigger] ends[i]) is Done,
    decreases ends.len() - from,
{
    if from < ends.len() && ends[from] is Done {
        the_first_failed_task_is_found(ends, from + 1);
    }
}

/// A stream is forwarded to the one argument that the producer's node feeds; a
/// node that feeds none of a cap's arguments, or more than one, is refused.
pub proof fn a_hop_feeds_one_argument(prev: EdgeGroup, next: EdgeGroup)
    ensures
        ({
            let fed = next.edges@.filter(|e: ResolvedEdge| e.from@ == prev.to@);
            &&& hop_media(prev, next) is Ok <==> fed.len() == 1
            &&& fed.len() == 1 ==> hop_media(prev, next)->Ok_0 == fed[0].in_media@
        }),
{
    lemma_feeding(next.edges@, prev.to@);
    let node = prev.to@;
    let named = |e: ResolvedEdge| e.from@ == node;
    let direct = |e: ResolvedEdge| e.from@ == prev.to@;
    assert(named =~= direct);
}

proof fn lemma_feeding(edges: Seq<ResolvedEdge>, node: Seq<char>)
    ensures
        feeding(edges, node) == edges.filter(|e: ResolvedEdge| e.from@ == node),
    decreases edges.len(),
{
    let feeds = |e: ResolvedEdge| e.from@ == node;
    reveal(Seq::filter);
    if edges.len() > 0 {
        lemma_feeding(edges.drop_last(), node);
        assert(feeding(edges, node) =~= edges.filter(feeds));
    } else {
        assert(feeding(edges, node) =~= edges.filter(feeds));
    }
}

} // verus!
