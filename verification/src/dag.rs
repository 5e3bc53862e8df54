//! What a resolved DAG is run on and what it leaves behind: its inputs, the
//! plan of its sinks, and its output.

use crate::context::ExecutionContext;
use crate::executor_error::ExecutionError;
use crate::frame::StreamMeta;
use crate::groups;
use crate::groups::{
    build_edge_groups, decompose_group_chains, split_chains_at_shared_bounded_pool,
    topological_sort_groups, EdgeGroup, PoolChain, ResolvedEdge, ResolvedGraph,
};
use crate::plan::StepToken;
use crate::run_arguments::clone_bytes;
use crate::spool;
use crate::spool::SpoolWriter;
use crate::table;
use crate::table::Table;
use crate::terminal::TerminalMeta;
use crate::text;
use crate::text::{list_debug, lists};
use crate::transport;
use crate::transport::wrap_raw_items_as_cbor_sequence;
use vstd::prelude::*;
use vstd::slice::slice_to_vec;
use vstd::string::*;

verus! {

// ---------------------------------------------------------------------------
// Inputs
// ---------------------------------------------------------------------------
/// Runtime data associated with a DAG node.
#[derive(Debug)]
pub enum NodeData {
    /// Raw binary data
    Bytes(Vec<u8>),
    /// Text data
    Text(String),
    /// File path — read into bytes before execution
    FilePath(String),
}

impl NodeData {
    /// The file to read before the data is there.
    pub fn file_path(&self) -> (r: Option<&str>)
        ensures
            match *self {
                NodeData::FilePath(path) => r is Some && r->0@ == path@,
                _ => r is None,
            },
    {
        match self {
            NodeData::FilePath(path) => Some(path.as_str()),
            _ => None,
        }
    }

    /// Resolve to raw bytes: a file is what reading it gave, text its UTF-8
    /// bytes.
    pub fn into_bytes(self, file: Result<Vec<u8>, String>) -> (r: Result<Vec<u8>, ExecutionError>)
        ensures
            match self {
                NodeData::Bytes(b) => r == Ok::<Vec<u8>, ExecutionError>(b),
                NodeData::Text(t) => r is Ok && r->Ok_0@ == vstd::utf8::encode_utf8(t@),
                NodeData::FilePath(path) => match file {
                    Ok(b) => r == Ok::<Vec<u8>, ExecutionError>(b),
                    Err(why) => r is Err && spool::host_error(
                        r->Err_0,
                        "Failed to read file '"@ + path@ + "': "@ + why@,
                    ),
                },
            },
    {
        match self {
            NodeData::Bytes(b) => Ok(b),
            NodeData::Text(t) => Ok(slice_to_vec(t.as_str().as_bytes())),
            NodeData::FilePath(path) => match file {
                Ok(b) => Ok(b),
                Err(why) => Err(
                    ExecutionError::HostError(
                        "Failed to read file '".to_owned().concat(path.as_str()).concat(
                            "': ",
                        ).concat(why.as_str()),
                    ),
                ),
            },
        }
    }
}

/// One initial input of a plan execution.
///
/// `Bytes` is materialized content (a read file, a typed value). A
/// `LiveReference` is a live-capture SOURCE: the selector bytes travel to the
/// first consuming cap labeled with the REFERENCE urn, and that cap's cartridge
/// resolves capture — the engine never touches a device.
#[derive(Debug)]
pub enum PlanInput {
    Bytes(Vec<u8>),
    LiveReference { reference_urn: String, selector: Vec<u8> },
}

/// The bytes placed at an input node.
pub open spec fn node_bytes(input: PlanInput) -> Vec<u8> {
    match input {
        PlanInput::Bytes(b) => b,
        PlanInput::LiveReference { reference_urn, selector } => selector,
    }
}

impl PlanInput {
    /// The bytes placed at the input node: content bytes, or the selector.
    pub fn into_node_bytes(self) -> (r: Vec<u8>)
        ensures
            r == node_bytes(self),
    {
        match self {
            PlanInput::Bytes(b) => b,
            PlanInput::LiveReference { selector, .. } => selector,
        }
    }

    /// The reference URN of a live source.
    pub fn live_reference_urn(&self) -> (r: Option<&str>)
        ensures
            match *self {
                PlanInput::Bytes(_) => r is None,
                PlanInput::LiveReference { reference_urn, selector } => r is Some && r->0@
                    == reference_urn@,
            },
    {
        match self {
            PlanInput::Bytes(_) => None,
            PlanInput::LiveReference { reference_urn, .. } => Some(reference_urn.as_str()),
        }
    }
}

/// The keys that are not in a map, in order.
pub open spec fn keys_not_in<V>(keys: Seq<Seq<char>>, m: Map<Seq<char>, V>) -> Seq<Seq<char>>
    decreases keys.len(),
{
    if keys.len() == 0 {
        Seq::empty()
    } else if m.contains_key(keys.last()) {
        keys_not_in(keys.drop_last(), m)
    } else {
        keys_not_in(keys.drop_last(), m).push(keys.last())
    }
}

fn unmatched<A, B>(a: &Table<A>, b: &Table<B>) -> (r: Vec<String>)
    ensures
        text::views(r@) == keys_not_in(a.order(), b@),
        r@.len() == 0 ==> a@.dom().subset_of(b@.dom()),
{
    let n: usize = a.len();
    let mut r: Vec<String> = Vec::new();
    let mut i: usize = 0;
    proof {
        assert(a.order().take(0) =~= Seq::<Seq<char>>::empty());
        assert(text::views(r@) =~= keys_not_in(a.order().take(0), b@));
    }
    while i < n
        invariant
            n == a.order().len(),
            i <= n,
            text::views(r@) == keys_not_in(a.order().take(i as int), b@),
            r@.len() == 0 ==> forall|j: int|
                0 <= j < i ==> b@.contains_key(#[trigger] a.order()[j]),
        decreases n - i,
    {
        let ghost before = r@;
        let key = a.key_at(i);
        proof {
            assert(a.order().take(i + 1).drop_last() =~= a.order().take(i as int));
            assert(a.order().take(i + 1).last() == key@);
        }
        if !b.contains_key(key.as_str()) {
            r.push(key.clone());
            assert(text::views(r@) =~= text::views(before).push(key@));
        }
        i = i + 1;
    }
    proof {
        assert(a.order().take(i as int) =~= a.order());
        if r@.len() == 0 {
            assert forall|k: Seq<char>| a@.dom().contains(k) implies b@.dom().contains(k) by {
                assert(a.order().contains(k));
                let j = choose|j: int| 0 <= j < a.order().len() && a.order()[j] == k;
                assert(b@.contains_key(a.order()[j]));
            }
        }
    }
    r
}

/// The failure of a segment whose inputs and sequence flags do not correspond
/// one to one, or `None` where they do.
pub open spec fn segment_flag_fault<V>(inputs: Table<V>, flags: Table<bool>) -> Option<Seq<char>> {
    let missing = keys_not_in(inputs.order(), flags@);
    let stale = keys_not_in(flags.order(), inputs@);
    if missing.len() > 0 {
        Some(
            "run_segment: initial_is_sequence is missing flags for input node(s) "@ + text::debug_list(
                missing,
            ),
        )
    } else if stale.len() > 0 {
        Some("run_segment: initial_is_sequence has stale flags for node(s) "@ + text::debug_list(stale))
    } else {
        None
    }
}

/// The failure of a DAG whose inputs and sequence flags do not correspond one
/// to one, or `None` where they do.
pub open spec fn dag_flag_fault<V>(inputs: Table<V>, flags: Table<bool>) -> Option<Seq<char>> {
    let missing = keys_not_in(inputs.order(), flags@);
    let stale = keys_not_in(flags.order(), inputs@);
    if missing.len() > 0 {
        Some(
            "execute_dag: initial_is_sequence is missing entries for input node(s) "@ + text::debug_list(
                missing,
            )
                + ". Every entry in `initial_inputs` requires an explicit sequence/scalar flag — see machfab's `resolve_inputs` for the canonical population pattern."@,
        )
    } else if stale.len() > 0 {
        Some(
            "execute_dag: initial_is_sequence has flag(s) for node(s) "@ + text::debug_list(stale)
                + " that are not present in `initial_inputs`. Either drop the stale flags or supply the matching input data."@,
        )
    } else {
        None
    }
}

/// Check that every input node of a DAG carries an explicit sequence flag and
/// every flag refers to an input node. Missing or extra entries are a
/// programmer error, not a silent default: one would let a sequence flow into a
/// scalar-shaped chunk on the wire.
pub fn check_dag_flags<V>(inputs: &Table<V>, flags: &Table<bool>) -> (r: Result<
    (),
    ExecutionError,
>)
    ensures
        match dag_flag_fault(*inputs, *flags) {
            None => r is Ok && inputs@.dom() == flags@.dom(),
            Some(text) => r is Err && spool::host_error(r->Err_0, text),
        },
        r is Ok <==> inputs@.dom() == flags@.dom(),
{
    proof {
        flags_are_required_for_exactly_the_inputs(*inputs, *flags);
    }
    let missing = unmatched(inputs, flags);
    if missing.len() > 0 {
        return Err(
            ExecutionError::HostError(
                "execute_dag: initial_is_sequence is missing entries for input node(s) ".to_owned().concat(
                list_debug(&missing).as_str()).concat(
                    ". Every entry in `initial_inputs` requires an explicit sequence/scalar flag — see machfab's `resolve_inputs` for the canonical population pattern.",
                ),
            ),
        );
    }
    let stale = unmatched(flags, inputs);
    if stale.len() > 0 {
        return Err(
            ExecutionError::HostError(
                "execute_dag: initial_is_sequence has flag(s) for node(s) ".to_owned().concat(
                    list_debug(&stale).as_str(),
                ).concat(
                    " that are not present in `initial_inputs`. Either drop the stale flags or supply the matching input data.",
                ),
            ),
        );
    }
    assert(inputs@.dom() =~= flags@.dom());
    Ok(())
}

/// The node data that inputs bring.
pub open spec fn input_bytes(inputs: Map<Seq<char>, PlanInput>) -> Map<Seq<char>, Vec<u8>> {
    Map::new(|k: Seq<char>| inputs.contains_key(k), |k: Seq<char>| node_bytes(inputs[k]))
}

/// The live references among inputs.
pub open spec fn is_live(inputs: Map<Seq<char>, PlanInput>, k: Seq<char>) -> bool {
    inputs.contains_key(k) && inputs[k] is LiveReference
}

/// A context with the inputs of a segment placed at their nodes.
pub open spec fn seeded(
    before: ExecutionContext,
    inputs: Map<Seq<char>, PlanInput>,
    flags: Map<Seq<char>, bool>,
    after: ExecutionContext,
) -> bool {
    &&& after.node_data@ == before.node_data@.union_prefer_right(input_bytes(inputs))
    &&& after.node_is_sequence@ == before.node_is_sequence@.union_prefer_right(flags)
    &&& forall|k: Seq<char>| #[trigger]
        after.node_live_reference@.contains_key(k) <==> before.node_live_reference@.contains_key(k)
            || is_live(inputs, k)
    &&& forall|k: Seq<char>| #[trigger]
        after.node_live_reference@.contains_key(k) ==> if is_live(inputs, k) {
            after.node_live_reference@[k]@ == inputs[k]->reference_urn@
        } else {
            after.node_live_reference@[k] == before.node_live_reference@[k]
        }
    &&& after == (ExecutionContext {
        node_data: after.node_data,
        node_is_sequence: after.node_is_sequence,
        node_live_reference: after.node_live_reference,
        ..before
    })
}

/// Place the inputs of a segment at their nodes, each with its explicit
/// scalar/sequence flag, a live source with its reference URN.
pub fn seed_segment(ctx: &mut ExecutionContext, inputs: Table<PlanInput>, flags: &Table<bool>) -> (r:
    Result<(), ExecutionError>)
    ensures
        match segment_flag_fault(inputs, *flags) {
            None => r is Ok && seeded(*old(ctx), inputs@, flags@, *final(ctx)),
            Some(text) => r is Err && spool::host_error(r->Err_0, text) && *final(ctx) == *old(ctx),
        },
        r is Ok <==> inputs@.dom() == flags@.dom(),
{
    proof {
        flags_are_required_for_exactly_the_inputs(inputs, *flags);
    }
    let missing = unmatched(&inputs, flags);
    if missing.len() > 0 {
        return Err(
            ExecutionError::HostError(
                "run_segment: initial_is_sequence is missing flags for input node(s) ".to_owned().concat(
                list_debug(&missing).as_str()),
            ),
        );
    }
    let stale = unmatched(flags, &inputs);
    if stale.len() > 0 {
        return Err(
            ExecutionError::HostError(
                "run_segment: initial_is_sequence has stale flags for node(s) ".to_owned().concat(
                    list_debug(&stale).as_str(),
                ),
            ),
        );
    }
    let ghost before = *ctx;
    let ghost given = inputs@;
    assert(given.dom() =~= flags@.dom());
    let mut entries = inputs.into_entries();
    let ghost all = entries@;
    let ghost keys = table::entry_keys(all);
    let ghost mut done: int = 0;
    proof {
        assert(all.skip(0) =~= all);
        assert(ctx.node_data@ =~= before.node_data@.union_prefer_right(
            input_bytes(given.restrict(Set::empty())),
        ));
        assert(ctx.node_is_sequence@ =~= before.node_is_sequence@.union_prefer_right(
            flags@.restrict(Set::empty()),
        ));
        assert(keys.take(0).to_set() =~= Set::empty());
    }
    while entries.len() > 0
        invariant
            0 <= done <= all.len(),
            entries@ == all.skip(done),
            keys == table::entry_keys(all),
            keys.no_duplicates(),
            table::entry_map(all) == given,
            given.dom() == flags@.dom(),
            seeded(
                before,
                given.restrict(keys.take(done).to_set()),
                flags@.restrict(keys.take(done).to_set()),
                *ctx,
            ),
        decreases entries@.len(),
    {
        let ghost was = *ctx;
        let ghost some = keys.take(done).to_set();
        let ghost more = keys.take(done + 1).to_set();
        let (node, input) = entries.remove(0);
        proof {
            assert(all[done].0 == node && all[done].1 == input);
            assert(entries@ =~= all.skip(done + 1));
            assert(keys[done] == node@);
            assert(keys.contains(node@));
            assert(keys.index_of(node@) == done);
            assert(given.contains_key(node@) && given[node@] == input);
            table::lemma_take_push(keys, done);
        }
        if let Some(flag) = flags.get(node.as_str()) {
            ctx.set_node_is_sequence(node.clone(), *flag);
        }
        let ghost flagged = *ctx;
        if let Some(reference_urn) = input.live_reference_urn() {
            ctx.set_node_live_reference(node.clone(), reference_urn.to_owned());
        }
        let ghost name = node@;
        ctx.set_node_data(node, input.into_node_bytes());
        proof {
            let a = given.restrict(some);
            let b = given.restrict(more);
            assert(b =~= a.insert(name, given[name]));
            assert(flags@.restrict(more) =~= flags@.restrict(some).insert(name, flags@[name]));
            assert(input_bytes(b) =~= input_bytes(a).insert(name, node_bytes(given[name])));
            assert(ctx.node_data@ =~= before.node_data@.union_prefer_right(input_bytes(b)));
            assert(ctx.node_is_sequence@ =~= before.node_is_sequence@.union_prefer_right(
                flags@.restrict(more),
            ));
            assert forall|k: Seq<char>| #[trigger]
                ctx.node_live_reference@.contains_key(
                    k,
                ) <==> before.node_live_reference@.contains_key(k) || is_live(b, k) by {
                assert(was.node_live_reference@.contains_key(k)
                    <==> before.node_live_reference@.contains_key(k) || is_live(a, k));
            }
            assert forall|k: Seq<char>| #[trigger]
                ctx.node_live_reference@.contains_key(k) implies if is_live(b, k) {
                ctx.node_live_reference@[k]@ == b[k]->reference_urn@
            } else {
                ctx.node_live_reference@[k] == before.node_live_reference@[k]
            } by {
                if k != name {
                    assert(was.node_live_reference@.contains_key(k));
                }
            }
            done = done + 1;
        }
    }
    proof {
        assert(keys.take(done) =~= keys);
        assert(given.restrict(keys.to_set()) =~= given) by {
            assert forall|k: Seq<char>| given.contains_key(k) implies keys.to_set().contains(
                k,
            ) by {}
        }
        assert(flags@.restrict(keys.to_set()) =~= flags@);
    }
    Ok(())
}

// ---------------------------------------------------------------------------
// Chains and sinks
// ---------------------------------------------------------------------------
/// The invocations of a DAG and the order in which they can run.
pub struct DagPlan {
    pub groups: Vec<EdgeGroup>,
    pub order: Vec<usize>,
}

/// Group the edges of a DAG into invocations and order them. Fails exactly
/// where the DAG is cyclic.
pub fn plan_dag(edges: Vec<ResolvedEdge>) -> (r: Result<DagPlan, ExecutionError>)
    ensures
        match r {
            Ok(plan) => {
                &&& groups::grouped(edges@, plan.groups@)
                &&& groups::topological(plan.groups@, plan.order@)
            },
            Err(e) => groups::cycle_error(e) && exists|g: Seq<EdgeGroup>| #[trigger]
                groups::grouped(edges@, g) && forall|order: Seq<usize>|
                    !#[trigger] groups::topological(g, order),
        },
{
    let groups = build_edge_groups(edges);
    match topological_sort_groups(&groups) {
        Ok(order) => Ok(DagPlan { groups, order }),
        Err(e) => Err(e),
    }
}

impl DagPlan {
    /// The live chains to run, one after the other: maximal linear chains, cut
    /// where two adjacent invocations contend for a bounded pool. `pools` holds
    /// the admission pools of every group.
    pub fn chains(&self, pools: &Vec<PoolChain>) -> (r: Vec<Vec<usize>>)
        requires
            groups::topological(self.groups@, self.order@),
            pools@.len() == self.groups@.len(),
        ensures
            groups::chain_views(r@) == groups::all_segments(
                groups::chains_of(self.groups@, self.order@),
                pools@,
            ),
    {
        let linear = decompose_group_chains(&self.groups, &self.order);
        let count: usize = self.groups.len();
        proof {
            assert(count == self.groups@.len());
            assert forall|c: int, p: int|
                0 <= c < linear@.len() && 0 <= p < linear@[c]@.len() implies #[trigger] linear@[c]@[p]
                < pools@.len() by {
                assert(groups::chain_views(linear@)[c] == linear@[c]@);
                groups::lemma_chain_members(self.groups@, self.order@, c, p);
            }
        }
        split_chains_at_shared_bounded_pool(linear, pools)
    }
}

/// Where a chain's sink goes.
#[derive(Debug, Clone, Copy, PartialEq, Eq, Structural)]
pub struct SinkPlan {
    /// A writer persists it.
    pub writer: bool,
    /// A lazy disk spool stands by: the collector engages it only if the
    /// stream declares UNBOUNDED.
    pub spool: bool,
}

/// Plan the sink of a chain. It persists to disk iff it is a plan terminal AND
/// a writer factory was supplied; an INTERMEDIATE sink gets a lazy spool.
/// Terminals keep the strict contract: unbounded without a persisted sink is
/// refused.
pub fn plan_sink(sink: &str, persist_sinks: &Vec<String>, has_writer_factory: bool) -> (p: SinkPlan)
    ensures
        p.writer == (has_writer_factory && text::views(persist_sinks@).contains(sink@)),
        p.spool == !text::views(persist_sinks@).contains(sink@),
{
    let terminal: bool = lists(persist_sinks, sink);
    SinkPlan { writer: has_writer_factory && terminal, spool: !terminal }
}

/// Whether the intermediates of a segment are captured as transient artifacts:
/// only where there is a place for them, and never in a ForEach body.
pub fn captures_transients(has_root: bool, body: &Option<ForEachBodyCoordinate>) -> (r: bool)
    ensures
        r == (has_root && *body is None),
{
    has_root && body.is_none()
}

/// Stable address of one body within a particular ForEach boundary.
#[derive(Debug)]
pub struct ForEachBodyCoordinate {
    pub foreach_token_id: StepToken,
    pub body_index: usize,
}

/// The label of a segment's protocol trace: its terminal cap URN.
pub fn trace_label(graph: &ResolvedGraph) -> (r: String)
    ensures
        r@ == if graph.edges@.len() > 0 {
            graph.edges@.last().cap_urn@
        } else {
            "empty-graph"@
        },
{
    if graph.edges.len() > 0 {
        graph.edges[graph.edges.len() - 1].cap_urn.clone()
    } else {
        "empty-graph".to_owned()
    }
}

/// What a segment amounts to whose final trace line could not be written: a
/// success is surfaced as that failure, a failure stays what it is.
pub fn after_trace_failure<T>(out: Result<T, ExecutionError>, label: &str, why: &str) -> (r: Result<
    T,
    ExecutionError,
>)
    ensures
        match out {
            Ok(_) => r is Err && spool::host_error(
                r->Err_0,
                "protocol trace write failed for segment '"@ + label@ + "': "@ + why@,
            ),
            Err(e) => r == Err::<T, ExecutionError>(e),
        },
{
    match out {
        Ok(_) => Err(
            ExecutionError::HostError(
                "protocol trace write failed for segment '".to_owned().concat(label).concat(
                    "': ",
                ).concat(why),
            ),
        ),
        Err(e) => Err(e),
    }
}

// ---------------------------------------------------------------------------
// Output
// ---------------------------------------------------------------------------
/// Result of a runtime persisting a terminal segment's output to disk.
pub struct WriterResult {
    pub is_sequence: bool,
    pub media_urn: String,
    /// Blob: single path. Sequence: one path per item.
    pub saved_paths: Vec<String>,
    pub total_bytes: usize,
    /// Blob-mode stream meta (STREAM_START); `None` in sequence mode.
    pub stream_meta: Option<StreamMeta>,
    /// Sequence-mode per-item meta; empty in blob mode.
    pub item_metas: Vec<Option<StreamMeta>>,
}

/// Output of running a resolved DAG on a context: every node's decoded output
/// items, each node's cardinality, and — for persisted terminal sinks — the
/// writer results and per-sink terminal metadata.
pub struct DagOutput {
    /// Node id → decoded output items (one for a scalar, N for a sequence).
    /// Persisted terminal sinks carry an empty vec (their data is on disk).
    pub node_data: Table<Vec<Vec<u8>>>,
    /// Node id → whether its output is a sequence.
    pub node_is_sequence: Table<bool>,
    /// Persisted terminal sink node id → its writer result(s).
    pub writer_results: Table<Vec<WriterResult>>,
    /// Terminal sink node id → its terminal metadata.
    pub terminal_meta: Table<TerminalMeta>,
    /// UNBOUNDED intermediates spooled to disk at chain-split boundaries: node
    /// id → spool path. The caller owns the files.
    pub node_spool: Table<String>,
}

/// One node, one truth: its data is in memory OR in a spool, never both.
pub open spec fn one_truth(o: DagOutput) -> bool {
    forall|k: Seq<char>|
        !(#[trigger] o.node_data@.contains_key(k) && o.node_spool@.contains_key(k))
}

/// What a chain's sink delivered.
pub struct ChainOutput {
    pub items: Vec<Vec<u8>>,
    pub is_sequence: bool,
    pub meta: TerminalMeta,
}

/// Where a chain's data was left.
pub enum SinkData {
    /// In memory: the items of the chain output.
    Memory,
    /// In the writer's files.
    Written(WriterResult),
    /// In the engaged spool's file, at `path` once it is adopted or kept.
    Spooled { spool: SpoolWriter, path: String },
}

/// The node bytes that a chain's items amount to: a sequence as self-delimiting
/// byte strings, a scalar as it is.
pub open spec fn materialised(items: Seq<Vec<u8>>, is_sequence: bool) -> Seq<u8> {
    if is_sequence {
        transport::encodings(transport::byte_views(items))
    } else if items.len() > 0 {
        items[0]@
    } else {
        Seq::empty()
    }
}

/// The context once a chain's sink is materialised in it.
pub open spec fn sink_placed(
    before: ExecutionContext,
    sink: Seq<char>,
    out: ChainOutput,
    data: SinkData,
    after: ExecutionContext,
) -> bool {
    match data {
        SinkData::Written(_) => after == before,
        SinkData::Spooled { spool, path } => {
            &&& after.node_spool@ == before.node_spool@.insert(sink, path)
            &&& after.node_is_sequence@ == before.node_is_sequence@.insert(sink, spool.is_sequence)
            &&& match spool.stream_meta {
                Some(m) => after.node_meta@ == before.node_meta@.insert(sink, m),
                None => after.node_meta == before.node_meta,
            }
            &&& after == (ExecutionContext {
                node_spool: after.node_spool,
                node_is_sequence: after.node_is_sequence,
                node_meta: after.node_meta,
                ..before
            })
        },
        SinkData::Memory => {
            &&& after.node_data@.contains_key(sink)
            &&& after.node_data@[sink]@ == materialised(out.items@, out.is_sequence)
            &&& after.node_data@.remove(sink) == before.node_data@.remove(sink)
            &&& after.node_is_sequence@ == before.node_is_sequence@.insert(sink, out.is_sequence)
            &&& after == (ExecutionContext {
                node_data: after.node_data,
                node_is_sequence: after.node_is_sequence,
                ..before
            })
        },
    }
}

/// The writer results so far of a sink.
pub open spec fn results_of(o: DagOutput, sink: Seq<char>) -> Seq<WriterResult> {
    if o.writer_results@.contains_key(sink) {
        o.writer_results@[sink]@
    } else {
        Seq::empty()
    }
}

/// The output once a chain's sink is recorded in it.
pub open spec fn sink_recorded(
    before: DagOutput,
    sink: Seq<char>,
    out: ChainOutput,
    data: SinkData,
    after: DagOutput,
) -> bool {
    &&& after.node_is_sequence@ == before.node_is_sequence@.insert(sink, out.is_sequence)
    &&& after.terminal_meta@ == before.terminal_meta@.insert(sink, out.meta)
    &&& match data {
        SinkData::Written(w) => {
            &&& after.writer_results@.contains_key(sink)
            &&& after.writer_results@[sink]@ == results_of(before, sink).push(w)
            &&& after.writer_results@.remove(sink) == before.writer_results@.remove(sink)
        },
        _ => after.writer_results == before.writer_results,
    }
    &&& match data {
        SinkData::Spooled { spool, path } => {
            &&& after.node_spool@ == before.node_spool@.insert(sink, path)
            &&& after.node_data == before.node_data
        },
        _ => {
            &&& after.node_spool == before.node_spool
            &&& after.node_data@ == before.node_data@.insert(sink, out.items)
        },
    }
}

impl DagOutput {
    /// The output before any chain ran: every already-materialised node.
    pub fn seeded(ctx: &ExecutionContext) -> (o: Self)
        ensures
            o.node_data@.dom() == ctx.node_data@.dom(),
            forall|k: Seq<char>| #[trigger]
                o.node_data@.contains_key(k) ==> transport::byte_views(o.node_data@[k]@) == seq![
                    ctx.node_data@[k]@,
                ],
            o.node_is_sequence@ == ctx.node_is_sequence@,
            o.writer_results@ == Map::<Seq<char>, Vec<WriterResult>>::empty(),
            o.terminal_meta@ == Map::<Seq<char>, TerminalMeta>::empty(),
            o.node_spool@ == Map::<Seq<char>, String>::empty(),
            one_truth(o),
    {
        let mut node_data: Table<Vec<Vec<u8>>> = Table::new();
        let n: usize = ctx.node_data.len();
        let ghost keys = ctx.node_data.order();
        let mut i: usize = 0;
        while i < n
            invariant
                n == keys.len(),
                keys == ctx.node_data.order(),
                i <= n,
                forall|k: Seq<char>| #[trigger]
                    node_data@.contains_key(k) <==> keys.take(i as int).contains(k),
                forall|k: Seq<char>| #[trigger]
                    node_data@.contains_key(k) ==> transport::byte_views(node_data@[k]@) == seq![
                        ctx.node_data@[k]@,
                    ],
            decreases n - i,
        {
            let ghost before = node_data@;
            let mut items: Vec<Vec<u8>> = Vec::new();
            items.push(clone_bytes(ctx.node_data.value_at(i)));
            let key = ctx.node_data.key_at(i).clone();
            let ghost name = key@;
            assert(transport::byte_views(items@) =~= seq![ctx.node_data@[name]@]);
            node_data.insert(key, items);
            proof {
                let now = keys.take(i + 1);
                let was = keys.take(i as int);
                assert(now =~= was.push(name));
                assert forall|k: Seq<char>| #[trigger] node_data@.contains_key(k)
                    <==> now.contains(k) by {
                    assert(before.contains_key(k) <==> was.contains(k));
                    if k == name {
                        assert(now[i as int] == name);
                    }
                    if was.contains(k) {
                        let j = choose|j: int| 0 <= j < was.len() && was[j] == k;
                        assert(now[j] == k);
                    }
                    if now.contains(k) && k != name {
                        let j = choose|j: int| 0 <= j < now.len() && now[j] == k;
                        assert(was[j] == k);
                    }
                }
            }
            i = i + 1;
        }
        let mut node_is_sequence: Table<bool> = Table::new();
        let m: usize = ctx.node_is_sequence.len();
        let ghost names = ctx.node_is_sequence.order();
        let mut j: usize = 0;
        while j < m
            invariant
                m == names.len(),
                names == ctx.node_is_sequence.order(),
                j <= m,
                forall|k: Seq<char>| #[trigger]
                    node_is_sequence@.contains_key(k) <==> names.take(j as int).contains(k),
                forall|k: Seq<char>| #[trigger]
                    node_is_sequence@.contains_key(k) ==> node_is_sequence@[k]
                        == ctx.node_is_sequence@[k],
            decreases m - j,
        {
            let ghost before = node_is_sequence@;
            let key = ctx.node_is_sequence.key_at(j).clone();
            let ghost name = key@;
            node_is_sequence.insert(key, *ctx.node_is_sequence.value_at(j));
            proof {
                let now = names.take(j + 1);
                let was = names.take(j as int);
                assert(now =~= was.push(name));
                assert forall|k: Seq<char>| #[trigger] node_is_sequence@.contains_key(k)
                    <==> now.contains(k) by {
                    assert(before.contains_key(k) <==> was.contains(k));
                    if k == name {
                        assert(now[j as int] == name);
                    }
                    if was.contains(k) {
                        let x = choose|x: int| 0 <= x < was.len() && was[x] == k;
                        assert(now[x] == k);
                    }
                    if now.contains(k) && k != name {
                        let x = choose|x: int| 0 <= x < now.len() && now[x] == k;
                        assert(was[x] == k);
                    }
                }
            }
            j = j + 1;
        }
        proof {
            assert(keys.take(i as int) =~= keys);
            assert(names.take(j as int) =~= names);
            assert(node_data@.dom() =~= ctx.node_data@.dom());
            assert(node_is_sequence@ =~= ctx.node_is_sequence@);
        }
        DagOutput {
            node_data,
            node_is_sequence,
            writer_results: Table::new(),
            terminal_meta: Table::new(),
            node_spool: Table::new(),
        }
    }

    /// Record a chain's sink, and materialise it so that downstream chain heads
    /// can read it. A written sink has nothing that anything downstream reads;
    /// a spooled one is read from its file, and its data is not presented in
    /// memory.
    pub fn record_chain(
        &mut self,
        ctx: &mut ExecutionContext,
        sink: &String,
        out: ChainOutput,
        data: SinkData,
    )
        ensures
            sink_placed(*old(ctx), sink@, out, data, *final(ctx)),
            sink_recorded(*old(self), sink@, out, data, *final(self)),
            // A sink that is recorded for the first time keeps its data in one
            // place.
            one_truth(*old(self)) && !old(self).node_data@.contains_key(sink@)
                && !old(self).node_spool@.contains_key(sink@) ==> one_truth(*final(self)),
    {
        let ghost before_ctx = *ctx;
        let ghost before = *self;
        let mut spooled: bool = false;
        match data {
            SinkData::Written(result) => {
                let mut results: Vec<WriterResult> = match self.writer_results.remove(
                    sink.as_str(),
                ) {
                    Some(r) => r,
                    None => Vec::new(),
                };
                results.push(result);
                self.writer_results.insert(sink.clone(), results);
                proof {
                    assert(self.writer_results@.remove(sink@)
                        =~= before.writer_results@.remove(sink@));
                }
            },
            SinkData::Spooled { spool, path } => {
                spooled = true;
                let is_sequence: bool = spool.is_sequence();
                if let Some(m) = spool.stream_meta {
                    ctx.set_node_meta(sink.clone(), m);
                }
                ctx.set_node_is_sequence(sink.clone(), is_sequence);
                ctx.set_node_spool(sink.clone(), path.clone());
                self.node_spool.insert(sink.clone(), path);
            },
            SinkData::Memory => {
                let bytes = if out.is_sequence {
                    match wrap_raw_items_as_cbor_sequence(&out.items) {
                        Ok(b) => b,
                        Err(_) => Vec::new(),
                    }
                } else if out.items.len() > 0 {
                    clone_bytes(&out.items[0])
                } else {
                    Vec::new()
                };
                assert(bytes@ =~= materialised(out.items@, out.is_sequence));
                ctx.set_node_data(sink.clone(), bytes);
                assert(ctx.node_data@.remove(sink@) =~= before_ctx.node_data@.remove(sink@));
                ctx.set_node_is_sequence(sink.clone(), out.is_sequence);
            },
        }
        self.node_is_sequence.insert(sink.clone(), out.is_sequence);
        self.terminal_meta.insert(sink.clone(), out.meta);
        if !spooled {
            self.node_data.insert(sink.clone(), out.items);
        }
    }
}

// ---------------------------------------------------------------------------
// Laws
// ---------------------------------------------------------------------------
/// The keys that a table lacks are all of the given ones that it does not hold,
/// in their order.
pub proof fn every_unmatched_key_is_found<V>(keys: Seq<Seq<char>>, m: Map<Seq<char>, V>)
    ensures
        keys_not_in(keys, m) == keys.filter(|k: Seq<char>| !m.contains_key(k)),
        keys_not_in(keys, m).len() == 0 <==> forall|i: int|
            0 <= i < keys.len() ==> m.contains_key(#[trigger] keys[i]),
    decreases keys.len(),
{
    let lacks = |k: Seq<char>| !m.contains_key(k);
    reveal(Seq::filter);
    if keys.len() > 0 {
        let short = keys.drop_last();
        every_unmatched_key_is_found(short, m);
        assert(keys_not_in(keys, m) =~= keys.filter(lacks));
        if keys_not_in(keys, m).len() == 0 {
            assert forall|i: int| 0 <= i < keys.len() implies m.contains_key(#[trigger] keys[i]) by {
                if i < short.len() {
                    assert(m.contains_key(short[i]));
                }
            }
        } else if m.contains_key(keys.last()) {
            let i = choose|i: int| 0 <= i < short.len() && !m.contains_key(#[trigger] short[i]);
            assert(!m.contains_key(keys[i]));
        } else {
            assert(!m.contains_key(keys[keys.len() - 1]));
        }
    } else {
        assert(keys_not_in(keys, m) =~= keys.filter(lacks));
    }
}

/// Flags are accepted exactly if every input has one and no other node does.
pub proof fn flags_are_required_for_exactly_the_inputs<V>(inputs: Table<V>, flags: Table<bool>)
    ensures
        dag_flag_fault(inputs, flags) is None <==> inputs@.dom() == flags@.dom(),
        segment_flag_fault(inputs, flags) is None <==> inputs@.dom() == flags@.dom(),
{
    crate::table::lemma_order_is_the_keys(inputs);
    crate::table::lemma_order_is_the_keys(flags);
    every_unmatched_key_is_found(inputs.order(), flags@);
    every_unmatched_key_is_found(flags.order(), inputs@);
    let missing = keys_not_in(inputs.order(), flags@);
    let stale = keys_not_in(flags.order(), inputs@);
    if missing.len() == 0 && stale.len() == 0 {
        assert forall|k: Seq<char>| inputs@.dom().contains(k) <==> flags@.dom().contains(k) by {
            if inputs@.contains_key(k) {
                assert(inputs.order().contains(k));
                let i = choose|i: int| 0 <= i < inputs.order().len() && inputs.order()[i] == k;
                assert(flags@.contains_key(inputs.order()[i]));
            }
            if flags@.contains_key(k) {
                assert(flags.order().contains(k));
                let i = choose|i: int| 0 <= i < flags.order().len() && flags.order()[i] == k;
                assert(inputs@.contains_key(flags.order()[i]));
            }
        }
        assert(inputs@.dom() =~= flags@.dom());
    }
    if inputs@.dom() == flags@.dom() {
        assert forall|i: int| 0 <= i < inputs.order().len() implies flags@.contains_key(
            #[trigger] inputs.order()[i],
        ) by {
            assert(inputs@.dom().contains(inputs.order()[i]));
            assert(flags@.dom().contains(inputs.order()[i]));
        }
        assert forall|i: int| 0 <= i < flags.order().len() implies inputs@.contains_key(
            #[trigger] flags.order()[i],
        ) by {
            assert(flags@.dom().contains(flags.order()[i]));
            assert(inputs@.dom().contains(flags.order()[i]));
        }
    }
}

/// A seeded node holds its input and its flag; every other node keeps what it
/// had.
pub proof fn a_seeded_node_holds_its_input(
    before: ExecutionContext,
    inputs: Map<Seq<char>, PlanInput>,
    flags: Map<Seq<char>, bool>,
    after: ExecutionContext,
    node: Seq<char>,
)
    requires
        seeded(before, inputs, flags, after),
    ensures
        inputs.contains_key(node) && inputs[node] is Bytes ==> after.node_data@.contains_key(node)
            && after.node_data@[node] == inputs[node]->Bytes_0,
        inputs.contains_key(node) && inputs[node] is LiveReference
            ==> after.node_live_reference@.contains_key(node)
            && after.node_live_reference@[node]@ == inputs[node]->reference_urn@,
        flags.contains_key(node) ==> after.node_is_sequence@.contains_key(node)
            && after.node_is_sequence@[node] == flags[node],
        !inputs.contains_key(node) && before.node_data@.contains_key(node)
            ==> after.node_data@.contains_key(node) && after.node_data@[node]
            == before.node_data@[node],
        !inputs.contains_key(node) && !before.node_data@.contains_key(node)
            ==> !after.node_data@.contains_key(node),
        !flags.contains_key(node) && before.node_is_sequence@.contains_key(node)
            ==> after.node_is_sequence@.contains_key(node) && after.node_is_sequence@[node]
            == before.node_is_sequence@[node],
{
    assert(input_bytes(inputs).contains_key(node) == inputs.contains_key(node));
    if inputs.contains_key(node) && inputs[node] is LiveReference {
        assert(is_live(inputs, node));
        assert(after.node_live_reference@.contains_key(node));
    }
}

/// A chain's sink is materialised whole: a sequence as one byte string per item,
/// in order, a scalar as the item itself.
pub proof fn a_sink_is_materialised_whole(items: Seq<Vec<u8>>)
    ensures
        materialised(items, true) == Seq::new(
            items.len(),
            |i: int| crate::cbor::bytes_encoding(items[i]@),
        ).flatten(),
        items.len() > 0 ==> materialised(items, false) == items[0]@,
        items.len() == 0 ==> materialised(items, false).len() == 0,
{
    let views = transport::byte_views(items);
    transport::every_item_is_one_byte_string(views);
    assert(Seq::new(views.len(), |i: int| crate::cbor::bytes_encoding(views[i])) =~= Seq::new(
        items.len(),
        |i: int| crate::cbor::bytes_encoding(items[i]@),
    ));
}

/// Recording a chain's sink keeps what was recorded before: a written sink's
/// result is appended to its list, a spooled one is read from its file, one in
/// memory from its items, and every other node stays as it was.
pub proof fn a_recorded_sink_leaves_the_others_alone(
    before: DagOutput,
    sink: Seq<char>,
    out: ChainOutput,
    data: SinkData,
    after: DagOutput,
    other: Seq<char>,
)
    requires
        sink_recorded(before, sink, out, data, after),
        other != sink,
    ensures
        after.node_is_sequence@.contains_key(sink) && after.node_is_sequence@[sink]
            == out.is_sequence,
        after.node_data@.contains_key(other) == before.node_data@.contains_key(other),
        before.node_data@.contains_key(other) ==> after.node_data@[other]
            == before.node_data@[other],
        before.node_is_sequence@.contains_key(other) ==> after.node_is_sequence@.contains_key(other)
            && after.node_is_sequence@[other] == before.node_is_sequence@[other],
        after.writer_results@.contains_key(other) == before.writer_results@.contains_key(other),
        before.writer_results@.contains_key(other) ==> after.writer_results@[other]
            == before.writer_results@[other],
        data matches SinkData::Written(w) ==> after.writer_results@.contains_key(sink)
            && after.writer_results@[sink]@.last() == w && after.writer_results@[sink]@.drop_last()
            == (if before.writer_results@.contains_key(sink) {
            before.writer_results@[sink]@
        } else {
            Seq::empty()
        }),
        data matches SinkData::Spooled { path, .. } ==> after.node_spool@.contains_key(sink)
            && after.node_spool@[sink] == path,
        data is Memory ==> after.node_data@.contains_key(sink) && after.node_data@[sink]
            == out.items,
{
    if let SinkData::Written(w) = data {
        let had = results_of(before, sink);
        assert(had.push(w).drop_last() =~= had);
        assert(after.writer_results@.remove(sink).contains_key(other)
            == before.writer_results@.remove(sink).contains_key(other));
        if before.writer_results@.contains_key(other) {
            assert(after.writer_results@.remove(sink)[other]
                == before.writer_results@.remove(sink)[other]);
        }
    }
}

} // verus!
