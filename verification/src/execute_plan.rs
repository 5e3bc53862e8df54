//! Executing a plan segment by segment: what each segment is fed, what it
//! leaves, and what the plan's terminals amount to.

use crate::cap;
use crate::cap::Cap;
use crate::dag;
use crate::dag::{DagOutput, PlanInput, WriterResult};
use crate::executor_error::ExecutionError;
use crate::outcome;
use crate::outcome::{append_strings, clone_strings, total_paths, total_written, BodyOutcome};
use crate::plan::{ExecutionNodeType, InputCardinality, MachinePlan, MachinePlanEdge};
use crate::region_run::{append_items, clone_items, BodyResult};
use crate::regions;
use crate::regions::{
    build_trunk_subplan, compute_post_region_caps, compute_regions, ItemMedia, Region,
};
use crate::run_arguments::clone_bytes;
use crate::spool;
use crate::table;
use crate::table::Table;
use crate::text;
use crate::text::{list_debug, lists, same, sort, string_debug};
use crate::transport;
use crate::transport::wrap_raw_items_as_cbor_sequence;
use crate::urn;
use vstd::prelude::*;
use vstd::string::*;

verus! {

/// A single unwrapped output item.
#[derive(Debug)]
pub struct OutputItem {
    /// Raw bytes (CBOR transport stripped).
    pub data: Vec<u8>,
    /// Item index (0 for scalar, 0..N for sequence items).
    pub index: usize,
}

/// One plan terminal (`Output` node) and the data produced at it.
///
/// When the runtime persists terminal output, `writer_results` carries the file
/// paths and `items` is empty; otherwise `items` holds the in-memory data.
pub struct TerminalOutput {
    /// The plan `Output` node id this terminal corresponds to.
    pub output_node_id: String,
    /// Unwrapped output blobs. Empty when `writer_results` is populated.
    pub items: Vec<OutputItem>,
    /// Whether the output is a sequence — a cap with sequence output, or the
    /// per-item results of a ForEach region.
    pub is_sequence: bool,
    /// Terminal output media URN.
    pub media_urn: String,
    /// Results from any incremental disk writes.
    pub writer_results: Vec<WriterResult>,
}

/// Result of executing a plan: one terminal per `Output` node.
pub struct PipelineResult {
    pub terminals: Vec<TerminalOutput>,
    /// Per-body outcome tracking across every ForEach region (one entry for a
    /// plan that has none).
    pub body_outcomes: Vec<BodyOutcome>,
}

/// The first terminal at or after `from` of an `Output` node, or the number of
/// terminals where there is none.
pub open spec fn terminal_index(terminals: Seq<TerminalOutput>, id: Seq<char>, from: int) -> int
    decreases terminals.len() - from,
{
    if from >= terminals.len() {
        terminals.len() as int
    } else if terminals[from].output_node_id@ == id {
        from
    } else {
        terminal_index(terminals, id, from + 1)
    }
}

impl PipelineResult {
    /// The terminal for a given `Output` node id.
    pub fn terminal(&self, output_node_id: &str) -> (r: Option<&TerminalOutput>)
        ensures
            ({
                let i = terminal_index(self.terminals@, output_node_id@, 0);
                match r {
                    Some(t) => 0 <= i < self.terminals@.len() && *t == self.terminals@[i],
                    None => i >= self.terminals@.len(),
                }
            }),
            r is Some ==> r->0.output_node_id@ == output_node_id@ && self.terminals@.contains(
                *r->0,
            ),
            r is None ==> forall|i: int|
                0 <= i < self.terminals@.len() ==> (#[trigger] self.terminals@[i]).output_node_id@
                    != output_node_id@,
    {
        let mut i: usize = 0;
        while i < self.terminals.len()
            invariant
                i <= self.terminals@.len(),
                terminal_index(self.terminals@, output_node_id@, 0) == terminal_index(
                    self.terminals@,
                    output_node_id@,
                    i as int,
                ),
                forall|j: int|
                    0 <= j < i ==> (#[trigger] self.terminals@[j]).output_node_id@
                        != output_node_id@,
            decreases self.terminals@.len() - i,
        {
            if same(self.terminals[i].output_node_id.as_str(), output_node_id) {
                return Some(&self.terminals[i]);
            }
            i = i + 1;
        }
        None
    }
}

// ---------------------------------------------------------------------------
// Terminals of a plan
// ---------------------------------------------------------------------------
/// Whether a node marks a terminal.
pub open spec fn is_output(plan: MachinePlan, id: Seq<char>) -> bool {
    plan.nodes@.contains_key(id) && plan.nodes@[id].node_type is Output
}

/// The producer behind a terminal.
pub open spec fn output_source(plan: MachinePlan, id: Seq<char>) -> Seq<char> {
    plan.nodes@[id].node_type->source_node@
}

/// The ids of terminals.
pub open spec fn output_ids(outputs: Seq<(String, String)>) -> Seq<Seq<char>> {
    Seq::new(outputs.len(), |i: int| outputs[i].0@)
}

/// The terminals of a plan — `Output` node and its producer — ordered by id.
pub fn plan_outputs(plan: &MachinePlan) -> (r: Result<Vec<(String, String)>, ExecutionError>)
    ensures
        match r {
            Ok(outputs) => {
                &&& outputs@.len() > 0
                &&& text::sorted(output_ids(outputs@))
                &&& output_ids(outputs@).no_duplicates()
                &&& forall|id: Seq<char>| #[trigger]
                    output_ids(outputs@).contains(id) <==> is_output(*plan, id)
                &&& forall|i: int|
                    0 <= i < outputs@.len() ==> (#[trigger] outputs@[i]).1@ == output_source(
                        *plan,
                        outputs@[i].0@,
                    )
            },
            Err(e) => spool::host_error(e, "plan has no Output node"@) && forall|id: Seq<char>|
                !#[trigger] is_output(*plan, id),
        },
{
    let n: usize = plan.nodes.len();
    let ghost order = plan.nodes.order();
    let mut found: Vec<String> = Vec::new();
    let mut i: usize = 0;
    while i < n
        invariant
            n == order.len(),
            order == plan.nodes.order(),
            order.no_duplicates(),
            i <= n,
            text::views(found@).no_duplicates(),
            forall|x: Seq<char>| #[trigger]
                text::views(found@).contains(x) <==> order.take(i as int).contains(x) && is_output(
                    *plan,
                    x,
                ),
        decreases n - i,
    {
        proof {
            regions::lemma_take_more(order, i as int);
        }
        let is_terminal: bool = match &plan.nodes.value_at(i).node_type {
            ExecutionNodeType::Output { .. } => true,
            _ => false,
        };
        if is_terminal {
            let ghost before = text::views(found@);
            let id = plan.nodes.key_at(i).clone();
            let ghost name = id@;
            found.push(id);
            proof {
                assert(text::views(found@) =~= before.push(name));
                regions::lemma_push(before, name);
            }
        }
        i = i + 1;
    }
    assert(order.take(i as int) =~= order);
    let ghost unsorted = text::views(found@);
    if found.len() == 0 {
        proof {
            assert forall|id: Seq<char>| !#[trigger] is_output(*plan, id) by {
                if is_output(*plan, id) {
                    assert(order.contains(id));
                    assert(unsorted.contains(id));
                }
            }
        }
        return Err(ExecutionError::HostError("plan has no Output node".to_owned()));
    }
    let ids = sort(found);
    proof {
        regions::lemma_same_elements(unsorted, text::views(ids@));
    }
    let ghost names = text::views(ids@);
    let mut outputs: Vec<(String, String)> = Vec::new();
    let mut k: usize = 0;
    assert(output_ids(outputs@) =~= names.take(0));
    while k < ids.len()
        invariant
            k <= ids@.len(),
            names == text::views(ids@),
            forall|x: Seq<char>| #[trigger] names.contains(x) ==> is_output(*plan, x),
            output_ids(outputs@) == names.take(k as int),
            forall|j: int|
                0 <= j < outputs@.len() ==> (#[trigger] outputs@[j]).1@ == output_source(
                    *plan,
                    outputs@[j].0@,
                ),
        decreases ids@.len() - k,
    {
        let ghost before = outputs@;
        assert(names.contains(names[k as int]));
        if let Some(node) = plan.nodes.get(ids[k].as_str()) {
            if let ExecutionNodeType::Output { source_node, .. } = &node.node_type {
                outputs.push((ids[k].clone(), source_node.clone()));
                proof {
                    assert(output_ids(outputs@) =~= output_ids(before).push(names[k as int]));
                    assert(names.take(k + 1) =~= names.take(k as int).push(names[k as int]));
                }
            }
        }
        k = k + 1;
    }
    proof {
        assert(names.take(k as int) =~= names);
        assert forall|id: Seq<char>| is_output(*plan, id) implies #[trigger] output_ids(
            outputs@,
        ).contains(id) by {
            assert(order.contains(id));
            assert(unsorted.contains(id));
        }
    }
    Ok(outputs)
}

/// The nodes whose output is a plan terminal.
pub fn persist_sinks(outputs: &Vec<(String, String)>) -> (r: Vec<String>)
    ensures
        r@.len() == outputs@.len(),
        forall|i: int| 0 <= i < r@.len() ==> #[trigger] r@[i] == outputs@[i].1,
{
    let mut r: Vec<String> = Vec::new();
    let mut i: usize = 0;
    while i < outputs.len()
        invariant
            i <= outputs@.len(),
            r@.len() == i,
            forall|j: int| 0 <= j < i ==> #[trigger] r@[j] == outputs@[j].1,
        decreases outputs@.len() - i,
    {
        r.push(outputs[i].1.clone());
        i = i + 1;
    }
    r
}

// ---------------------------------------------------------------------------
// Inputs of the trunk
// ---------------------------------------------------------------------------
/// The sequence flags of the trunk's inputs, or the failure of an input that
/// carries none.
pub fn trunk_flags(inputs: &Table<PlanInput>, flags: &Table<bool>) -> (r: Result<
    Table<bool>,
    ExecutionError,
>)
    ensures
        ({
            let missing = dag::keys_not_in(inputs.order(), flags@);
            match r {
                Ok(t) => missing.len() == 0 && t@ == flags@.restrict(inputs@.dom())
                    && inputs@.dom().subset_of(flags@.dom()),
                Err(e) => missing.len() > 0 && spool::host_error(
                    e,
                    "initial input '"@ + missing[0] + "' has no sequence flag"@,
                ),
            }
        }),
{
    let n: usize = inputs.len();
    let ghost order = inputs.order();
    let mut t: Table<bool> = Table::new();
    let mut i: usize = 0;
    proof {
        assert(order.take(0) =~= Seq::<Seq<char>>::empty());
        assert(t@ =~= flags@.restrict(order.take(0).to_set()));
    }
    while i < n
        invariant
            n == order.len(),
            order == inputs.order(),
            i <= n,
            dag::keys_not_in(order.take(i as int), flags@).len() == 0,
            t@ == flags@.restrict(order.take(i as int).to_set()),
            order.take(i as int).to_set().subset_of(flags@.dom()),
        decreases n - i,
    {
        let key = inputs.key_at(i);
        proof {
            assert(order.take(i + 1).drop_last() =~= order.take(i as int));
            assert(order.take(i + 1).last() == key@);
            table::lemma_take_push(order, i as int);
        }
        match flags.get(key.as_str()) {
            Some(flag) => {
                t.insert(key.clone(), *flag);
                assert(t@ =~= flags@.restrict(order.take(i + 1).to_set()));
            },
            None => {
                proof {
                    let found = dag::keys_not_in(order.take(i + 1), flags@);
                    assert(found.len() == 1 && found[0] == key@);
                    lemma_missing_stays(order, flags@, i + 1);
                }
                return Err(
                    ExecutionError::HostError(
                        "initial input '".to_owned().concat(key.as_str()).concat(
                            "' has no sequence flag",
                        ),
                    ),
                );
            },
        }
        i = i + 1;
    }
    proof {
        assert(order.take(i as int) =~= order);
        assert(order.to_set() =~= inputs@.dom()) by {
            assert forall|k: Seq<char>| order.to_set().contains(k) <==> inputs@.dom().contains(
                k,
            ) by {
                assert(order.contains(k) <==> inputs@.contains_key(k));
            }
        }
    }
    Ok(t)
}

proof fn lemma_missing_stays(order: Seq<Seq<char>>, flags: Map<Seq<char>, bool>, k: int)
    requires
        0 <= k <= order.len(),
        dag::keys_not_in(order.take(k), flags).len() > 0,
    ensures
        dag::keys_not_in(order, flags).len() > 0,
        dag::keys_not_in(order, flags)[0] == dag::keys_not_in(order.take(k), flags)[0],
    decreases order.len() - k,
{
    if k < order.len() {
        assert(order.take(k + 1).drop_last() =~= order.take(k));
        lemma_missing_stays(order, flags, k + 1);
    } else {
        assert(order.take(k) =~= order);
    }
}

/// Whether a region iterates a node.
pub open spec fn iterated(regions: Seq<Region>, node: Seq<char>) -> bool {
    exists|i: int| 0 <= i < regions.len() && (#[trigger] regions[i]).input_node@ == node
}

/// Whether an input is a live source that feeds a region DIRECTLY: the engine
/// is the runtime that iterates the items, so it opens the device itself. A
/// live source feeding linear caps keeps the cartridge-side resolution.
pub fn is_live_region_input(regions: &Vec<Region>, node: &str, input: &PlanInput) -> (r: bool)
    ensures
        r == (*input is LiveReference && iterated(regions@, node@)),
{
    if input.live_reference_urn().is_none() {
        return false;
    }
    let mut i: usize = 0;
    while i < regions.len()
        invariant
            i <= regions@.len(),
            *input is LiveReference,
            forall|j: int| 0 <= j < i ==> (#[trigger] regions@[j]).input_node@ != node@,
        decreases regions@.len() - i,
    {
        if same(regions[i].input_node.as_str(), node) {
            assert(regions@[i as int].input_node@ == node@);
            return true;
        }
        i = i + 1;
    }
    false
}

// ---------------------------------------------------------------------------
// What the segments left
// ---------------------------------------------------------------------------
/// Accumulated producer output across trunk, regions and post-region segment.
pub struct PlanState {
    pub node_data: Table<Vec<Vec<u8>>>,
    pub node_seq: Table<bool>,
    pub node_writers: Table<Vec<WriterResult>>,
    /// Spooled UNBOUNDED intermediates, with their paths.
    pub node_spools: Table<String>,
}

/// The writer results listed for a sink.
pub open spec fn listed(m: Map<Seq<char>, Vec<WriterResult>>, sink: Seq<char>) -> Seq<WriterResult> {
    if m.contains_key(sink) {
        m[sink]@
    } else {
        Seq::empty()
    }
}

/// The writer results once those of a segment are added.
pub open spec fn lists_extended(
    before: Map<Seq<char>, Vec<WriterResult>>,
    more: Map<Seq<char>, Vec<WriterResult>>,
    after: Map<Seq<char>, Vec<WriterResult>>,
) -> bool {
    &&& after.dom() == before.dom().union(more.dom())
    &&& forall|k: Seq<char>| #[trigger] listed(after, k) == listed(before, k) + listed(more, k)
}

fn extend_lists(into: &mut Table<Vec<WriterResult>>, from: Table<Vec<WriterResult>>)
    ensures
        lists_extended(old(into)@, from@, final(into)@),
{
    let ghost base = into@;
    let ghost given = from@;
    let mut entries = from.into_entries();
    let ghost all = entries@;
    let ghost keys = table::entry_keys(all);
    let ghost mut done: int = 0;
    proof {
        assert(all.skip(0) =~= all);
        let none = given.restrict(keys.take(0).to_set());
        assert(into@.dom() =~= base.dom().union(none.dom()));
        assert forall|k: Seq<char>| #[trigger] listed(into@, k) == listed(base, k) + listed(
            none,
            k,
        ) by {
            assert(listed(base, k) + Seq::<WriterResult>::empty() =~= listed(base, k));
        }
    }
    while entries.len() > 0
        invariant
            0 <= done <= all.len(),
            entries@ == all.skip(done),
            keys == table::entry_keys(all),
            keys.no_duplicates(),
            table::entry_map(all) == given,
            lists_extended(base, given.restrict(keys.take(done).to_set()), into@),
        decreases entries@.len(),
    {
        let ghost was = into@;
        let ghost some = given.restrict(keys.take(done).to_set());
        let (sink, more) = entries.remove(0);
        let ghost name = sink@;
        let ghost added = more@;
        proof {
            assert(entries@ =~= all.skip(done + 1));
            assert(all[done].0 == sink && all[done].1 == more);
            assert(keys[done] == sink@);
            assert(keys.contains(sink@));
            assert(keys.index_of(sink@) == done);
            assert(given.contains_key(sink@) && given[sink@] == more);
            table::lemma_take_push(keys, done);
        }
        let mut list: Vec<WriterResult> = match into.remove(sink.as_str()) {
            Some(l) => l,
            None => Vec::new(),
        };
        let ghost had = list@;
        append_all(&mut list, more);
        into.insert(sink, list);
        proof {
            let next = given.restrict(keys.take(done + 1).to_set());
            assert(next =~= some.insert(name, given[name]));
            assert(had == listed(was, name));
            assert(into@.dom() =~= base.dom().union(next.dom()));
            assert forall|k: Seq<char>| #[trigger] listed(into@, k) == listed(base, k) + listed(
                next,
                k,
            ) by {
                assert(listed(was, k) == listed(base, k) + listed(some, k));
                if k == name {
                    assert(!some.contains_key(name));
                    assert(listed(base, k) + Seq::<WriterResult>::empty() =~= listed(base, k));
                }
            }
            done = done + 1;
        }
    }
    proof {
        assert(keys.take(done) =~= keys);
        assert(given.restrict(keys.to_set()) =~= given);
    }
}

fn append_all(to: &mut Vec<WriterResult>, from: Vec<WriterResult>)
    ensures
        final(to)@ == old(to)@ + from@,
{
    let mut rest = from;
    to.append(&mut rest);
}

impl PlanState {
    /// Before any segment ran.
    pub fn new() -> (s: Self)
        ensures
            s.node_data@ == Map::<Seq<char>, Vec<Vec<u8>>>::empty(),
            s.node_seq@ == Map::<Seq<char>, bool>::empty(),
            s.node_writers@ == Map::<Seq<char>, Vec<WriterResult>>::empty(),
            s.node_spools@ == Map::<Seq<char>, String>::empty(),
            s.node_data.order() == Seq::<Seq<char>>::empty(),
            s.node_seq.order() == Seq::<Seq<char>>::empty(),
            s.node_writers.order() == Seq::<Seq<char>>::empty(),
            s.node_spools.order() == Seq::<Seq<char>>::empty(),
    {
        PlanState {
            node_data: Table::new(),
            node_seq: Table::new(),
            node_writers: Table::new(),
            node_spools: Table::new(),
        }
    }

    /// Add what a segment left, but for its spools, which are returned.
    pub fn absorb_segment(&mut self, out: DagOutput) -> (spools: Table<String>)
        ensures
            final(self).node_data@ == old(self).node_data@.union_prefer_right(out.node_data@),
            final(self).node_seq@ == old(self).node_seq@.union_prefer_right(out.node_is_sequence@),
            lists_extended(
                old(self).node_writers@,
                out.writer_results@,
                final(self).node_writers@,
            ),
            final(self).node_spools == old(self).node_spools,
            spools == out.node_spool,
    {
        self.node_data.extend(out.node_data);
        self.node_seq.extend(out.node_is_sequence);
        extend_lists(&mut self.node_writers, out.writer_results);
        out.node_spool
    }

    /// Keep the spools of the trunk: region drivers stream from them.
    pub fn keep_spools(&mut self, spools: Table<String>)
        ensures
            final(self).node_spools@ == old(self).node_spools@.union_prefer_right(spools@),
            *final(self) == (PlanState { node_spools: final(self).node_spools, ..*old(self) }),
    {
        self.node_spools.extend(spools);
    }
}

/// The cap URNs of a sub-plan, in its order.
pub open spec fn cap_urns_of(plan: MachinePlan, order: Seq<Seq<char>>) -> Seq<Seq<char>>
    decreases order.len(),
{
    if order.len() == 0 {
        Seq::empty()
    } else if plan.nodes@[order.last()].node_type is Cap {
        cap_urns_of(plan, order.drop_last()).push(regions::cap_urn_at(plan.nodes@, order.last()))
    } else {
        cap_urns_of(plan, order.drop_last())
    }
}

/// The cap URNs that run in a sub-plan.
pub fn subplan_cap_urns(plan: &MachinePlan) -> (r: Vec<String>)
    ensures
        text::views(r@) == cap_urns_of(*plan, plan.nodes.order()),
{
    let n: usize = plan.nodes.len();
    let ghost order = plan.nodes.order();
    let mut r: Vec<String> = Vec::new();
    let mut i: usize = 0;
    proof {
        assert(order.take(0) =~= Seq::<Seq<char>>::empty());
        assert(text::views(r@) =~= Seq::<Seq<char>>::empty());
    }
    while i < n
        invariant
            n == order.len(),
            order == plan.nodes.order(),
            i <= n,
            text::views(r@) == cap_urns_of(*plan, order.take(i as int)),
        decreases n - i,
    {
        proof {
            assert(order.take(i + 1).drop_last() =~= order.take(i as int));
            assert(order.take(i + 1).last() == order[i as int]);
        }
        let ghost before = text::views(r@);
        if let ExecutionNodeType::Cap { cap_urn } = &plan.nodes.value_at(i).node_type {
            r.push(cap_urn.clone());
            assert(text::views(r@) =~= before.push(cap_urn@));
        }
        i = i + 1;
    }
    assert(order.take(i as int) =~= order);
    r
}

/// What the outcome of a trunk says.
pub open spec fn trunk_view(
    cap_urns: Seq<Seq<char>>,
    writers: Table<Vec<WriterResult>>,
    ms: u64,
) -> outcome::OutcomeView {
    outcome::OutcomeView {
        foreach_token_id: None,
        body_index: 0,
        success: true,
        cap_urns,
        failed_token_id: None,
        error: None,
        failed_arg_urn: None,
        title: None,
        saved_paths: outcome::all_paths(writers.order(), writers@),
        total_bytes: outcome::all_written(writers.order(), writers@) as usize,
        duration_ms: ms,
        item_preview_text: None,
        item_byte_count: 0,
    }
}

/// The outcome of a trunk that is the whole pipeline (a plan without ForEach).
/// Where regions exist there is none: the per-item bodies are the outcomes, and
/// one of the trunk would render as a phantom extra item.
pub fn trunk_outcome(cap_urns: Vec<String>, writers: &Table<Vec<WriterResult>>, ms: u64) -> (o:
    BodyOutcome)
    requires
        outcome::all_written(writers.order(), writers@) <= usize::MAX,
    ensures
        o@ == trunk_view(text::views(cap_urns@), *writers, ms),
{
    BodyOutcome {
        foreach_token_id: None,
        body_index: 0,
        success: true,
        cap_urns,
        failed_token_id: None,
        error: None,
        failed_arg_urn: None,
        title: None,
        saved_paths: total_paths(writers),
        total_bytes: total_written(writers),
        duration_ms: ms,
        item_preview_text: None,
        item_byte_count: 0,
    }
}

// ---------------------------------------------------------------------------
// Regions
// ---------------------------------------------------------------------------
/// Where a region takes its items from.
pub enum RegionSource {
    /// A live reference that feeds the region directly: the HOST opens the
    /// device, and bodies dispatch per item WHILE the capture runs.
    Live,
    /// Bounded in-memory output.
    Memory(Vec<Vec<u8>>),
    /// A spool file (an unbounded stream that ended when its feed stopped):
    /// items are streamed from the file, so the whole capture is never
    /// memory-resident.
    Spool(String),
}

pub open spec fn both_recorded_text(fe_id: Seq<char>, input: Seq<char>) -> Seq<char> {
    "ForEach region '"@ + fe_id + "' input '"@ + input
        + "' is recorded BOTH in memory                          and as a spool file — the executor must record exactly one"@
}

pub open spec fn no_region_data_text(
    fe_id: Seq<char>,
    input: Seq<char>,
    have: Seq<Seq<char>>,
) -> Seq<char> {
    "ForEach region '"@ + fe_id + "' input '"@ + input + "' produced no data (have: "@
        + text::debug_list(have) + ")"@
}

/// Copy the keys of a table.
fn table_keys<V>(t: &Table<V>) -> (r: Vec<String>)
    ensures
        text::views(r@) == t.order(),
{
    let n: usize = t.len();
    let mut r: Vec<String> = Vec::new();
    let mut i: usize = 0;
    assert(text::views(r@) =~= t.order().take(0));
    while i < n
        invariant
            n == t.order().len(),
            i <= n,
            text::views(r@) == t.order().take(i as int),
        decreases n - i,
    {
        let ghost before = text::views(r@);
        let key = t.key_at(i).clone();
        let ghost name = key@;
        r.push(key);
        proof {
            assert(text::views(r@) =~= before.push(name));
            assert(t.order().take(i + 1) =~= t.order().take(i as int).push(name));
        }
        i = i + 1;
    }
    assert(t.order().take(i as int) =~= t.order());
    r
}

/// The failure of a live source whose selector does not parse.
pub fn bad_selector(reference_urn: &str, fe_id: &str, why: &str) -> (e: ExecutionError)
    ensures
        spool::host_error(
            e,
            "live source '"@ + reference_urn@ + "' feeding ForEach region '"@ + fe_id@ + "': "@
                + why@,
        ),
{
    ExecutionError::HostError(
        "live source '".to_owned().concat(reference_urn).concat("' feeding ForEach region '").concat(
            fe_id,
        ).concat("': ").concat(why),
    )
}

/// The failure of a device that the host could not open.
pub fn capture_failed(fe_id: &str, why: &str) -> (e: ExecutionError)
    ensures
        spool::host_error(e, "host capture for ForEach region '"@ + fe_id@ + "': "@ + why@),
{
    ExecutionError::HostError(
        "host capture for ForEach region '".to_owned().concat(fe_id).concat("': ").concat(why),
    )
}

/// The failure of a sub-plan that does not resolve to a graph.
pub fn graph_failed(why: &str) -> (e: ExecutionError)
    ensures
        spool::host_error(e, "plan → resolved graph: "@ + why@),
{
    ExecutionError::HostError("plan → resolved graph: ".to_owned().concat(why))
}

/// The items that bodies left at a node, in body order.
pub open spec fn gathered(bodies: Seq<BodyResult>, node: Seq<char>) -> Seq<Seq<u8>>
    decreases bodies.len(),
{
    if bodies.len() == 0 {
        Seq::empty()
    } else {
        gathered(bodies.drop_last(), node) + (if bodies.last().node_data@.contains_key(node) {
            transport::byte_views(bodies.last().node_data@[node]@)
        } else {
            Seq::empty()
        })
    }
}

/// The writer results that bodies left at a sink, in body order.
pub open spec fn gathered_writers(bodies: Seq<BodyResult>, sink: Seq<char>) -> Seq<WriterResult>
    decreases bodies.len(),
{
    if bodies.len() == 0 {
        Seq::empty()
    } else {
        gathered_writers(bodies.drop_last(), sink) + listed(bodies.last().writers@, sink)
    }
}

fn gather(bodies: &Vec<BodyResult>, node: &str) -> (r: Vec<Vec<u8>>)
    ensures
        transport::byte_views(r@) == gathered(bodies@, node@),
{
    let mut r: Vec<Vec<u8>> = Vec::new();
    let mut i: usize = 0;
    proof {
        assert(bodies@.take(0) =~= Seq::<BodyResult>::empty());
        assert(transport::byte_views(r@) =~= Seq::<Seq<u8>>::empty());
    }
    while i < bodies.len()
        invariant
            i <= bodies@.len(),
            transport::byte_views(r@) == gathered(bodies@.take(i as int), node@),
        decreases bodies@.len() - i,
    {
        proof {
            assert(bodies@.take(i + 1).drop_last() =~= bodies@.take(i as int));
            assert(bodies@.take(i + 1).last() == bodies@[i as int]);
        }
        let ghost before = transport::byte_views(r@);
        if let Some(items) = bodies[i].node_data.get(node) {
            append_items(&mut r, items);
        }
        assert(before + Seq::<Seq<u8>>::empty() =~= before);
        i = i + 1;
    }
    assert(bodies@.take(i as int) =~= bodies@);
    r
}

/// The state once a region's bodies are collected: every body node's per-item
/// output is ONE sequence, and every sink has its bodies' writer results.
pub open spec fn region_absorbed(
    before: PlanState,
    region: Region,
    bodies: Seq<BodyResult>,
    after: PlanState,
) -> bool {
    let nodes = text::views(region.body_nodes@);
    &&& forall|k: Seq<char>| #[trigger]
        after.node_data@.contains_key(k) <==> before.node_data@.contains_key(k) || nodes.contains(k)
    &&& forall|k: Seq<char>| #[trigger]
        after.node_data@.contains_key(k) ==> if nodes.contains(k) {
            transport::byte_views(after.node_data@[k]@) == gathered(bodies, k)
        } else {
            after.node_data@[k] == before.node_data@[k]
        }
    &&& forall|k: Seq<char>| #[trigger]
        after.node_seq@.contains_key(k) <==> before.node_seq@.contains_key(k) || nodes.contains(k)
    &&& forall|k: Seq<char>| #[trigger]
        after.node_seq@.contains_key(k) ==> after.node_seq@[k] == if nodes.contains(k) {
            true
        } else {
            before.node_seq@[k]
        }
    &&& forall|k: Seq<char>| #[trigger]
        listed(after.node_writers@, k) == listed(before.node_writers@, k) + gathered_writers(
            bodies,
            k,
        )
    &&& after.node_spools == before.node_spools
}

impl PlanState {
    /// Where a region takes its items from. A region input present both in
    /// memory and as a spool is refused, never guessed at.
    pub fn region_source(&self, region: &Region, live: bool) -> (r: Result<
        RegionSource,
        ExecutionError,
    >)
        ensures
            ({
                let node = region.input_node@;
                if live {
                    r is Ok && r->Ok_0 is Live
                } else if self.node_data@.contains_key(node) {
                    if self.node_spools@.contains_key(node) {
                        r is Err && spool::host_error(
                            r->Err_0,
                            both_recorded_text(region.fe_id@, node),
                        )
                    } else {
                        r is Ok && r->Ok_0 is Memory && transport::byte_views(r->Ok_0->Memory_0@)
                            == transport::byte_views(self.node_data@[node]@)
                    }
                } else if self.node_spools@.contains_key(node) {
                    r is Ok && r->Ok_0 is Spool && r->Ok_0->Spool_0 == self.node_spools@[node]
                } else {
                    r is Err && spool::host_error(
                        r->Err_0,
                        no_region_data_text(region.fe_id@, node, self.node_data.order()),
                    )
                }
            }),
    {
        if live {
            return Ok(RegionSource::Live);
        }
        let node = region.input_node.as_str();
        match self.node_data.get(node) {
            Some(items) => {
                if self.node_spools.contains_key(node) {
                    return Err(
                        ExecutionError::HostError(
                            "ForEach region '".to_owned().concat(region.fe_id.as_str()).concat(
                                "' input '",
                            ).concat(node).concat(
                                "' is recorded BOTH in memory                          and as a spool file — the executor must record exactly one",
                            ),
                        ),
                    );
                }
                Ok(RegionSource::Memory(clone_items(items)))
            },
            None => match self.node_spools.get(node) {
                Some(path) => Ok(RegionSource::Spool(path.clone())),
                None => {
                    let have = table_keys(&self.node_data);
                    Err(
                        ExecutionError::HostError(
                            "ForEach region '".to_owned().concat(region.fe_id.as_str()).concat(
                                "' input '",
                            ).concat(node).concat("' produced no data (have: ").concat(
                                list_debug(&have).as_str(),
                            ).concat(")"),
                        ),
                    )
                },
            },
        }
    }

    /// Collect a region's bodies: accumulate each body node's per-item output
    /// into a sequence — structurally one, whatever the item count — and the
    /// bodies' writer results by sink.
    pub fn absorb_region(&mut self, region: &Region, bodies: Vec<BodyResult>)
        ensures
            region_absorbed(*old(self), *region, bodies@, *final(self)),
    {
        let ghost before = *self;
        let ghost nodes = text::views(region.body_nodes@);
        let ghost all = bodies@;
        let mut i: usize = 0;
        while i < region.body_nodes.len()
            invariant
                i <= region.body_nodes@.len(),
                nodes == text::views(region.body_nodes@),
                all == bodies@,
                forall|k: Seq<char>| #[trigger]
                    self.node_data@.contains_key(k) <==> before.node_data@.contains_key(k)
                        || nodes.take(i as int).contains(k),
                forall|k: Seq<char>| #[trigger]
                    self.node_data@.contains_key(k) ==> if nodes.take(i as int).contains(k) {
                        transport::byte_views(self.node_data@[k]@) == gathered(all, k)
                    } else {
                        self.node_data@[k] == before.node_data@[k]
                    },
                forall|k: Seq<char>| #[trigger]
                    self.node_seq@.contains_key(k) <==> before.node_seq@.contains_key(k)
                        || nodes.take(i as int).contains(k),
                forall|k: Seq<char>| #[trigger]
                    self.node_seq@.contains_key(k) ==> self.node_seq@[k] == if nodes.take(
                        i as int,
                    ).contains(k) {
                        true
                    } else {
                        before.node_seq@[k]
                    },
                self.node_writers == before.node_writers,
                self.node_spools == before.node_spools,
            decreases region.body_nodes@.len() - i,
        {
            proof {
                regions::lemma_take_more(nodes, i as int);
            }
            let items = gather(&bodies, region.body_nodes[i].as_str());
            self.node_data.insert(region.body_nodes[i].clone(), items);
            self.node_seq.insert(region.body_nodes[i].clone(), true);
            i = i + 1;
        }
        proof {
            assert(nodes.take(i as int) =~= nodes);
        }
        let mut rest = bodies;
        let ghost mut done: int = 0;
        proof {
            assert(all.skip(0) =~= all);
            assert(all.take(0) =~= Seq::<BodyResult>::empty());
            assert forall|k: Seq<char>| #[trigger]
                listed(self.node_writers@, k) == listed(before.node_writers@, k)
                    + gathered_writers(all.take(0), k) by {
                assert(listed(before.node_writers@, k) + Seq::<WriterResult>::empty() =~= listed(
                    before.node_writers@,
                    k,
                ));
            }
        }
        let ghost data = self.node_data;
        let ghost seq = self.node_seq;
        while rest.len() > 0
            invariant
                0 <= done <= all.len(),
                rest@ == all.skip(done),
                self.node_data == data,
                self.node_seq == seq,
                self.node_spools == before.node_spools,
                forall|k: Seq<char>| #[trigger]
                    listed(self.node_writers@, k) == listed(before.node_writers@, k)
                        + gathered_writers(all.take(done), k),
            decreases rest@.len(),
        {
            let ghost was = self.node_writers@;
            let body = rest.remove(0);
            let ghost more = body.writers@;
            proof {
                assert(rest@ =~= all.skip(done + 1));
                assert(body == all[done]);
                assert(all.take(done + 1).drop_last() =~= all.take(done));
                assert(all.take(done + 1).last() == body);
            }
            extend_lists(&mut self.node_writers, body.writers);
            proof {
                assert forall|k: Seq<char>| #[trigger]
                    listed(self.node_writers@, k) == listed(before.node_writers@, k)
                        + gathered_writers(all.take(done + 1), k) by {
                    assert(listed(was, k) == listed(before.node_writers@, k) + gathered_writers(
                        all.take(done),
                        k,
                    ));
                    assert(listed(self.node_writers@, k) =~= listed(before.node_writers@, k) + (
                    gathered_writers(all.take(done), k) + listed(more, k)));
                }
                done = done + 1;
            }
        }
        assert(all.take(done) =~= all);
    }
}

// ---------------------------------------------------------------------------
// The post-region segment
// ---------------------------------------------------------------------------
/// Whether an edge brings data into the post-region segment from outside.
pub open spec fn enters_post(e: MachinePlanEdge, post: Seq<Seq<char>>) -> bool {
    post.contains(e.to_node@) && !post.contains(e.from_node@)
}

/// Why a node cannot seed the post-region segment.
pub open spec fn root_fault(s: PlanState, node: Seq<char>) -> Option<Seq<char>> {
    if !s.node_data@.contains_key(node) {
        Some(
            if s.node_spools@.contains_key(node) {
                "post-region segment needs '"@ + node
                    + "', but that node is an UNBOUNDED intermediate spooled to disk — a spooled stream cannot cross into the post-region segment; consume it within its own segment or restructure the machine"@
            } else {
                "post-region segment needs '"@ + node + "' but it produced no data"@
            },
        )
    } else if !s.node_seq@.contains_key(node) {
        Some(
            "post-region segment root '"@ + node
                + "' has no sequence flag — a producer completed without recording its cardinality"@,
        )
    } else if !s.node_seq@[node] && s.node_data@[node]@.len() == 0 {
        Some("post-region root '"@ + node + "' holds no items"@)
    } else {
        None
    }
}

/// Whether `root` is what a node seeds the post-region segment with.
pub open spec fn is_root(s: PlanState, node: Seq<char>, root: (PlanInput, bool)) -> bool {
    &&& root_fault(s, node) is None
    &&& root.1 == s.node_seq@[node]
    &&& root.0 is Bytes
    &&& root.0->Bytes_0@ == dag::materialised(s.node_data@[node]@, s.node_seq@[node])
}

/// Whether an edge among the first `n` brings a node into the post-region
/// segment.
pub open spec fn needed(
    edges: Seq<MachinePlanEdge>,
    post: Seq<Seq<char>>,
    n: int,
    node: Seq<char>,
) -> bool {
    exists|i: int|
        0 <= i < n && enters_post(#[trigger] edges[i], post) && edges[i].from_node@ == node
}

impl PlanState {
    fn post_root(&self, from: &String) -> (r: Result<(PlanInput, bool), ExecutionError>)
        ensures
            match r {
                Ok(root) => is_root(*self, from@, root),
                Err(e) => root_fault(*self, from@) is Some && spool::host_error(
                    e,
                    root_fault(*self, from@)->0,
                ),
            },
    {
        let node = from.as_str();
        let items = match self.node_data.get(node) {
            Some(i) => i,
            None => {
                let message = if self.node_spools.contains_key(node) {
                    "post-region segment needs '".to_owned().concat(node).concat(
                        "', but that node is an UNBOUNDED intermediate spooled to disk — a spooled stream cannot cross into the post-region segment; consume it within its own segment or restructure the machine",
                    )
                } else {
                    "post-region segment needs '".to_owned().concat(node).concat(
                        "' but it produced no data",
                    )
                };
                return Err(ExecutionError::HostError(message));
            },
        };
        let is_seq: bool = match self.node_seq.get(node) {
            Some(b) => *b,
            None => {
                return Err(
                    ExecutionError::HostError(
                        "post-region segment root '".to_owned().concat(node).concat(
                            "' has no sequence flag — a producer completed without recording its cardinality",
                        ),
                    ),
                );
            },
        };
        if !is_seq && items.len() == 0 {
            return Err(
                ExecutionError::HostError(
                    "post-region root '".to_owned().concat(node).concat("' holds no items"),
                ),
            );
        }
        let bytes = if is_seq {
            match wrap_raw_items_as_cbor_sequence(items) {
                Ok(b) => b,
                Err(_) => Vec::new(),
            }
        } else {
            clone_bytes(&items[0])
        };
        Ok((PlanInput::Bytes(bytes), is_seq))
    }

    /// The roots of the post-region segment: every external producer (region
    /// body node, trunk cap, input slot), materialised from what was
    /// accumulated — a region node's per-item output enters as ONE sequence.
    pub fn post_roots(&self, plan: &MachinePlan, post_ids: &Vec<String>) -> (r: Result<
        Table<(PlanInput, bool)>,
        ExecutionError,
    >)
        ensures
            ({
                let post = text::views(post_ids@);
                match r {
                    Ok(roots) => {
                        &&& forall|k: Seq<char>| #[trigger]
                            roots@.contains_key(k) <==> needed(
                                plan.edges@,
                                post,
                                plan.edges@.len() as int,
                                k,
                            )
                        &&& forall|k: Seq<char>| #[trigger]
                            roots@.contains_key(k) ==> is_root(*self, k, roots@[k])
                    },
                    Err(e) => exists|i: int|
                        #![trigger plan.edges@[i]]
                        {
                            &&& 0 <= i < plan.edges@.len()
                            &&& enters_post(plan.edges@[i], post)
                            &&& root_fault(*self, plan.edges@[i].from_node@) is Some
                            &&& spool::host_error(
                                e,
                                root_fault(*self, plan.edges@[i].from_node@)->0,
                            )
                            &&& forall|k: Seq<char>|
                                needed(plan.edges@, post, i, k) ==> #[trigger] root_fault(
                                    *self,
                                    k,
                                ) is None
                        },
                }
            }),
    {
        let ghost post = text::views(post_ids@);
        let edges = &plan.edges;
        let mut roots: Table<(PlanInput, bool)> = Table::new();
        let mut i: usize = 0;
        while i < edges.len()
            invariant
                i <= edges@.len(),
                edges@ == plan.edges@,
                post == text::views(post_ids@),
                forall|k: Seq<char>| #[trigger]
                    roots@.contains_key(k) <==> needed(edges@, post, i as int, k),
                forall|k: Seq<char>| #[trigger]
                    roots@.contains_key(k) ==> is_root(*self, k, roots@[k]),
            decreases edges@.len() - i,
        {
            let ghost from = edges@[i as int].from_node@;
            let ghost before = roots@;
            let enters = lists(post_ids, edges[i].to_node.as_str()) && !lists(
                post_ids,
                edges[i].from_node.as_str(),
            );
            if enters && !roots.contains_key(edges[i].from_node.as_str()) {
                match self.post_root(&edges[i].from_node) {
                    Ok(root) => {
                        roots.insert(edges[i].from_node.clone(), root);
                    },
                    Err(e) => {
                        proof {
                            assert(enters_post(plan.edges@[i as int], post));
                            assert forall|k: Seq<char>|
                                needed(plan.edges@, post, i as int, k) implies #[trigger] root_fault(
                                *self,
                                k,
                            ) is None by {
                                assert(roots@.contains_key(k));
                            }
                        }
                        return Err(e);
                    },
                }
            }
            proof {
                assert forall|k: Seq<char>| #[trigger] roots@.contains_key(k) <==> needed(
                    edges@,
                    post,
                    i + 1,
                    k,
                ) by {
                    assert(before.contains_key(k) <==> needed(edges@, post, i as int, k));
                    if needed(edges@, post, i as int, k) {
                        let j = choose|j: int|
                            0 <= j < i && enters_post(#[trigger] edges@[j], post)
                                && edges@[j].from_node@ == k;
                        assert(enters_post(edges@[j], post));
                        assert(needed(edges@, post, i + 1, k));
                    }
                    if enters && k == from {
                        assert(enters_post(edges@[i as int], post));
                        assert(needed(edges@, post, i + 1, k));
                    }
                    if needed(edges@, post, i + 1, k) {
                        let j = choose|j: int|
                            0 <= j < i + 1 && enters_post(#[trigger] edges@[j], post)
                                && edges@[j].from_node@ == k;
                        if j < i {
                            assert(enters_post(edges@[j], post));
                            assert(needed(edges@, post, i as int, k));
                        }
                    }
                }
            }
            i = i + 1;
        }
        Ok(roots)
    }
}

// ---------------------------------------------------------------------------
// Terminals
// ---------------------------------------------------------------------------
/// Whether a writer wrote a sequence.
pub open spec fn any_sequence(ws: Seq<WriterResult>) -> bool {
    exists|i: int| 0 <= i < ws.len() && (#[trigger] ws[i]).is_sequence
}

/// The contents of output items, each at its index.
pub open spec fn indexed(items: Seq<OutputItem>, data: Seq<Seq<u8>>) -> bool {
    &&& items.len() == data.len()
    &&& forall|i: int|
        0 <= i < items.len() ==> (#[trigger] items[i]).data@ == data[i] && items[i].index == i
}

impl PlanState {
    /// Assemble a terminal from what was accumulated at its producer: writer
    /// results where there are any, else the items in memory. A region's
    /// per-item output is structurally a sequence.
    pub fn take_terminal(
        &mut self,
        output_node_id: &String,
        source: &String,
        in_region: bool,
        producer_is_sequence: bool,
        media_urn: String,
    ) -> (r: Result<TerminalOutput, ExecutionError>)
        ensures
            final(self).node_writers@ == old(self).node_writers@.remove(source@),
            *final(self) == (PlanState { node_writers: final(self).node_writers, ..*old(self) }),
            ({
                let ws = listed(old(self).node_writers@, source@);
                if ws.len() > 0 {
                    r is Ok && r->Ok_0.output_node_id == *output_node_id && r->Ok_0.items@.len()
                        == 0 && r->Ok_0.is_sequence == (in_region || any_sequence(ws))
                        && r->Ok_0.media_urn == media_urn && r->Ok_0.writer_results@ == ws
                } else if old(self).node_data@.contains_key(source@) {
                    r is Ok && r->Ok_0.output_node_id == *output_node_id && indexed(
                        r->Ok_0.items@,
                        transport::byte_views(old(self).node_data@[source@]@),
                    ) && r->Ok_0.is_sequence == (in_region || producer_is_sequence)
                        && r->Ok_0.media_urn == media_urn && r->Ok_0.writer_results@.len() == 0
                } else {
                    r is Err && spool::host_error(
                        r->Err_0,
                        "terminal '"@ + output_node_id@ + "' source '"@ + source@
                            + "' produced no data"@,
                    )
                }
            }),
            // Persisted results stand for the node's data; without any, every item
            // does, at its own index.
            old(self).node_writers@.contains_key(source@) && old(
                self,
            ).node_writers@[source@]@.len() > 0 ==> r is Ok && r->Ok_0.writer_results@ == old(
                self,
            ).node_writers@[source@]@ && r->Ok_0.items@.len() == 0 && (r->Ok_0.is_sequence
                <==> in_region || exists|i: int|
                0 <= i < r->Ok_0.writer_results@.len() && (
                #[trigger] r->Ok_0.writer_results@[i]).is_sequence),
            !(old(self).node_writers@.contains_key(source@) && old(
                self,
            ).node_writers@[source@]@.len() > 0) ==> {
                &&& r is Ok <==> old(self).node_data@.contains_key(source@)
                &&& r is Ok ==> r->Ok_0.writer_results@.len() == 0 && r->Ok_0.items@.len() == old(
                    self,
                ).node_data@[source@]@.len()
                &&& r is Ok ==> forall|i: int|
                    0 <= i < r->Ok_0.items@.len() ==> (#[trigger] r->Ok_0.items@[i]).data@ == old(
                        self,
                    ).node_data@[source@]@[i]@ && r->Ok_0.items@[i].index == i
            },
    {
        let writers: Vec<WriterResult> = match self.node_writers.remove(source.as_str()) {
            Some(w) => w,
            None => Vec::new(),
        };
        if writers.len() > 0 {
            let mut any: bool = false;
            let mut i: usize = 0;
            while i < writers.len()
                invariant
                    i <= writers@.len(),
                    any == exists|j: int| 0 <= j < i && (#[trigger] writers@[j]).is_sequence,
                decreases writers@.len() - i,
            {
                if writers[i].is_sequence {
                    assert(writers@[i as int].is_sequence);
                    any = true;
                }
                i = i + 1;
            }
            return Ok(
                TerminalOutput {
                    output_node_id: output_node_id.clone(),
                    items: Vec::new(),
                    is_sequence: in_region || any,
                    media_urn,
                    writer_results: writers,
                },
            );
        }
        let data = match self.node_data.get(source.as_str()) {
            Some(d) => d,
            None => {
                return Err(
                    ExecutionError::HostError(
                        "terminal '".to_owned().concat(output_node_id.as_str()).concat(
                            "' source '",
                        ).concat(source.as_str()).concat("' produced no data"),
                    ),
                );
            },
        };
        let mut items: Vec<OutputItem> = Vec::new();
        let mut i: usize = 0;
        while i < data.len()
            invariant
                i <= data@.len(),
                items@.len() == i,
                forall|j: int|
                    0 <= j < i ==> (#[trigger] items@[j]).data@ == data@[j]@ && items@[j].index
                        == j,
            decreases data@.len() - i,
        {
            items.push(OutputItem { data: clone_bytes(&data[i]), index: i });
            i = i + 1;
        }
        Ok(
            TerminalOutput {
                output_node_id: output_node_id.clone(),
                items,
                is_sequence: in_region || producer_is_sequence,
                media_urn,
                writer_results: Vec::new(),
            },
        )
    }
}

/// The capability to look up for a terminal's media, where its producer is one.
pub fn terminal_cap<'a>(plan: &'a MachinePlan, source_node: &str) -> (r: Option<&'a String>)
    ensures
        match r {
            Some(urn) => crate::plan::is_cap_node(plan.nodes@, source_node@) && urn@
                == regions::cap_urn_at(plan.nodes@, source_node@),
            None => !crate::plan::is_cap_node(plan.nodes@, source_node@),
        },
{
    match plan.nodes.get(source_node) {
        Some(n) => match &n.node_type {
            ExecutionNodeType::Cap { cap_urn } => Some(cap_urn),
            _ => None,
        },
        None => None,
    }
}

/// How a node that produces no data reads.
pub open spec fn node_debug_text(t: ExecutionNodeType) -> Seq<char> {
    match t {
        ExecutionNodeType::Output { output_name, source_node } => "Output { output_name: "@
            + text::debug_str(output_name@) + ", source_node: "@ + text::debug_str(source_node@)
            + " }"@,
        ExecutionNodeType::ForEach { token_id, input_node, body_entry, body_exit } => {
            "ForEach { token_id: "@ + text::debug_str(token_id@) + ", input_node: "@
                + text::debug_str(input_node@) + ", body_entry: "@ + text::debug_str(body_entry@)
                + ", body_exit: "@ + text::debug_str(body_exit@) + " }"@
        },
        ExecutionNodeType::Collect { output_media_urn } => match output_media_urn {
            Some(urn) => "Collect { output_media_urn: Some("@ + text::debug_str(urn@) + ") }"@,
            None => "Collect { output_media_urn: None }"@,
        },
        _ => Seq::empty(),
    }
}

/// The media URN of a terminal's producer, or why there is none. `found` is
/// what looking up its capability gave.
pub open spec fn producer_media(
    plan: MachinePlan,
    source_node: Seq<char>,
    found: Result<&Cap, String>,
) -> Result<Seq<char>, Seq<char>> {
    if !plan.nodes@.contains_key(source_node) {
        Err("terminal source '"@ + source_node + "' not in plan"@)
    } else {
        match plan.nodes@[source_node].node_type {
            ExecutionNodeType::Cap { cap_urn } => match found {
                Ok(c) => Ok(urn::tag_or(c.urn@, "out"@, "media:"@)),
                Err(why) => Err(
                    "resolve cap '"@ + cap_urn@ + "' for terminal media: "@ + why@,
                ),
            },
            ExecutionNodeType::InputSlot { expected_media_urn, .. } => Ok(expected_media_urn@),
            other => Err(
                "terminal source '"@ + source_node + "' is not a data producer: "@
                    + node_debug_text(other),
            ),
        }
    }
}

fn node_debug(t: &ExecutionNodeType) -> (r: String)
    ensures
        r@ == node_debug_text(*t),
{
    match t {
        ExecutionNodeType::Output { output_name, source_node } => "Output { output_name: ".to_owned().concat(
        string_debug(output_name.as_str()).as_str()).concat(", source_node: ").concat(
            string_debug(source_node.as_str()).as_str(),
        ).concat(" }"),
        ExecutionNodeType::ForEach { token_id, input_node, body_entry, body_exit } => {
            "ForEach { token_id: ".to_owned().concat(
                string_debug(token_id.as_str()).as_str(),
            ).concat(", input_node: ").concat(string_debug(input_node.as_str()).as_str()).concat(
                ", body_entry: ",
            ).concat(string_debug(body_entry.as_str()).as_str()).concat(", body_exit: ").concat(
                string_debug(body_exit.as_str()).as_str(),
            ).concat(" }")
        },
        ExecutionNodeType::Collect { output_media_urn } => match output_media_urn {
            Some(urn) => "Collect { output_media_urn: Some(".to_owned().concat(
                string_debug(urn.as_str()).as_str(),
            ).concat(") }"),
            None => "Collect { output_media_urn: None }".to_owned(),
        },
        _ => {
            let none = String::new();
            assert(none@ =~= Seq::<char>::empty());
            none
        },
    }
}

/// The media URN a producer node emits: a cap's output spec, or an input slot's
/// media. `found` is what looking up the cap of `terminal_cap` gave.
pub fn terminal_media(plan: &MachinePlan, source_node: &str, found: Result<&Cap, String>) -> (r:
    Result<String, ExecutionError>)
    ensures
        match producer_media(*plan, source_node@, found) {
            Ok(media) => r is Ok && r->Ok_0@ == media,
            Err(text) => r is Err && spool::host_error(r->Err_0, text),
        },
        r is Ok ==> plan.nodes@.contains_key(source_node@) && match plan.nodes@[
            source_node@
        ].node_type {
            ExecutionNodeType::Cap { .. } => found is Ok && r->Ok_0@ == (if
            found->Ok_0.urn@.contains_key("out"@) && found->Ok_0.urn@["out"@] is Some {
                found->Ok_0.urn@["out"@]->Some_0
            } else {
                "media:"@
            }),
            ExecutionNodeType::InputSlot { expected_media_urn, .. } => r->Ok_0
                == expected_media_urn,
            _ => false,
        },
        plan.nodes@.contains_key(source_node@) && (plan.nodes@[source_node@].node_type is InputSlot
            || plan.nodes@[source_node@].node_type is Cap && found is Ok) ==> r is Ok,
{
    let node = match plan.nodes.get(source_node) {
        Some(n) => n,
        None => {
            return Err(
                ExecutionError::HostError(
                    "terminal source '".to_owned().concat(source_node).concat("' not in plan"),
                ),
            );
        },
    };
    match &node.node_type {
        ExecutionNodeType::Cap { cap_urn } => match found {
            Ok(c) => Ok(c.urn.out_spec()),
            Err(why) => Err(
                ExecutionError::HostError(
                    "resolve cap '".to_owned().concat(cap_urn.as_str()).concat(
                        "' for terminal media: ",
                    ).concat(why.as_str()),
                ),
            ),
        },
        ExecutionNodeType::InputSlot { expected_media_urn, .. } => Ok(expected_media_urn.clone()),
        other => Err(
            ExecutionError::HostError(
                "terminal source '".to_owned().concat(source_node).concat(
                    "' is not a data producer: ",
                ).concat(node_debug(other).as_str()),
            ),
        ),
    }
}

/// Whether a producer emits a sequence: a cap by its output cardinality, an
/// input slot by its declared cardinality.
pub open spec fn emits_sequence(plan: MachinePlan, caps: Map<Seq<char>, Cap>, node: Seq<char>) -> bool {
    plan.nodes@.contains_key(node) && match plan.nodes@[node].node_type {
        ExecutionNodeType::Cap { cap_urn } => caps.contains_key(cap_urn@)
            && cap::output_is_sequence(caps[cap_urn@]),
        ExecutionNodeType::InputSlot { cardinality, .. } => cardinality
            == InputCardinality::Sequence,
        _ => false,
    }
}

/// Whether a (trunk) producer emits a sequence. `caps` holds the known
/// capabilities by URN.
pub fn producer_is_sequence(plan: &MachinePlan, caps: &Table<Cap>, node: &str) -> (r: bool)
    ensures
        r == emits_sequence(*plan, caps@, node@),
        r ==> plan.nodes@.contains_key(node@) && match plan.nodes@[node@].node_type {
            ExecutionNodeType::Cap { cap_urn } => caps@.contains_key(cap_urn@)
                && caps@[cap_urn@].output is Some && caps@[cap_urn@].output->0.is_sequence,
            ExecutionNodeType::InputSlot { cardinality, .. } => cardinality
                == InputCardinality::Sequence,
            _ => false,
        },
        !r && plan.nodes@.contains_key(node@) ==> match plan.nodes@[node@].node_type {
            ExecutionNodeType::Cap { cap_urn } => caps@.contains_key(cap_urn@)
                && caps@[cap_urn@].output is Some ==> !caps@[cap_urn@].output->0.is_sequence,
            ExecutionNodeType::InputSlot { cardinality, .. } => cardinality
                != InputCardinality::Sequence,
            _ => true,
        },
{
    match plan.nodes.get(node) {
        Some(n) => match &n.node_type {
            ExecutionNodeType::Cap { cap_urn } => match caps.get(cap_urn.as_str()) {
                Some(c) => c.sequence_shape().1,
                None => false,
            },
            ExecutionNodeType::InputSlot { cardinality, .. } => *cardinality
                == InputCardinality::Sequence,
            _ => false,
        },
        None => false,
    }
}

// ---------------------------------------------------------------------------
// Segments
// ---------------------------------------------------------------------------
/// How a plan is cut into segments.
pub struct PlanSegments {
    /// The plan's terminals — `Output` node and its producer — ordered by id.
    pub outputs: Vec<(String, String)>,
    /// The ForEach regions, ordered by id.
    pub regions: Vec<Region>,
    /// Every cap inside a region.
    pub region_nodes: Vec<String>,
    /// The caps that consume region output (the fold and everything after it):
    /// they run AFTER the regions, in their own segment.
    pub post_ids: Vec<String>,
    /// What runs first: neither region caps nor post-region caps.
    pub trunk: MachinePlan,
}

impl PlanSegments {
    /// The outcome to record for the trunk: one where the trunk is the whole
    /// pipeline, none where regions exist.
    pub fn trunk_record(&self, writers: &Table<Vec<WriterResult>>, ms: u64) -> (r: Option<
        BodyOutcome,
    >)
        requires
            outcome::all_written(writers.order(), writers@) <= usize::MAX,
        ensures
            match r {
                None => self.regions@.len() > 0,
                Some(o) => {
                    &&& self.regions@.len() == 0
                    &&& o@ == trunk_view(
                        cap_urns_of(self.trunk, self.trunk.nodes.order()),
                        *writers,
                        ms,
                    )
                },
            },
    {
        if self.regions.len() > 0 {
            None
        } else {
            Some(trunk_outcome(subplan_cap_urns(&self.trunk), writers, ms))
        }
    }
}

/// The nodes of regions, region after region.
pub open spec fn all_body_nodes(regions: Seq<Region>) -> Seq<Seq<char>>
    decreases regions.len(),
{
    if regions.len() == 0 {
        Seq::empty()
    } else {
        all_body_nodes(regions.drop_last()) + text::views(regions.last().body_nodes@)
    }
}

fn body_nodes_of(regions: &Vec<Region>) -> (r: Vec<String>)
    ensures
        text::views(r@) == all_body_nodes(regions@),
{
    let mut r: Vec<String> = Vec::new();
    let mut i: usize = 0;
    proof {
        assert(regions@.take(0) =~= Seq::<Region>::empty());
        assert(text::views(r@) =~= Seq::<Seq<char>>::empty());
    }
    while i < regions.len()
        invariant
            i <= regions@.len(),
            text::views(r@) == all_body_nodes(regions@.take(i as int)),
        decreases regions@.len() - i,
    {
        proof {
            assert(regions@.take(i + 1).drop_last() =~= regions@.take(i as int));
            assert(regions@.take(i + 1).last() == regions@[i as int]);
        }
        append_strings(&mut r, &regions[i].body_nodes);
        i = i + 1;
    }
    assert(regions@.take(i as int) =~= regions@);
    r
}

/// Whether a plan is cut as its edges and regions demand.
pub open spec fn is_cut(plan: MachinePlan, s: PlanSegments) -> bool {
    let region_nodes = text::views(s.region_nodes@);
    let excluded = region_nodes + text::views(s.post_ids@);
    let ids = regions::trunk_ids(plan.nodes@, plan.nodes.order(), excluded);
    &&& region_nodes == all_body_nodes(s.regions@)
    &&& forall|id: Seq<char>| #[trigger]
        text::views(s.post_ids@).contains(id) <==> regions::is_post_region(plan, region_nodes, id)
    &&& s.trunk.nodes@ == regions::picked(plan.nodes@, ids)
    &&& s.trunk.edges@ == regions::kept(regions::EdgeRule::Among(ids), plan.edges@)
}

/// Cut a plan into its trunk, its ForEach regions and what runs on their
/// collected output. `caps` holds the known capabilities by URN, `media` the
/// element type of every iterated node.
pub fn cut_plan(plan: &MachinePlan, caps: &Table<Cap>, media: &ItemMedia) -> (r: Result<
    PlanSegments,
    ExecutionError,
>)
    requires
        regions::covers_foreach(*plan, media@),
    ensures
        match r {
            Ok(s) => {
                &&& s.outputs@.len() > 0
                &&& text::sorted(output_ids(s.outputs@))
                &&& output_ids(s.outputs@).no_duplicates()
                &&& forall|id: Seq<char>| #[trigger]
                    output_ids(s.outputs@).contains(id) <==> is_output(*plan, id)
                &&& forall|i: int|
                    0 <= i < s.outputs@.len() ==> (#[trigger] s.outputs@[i]).1@ == output_source(
                        *plan,
                        s.outputs@[i].0@,
                    )
                &&& text::sorted(regions::region_ids(s.regions@))
                &&& regions::region_ids(s.regions@).no_duplicates()
                &&& forall|id: Seq<char>| #[trigger]
                    regions::region_ids(s.regions@).contains(id) <==> regions::is_foreach(*plan, id)
                &&& forall|i: int|
                    0 <= i < s.regions@.len() ==> regions::is_region(
                        *plan,
                        caps@,
                        media@,
                        #[trigger] s.regions@[i],
                    )
                &&& forall|id: Seq<char>, text: Seq<char>|
                    regions::is_foreach(*plan, id) ==> !#[trigger] regions::region_fault(
                        *plan,
                        caps@,
                        media@,
                        id,
                        text,
                    )
                &&& is_cut(*plan, s)
            },
            Err(e) => {
                ||| spool::host_error(e, "plan has no Output node"@) && forall|id: Seq<char>|
                    !#[trigger] is_output(*plan, id)
                ||| exists|id: Seq<char>, text: Seq<char>|
                    regions::is_foreach(*plan, id) && #[trigger] regions::region_fault(
                        *plan,
                        caps@,
                        media@,
                        id,
                        text,
                    ) && spool::host_error(e, text)
            },
        },
{
    let outputs = match plan_outputs(plan) {
        Ok(o) => o,
        Err(e) => {
            return Err(e);
        },
    };
    let regions = match compute_regions(plan, caps, media) {
        Ok(r) => r,
        Err(e) => {
            return Err(e);
        },
    };
    let region_nodes = body_nodes_of(&regions);
    let post_ids = compute_post_region_caps(plan, &region_nodes);
    let mut excluded = clone_strings(&region_nodes);
    append_strings(&mut excluded, &post_ids);
    let trunk = build_trunk_subplan(plan, &excluded);
    Ok(PlanSegments { outputs, regions, region_nodes, post_ids, trunk })
}

/// Whether a cap is in the body of the region at place `i`.
pub open spec fn runs_in_region(s: PlanSegments, i: int, id: Seq<char>) -> bool {
    0 <= i < s.regions@.len() && text::views(s.regions@[i].body_nodes@).contains(id)
}

proof fn lemma_body_node_has_a_region(regions: Seq<Region>, id: Seq<char>)
    requires
        all_body_nodes(regions).contains(id),
    ensures
        exists|i: int|
            0 <= i < regions.len() && text::views((#[trigger] regions[i]).body_nodes@).contains(id),
    decreases regions.len(),
{
    let before = all_body_nodes(regions.drop_last());
    let last = text::views(regions.last().body_nodes@);
    let k = choose|k: int| 0 <= k < (before + last).len() && (before + last)[k] == id;
    if k < before.len() {
        assert(before[k] == id);
        lemma_body_node_has_a_region(regions.drop_last(), id);
        let i = choose|i: int|
            0 <= i < regions.drop_last().len() && text::views(
                (#[trigger] regions.drop_last()[i]).body_nodes@,
            ).contains(id);
        assert(regions[i] == regions.drop_last()[i]);
    } else {
        assert(last[k - before.len()] == id);
        assert(regions[regions.len() - 1] == regions.last());
    }
}

/// A cut plan drops no cap and runs none twice: every cap of the plan is in a
/// region, in the post-region segment or in the trunk, and in one of them only.
/// A cap of a region is in the body of some listed region, and that region is
/// listed once.
pub proof fn a_cut_plan_runs_every_cap_once(plan: MachinePlan, s: PlanSegments, id: Seq<char>)
    requires
        is_cut(plan, s),
        regions::region_ids(s.regions@).no_duplicates(),
        regions::keyed_by_id(plan.nodes@),
        crate::plan::is_cap_node(plan.nodes@, id),
        plan.nodes.order().contains(id),
    ensures
        s.trunk.nodes@.contains_key(id) <==> !(all_body_nodes(s.regions@).contains(id)
            || text::views(s.post_ids@).contains(id)),
        !(all_body_nodes(s.regions@).contains(id) && text::views(s.post_ids@).contains(id)),
        all_body_nodes(s.regions@).contains(id) ==> exists|i: int| #[trigger]
            runs_in_region(s, i, id),
        forall|i: int, j: int| #[trigger]
            runs_in_region(s, i, id) && #[trigger] runs_in_region(s, j, id)
                && s.regions@[i].fe_id@ == s.regions@[j].fe_id@ ==> i == j,
{
    if all_body_nodes(s.regions@).contains(id) {
        lemma_body_node_has_a_region(s.regions@, id);
        let i = choose|i: int|
            0 <= i < s.regions@.len() && text::views(
                (#[trigger] s.regions@[i]).body_nodes@,
            ).contains(id);
        assert(runs_in_region(s, i, id));
    }
    assert forall|i: int, j: int| #[trigger]
        runs_in_region(s, i, id) && #[trigger] runs_in_region(s, j, id) && s.regions@[i].fe_id@
            == s.regions@[j].fe_id@ implies i == j by {
        let ids = regions::region_ids(s.regions@);
        assert(ids[i] == ids[j]);
    }
    let region_nodes = text::views(s.region_nodes@);
    let post = text::views(s.post_ids@);
    let excluded = region_nodes + post;
    let ids = regions::trunk_ids(plan.nodes@, plan.nodes.order(), excluded);
    assert forall|x: Seq<char>| #[trigger] excluded.contains(x) <==> region_nodes.contains(x)
        || regions::is_post_region(plan, region_nodes, x) by {
        if region_nodes.contains(x) {
            let i = choose|i: int| 0 <= i < region_nodes.len() && region_nodes[i] == x;
            assert(excluded[i] == x);
        }
        if post.contains(x) {
            let i = choose|i: int| 0 <= i < post.len() && post[i] == x;
            assert(excluded[region_nodes.len() + i] == x);
        }
    }
    regions::every_cap_runs_in_one_segment(plan, region_nodes, excluded, id);
    regions::selection_keeps_the_nodes(plan.nodes@, ids);
}

/// A cap runs in one region at most, where every node has one producer and the
/// entries of the bodies are distinct and fed by their ForEach alone.
pub proof fn a_region_cap_runs_in_one_region(
    plan: MachinePlan,
    caps: Map<Seq<char>, Cap>,
    media: Map<Seq<char>, Result<String, String>>,
    s: PlanSegments,
    id: Seq<char>,
    i: int,
    j: int,
)
    requires
        forall|a: Seq<char>, b: Seq<char>, n: Seq<char>| #[trigger]
            regions::direct(plan.edges@, a, n) && #[trigger] regions::direct(plan.edges@, b, n)
                ==> a == b,
        forall|r: int, a: Seq<char>|
            0 <= r < s.regions@.len() ==> !#[trigger] regions::direct(
                plan.edges@,
                a,
                s.regions@[r].body_entry@,
            ),
        forall|x: int, y: int|
            0 <= x < y < s.regions@.len() ==> (#[trigger] s.regions@[x]).body_entry@ != (
            #[trigger] s.regions@[y]).body_entry@,
        forall|r: int|
            0 <= r < s.regions@.len() ==> regions::is_region(
                plan,
                caps,
                media,
                #[trigger] s.regions@[r],
            ),
        runs_in_region(s, i, id),
        runs_in_region(s, j, id),
    ensures
        i == j,
{
    if i != j {
        let a = s.regions@[i].body_entry@;
        let b = s.regions@[j].body_entry@;
        assert(a != b) by {
            if i < j {
                assert(s.regions@[i].body_entry@ != s.regions@[j].body_entry@);
            } else {
                assert(s.regions@[j].body_entry@ != s.regions@[i].body_entry@);
            }
        }
        assert(regions::is_region(plan, caps, media, s.regions@[i]));
        assert(regions::is_region(plan, caps, media, s.regions@[j]));
        regions::regions_are_disjoint(plan, caps, a, b, id);
    }
}

// ---------------------------------------------------------------------------
// What regions collect
// ---------------------------------------------------------------------------
/// The sum of counts.
pub open spec fn sum(counts: Seq<nat>) -> nat
    decreases counts.len(),
{
    if counts.len() == 0 {
        0
    } else {
        sum(counts.drop_last()) + counts.last()
    }
}

/// How many items each body left at a node.
pub open spec fn item_counts(bodies: Seq<BodyResult>, node: Seq<char>) -> Seq<nat> {
    Seq::new(
        bodies.len(),
        |k: int|
            if bodies[k].node_data@.contains_key(node) {
                bodies[k].node_data@[node]@.len()
            } else {
                0
            },
    )
}

/// How many writer results each body left at a sink.
pub open spec fn writer_counts(bodies: Seq<BodyResult>, sink: Seq<char>) -> Seq<nat> {
    Seq::new(
        bodies.len(),
        |k: int|
            if bodies[k].writers@.contains_key(sink) {
                bodies[k].writers@[sink]@.len()
            } else {
                0
            },
    )
}

proof fn lemma_item_total(bodies: Seq<BodyResult>, node: Seq<char>)
    ensures
        gathered(bodies, node).len() == sum(item_counts(bodies, node)),
    decreases bodies.len(),
{
    if bodies.len() > 0 {
        lemma_item_total(bodies.drop_last(), node);
        assert(item_counts(bodies, node).drop_last() =~= item_counts(bodies.drop_last(), node));
    }
}

/// What is collected at a body node is the flattening of what the bodies left
/// there: as many items as they left together, and item `j` of body `k` stands
/// behind all items of the bodies before it, at its own place.
pub proof fn every_item_of_every_body_is_collected(
    bodies: Seq<BodyResult>,
    node: Seq<char>,
    k: int,
    j: int,
)
    requires
        0 <= k < bodies.len(),
        bodies[k].node_data@.contains_key(node),
        0 <= j < bodies[k].node_data@[node]@.len(),
    ensures
        gathered(bodies, node).len() == sum(item_counts(bodies, node)),
        sum(item_counts(bodies, node).take(k)) + j < gathered(bodies, node).len(),
        gathered(bodies, node)[sum(item_counts(bodies, node).take(k)) + j]
            == bodies[k].node_data@[node]@[j]@,
    decreases bodies.len(),
{
    lemma_item_total(bodies, node);
    let short = bodies.drop_last();
    lemma_item_total(short, node);
    if k < short.len() {
        every_item_of_every_body_is_collected(short, node, k, j);
        assert(item_counts(bodies, node).take(k) =~= item_counts(short, node).take(k));
    } else {
        assert(item_counts(bodies, node).take(k) =~= item_counts(short, node));
    }
}

proof fn lemma_writer_total(bodies: Seq<BodyResult>, sink: Seq<char>)
    ensures
        gathered_writers(bodies, sink).len() == sum(writer_counts(bodies, sink)),
    decreases bodies.len(),
{
    if bodies.len() > 0 {
        lemma_writer_total(bodies.drop_last(), sink);
        assert(writer_counts(bodies, sink).drop_last() =~= writer_counts(bodies.drop_last(), sink));
    }
}

/// What is collected at a sink is the flattening of the writer results that the
/// bodies left there, in body order.
pub proof fn every_writer_result_is_collected(
    bodies: Seq<BodyResult>,
    sink: Seq<char>,
    k: int,
    j: int,
)
    requires
        0 <= k < bodies.len(),
        bodies[k].writers@.contains_key(sink),
        0 <= j < bodies[k].writers@[sink]@.len(),
    ensures
        gathered_writers(bodies, sink).len() == sum(writer_counts(bodies, sink)),
        sum(writer_counts(bodies, sink).take(k)) + j < gathered_writers(bodies, sink).len(),
        gathered_writers(bodies, sink)[sum(writer_counts(bodies, sink).take(k)) + j]
            == bodies[k].writers@[sink]@[j],
    decreases bodies.len(),
{
    lemma_writer_total(bodies, sink);
    let short = bodies.drop_last();
    lemma_writer_total(short, sink);
    if k < short.len() {
        every_writer_result_is_collected(short, sink, k, j);
        assert(writer_counts(bodies, sink).take(k) =~= writer_counts(short, sink).take(k));
    } else {
        assert(writer_counts(bodies, sink).take(k) =~= writer_counts(short, sink));
    }
}

/// Once a region is collected, each of its body nodes holds every item of every
/// body, in body order, as one sequence; a node outside of the region keeps its
/// data.
pub proof fn a_region_node_holds_every_item(
    before: PlanState,
    region: Region,
    bodies: Seq<BodyResult>,
    after: PlanState,
    m: int,
)
    requires
        region_absorbed(before, region, bodies, after),
        0 <= m < region.body_nodes@.len(),
    ensures
        ({
            let node = region.body_nodes@[m]@;
            &&& after.node_data@.contains_key(node)
            &&& after.node_data@[node]@.len() == sum(item_counts(bodies, node))
            &&& forall|k: int, j: int|
                #![trigger bodies[k].node_data@[node]@[j]]
                0 <= k < bodies.len() && bodies[k].node_data@.contains_key(node) && 0 <= j
                    < bodies[k].node_data@[node]@.len() ==> after.node_data@[node]@[sum(
                    item_counts(bodies, node).take(k),
                ) + j]@ == bodies[k].node_data@[node]@[j]@
            &&& after.node_seq@.contains_key(node) && after.node_seq@[node]
        }),
        forall|x: Seq<char>|
            before.node_data@.contains_key(x) && (forall|i: int|
                0 <= i < region.body_nodes@.len() ==> (#[trigger] region.body_nodes@[i])@ != x)
                ==> #[trigger] after.node_data@.contains_key(x) && after.node_data@[x]
                == before.node_data@[x],
{
    let node = region.body_nodes@[m]@;
    let nodes = text::views(region.body_nodes@);
    assert(nodes[m] == node);
    assert(nodes.contains(node));
    lemma_item_total(bodies, node);
    assert(after.node_data@.contains_key(node));
    assert(after.node_seq@.contains_key(node));
    let held = transport::byte_views(after.node_data@[node]@);
    assert(held == gathered(bodies, node));
    assert(held.len() == after.node_data@[node]@.len());
    assert forall|k: int, j: int|
        #![trigger bodies[k].node_data@[node]@[j]]
        0 <= k < bodies.len() && bodies[k].node_data@.contains_key(node) && 0 <= j
            < bodies[k].node_data@[node]@.len() implies after.node_data@[node]@[sum(
        item_counts(bodies, node).take(k),
    ) + j]@ == bodies[k].node_data@[node]@[j]@ by {
        let at = sum(item_counts(bodies, node).take(k)) + j;
        every_item_of_every_body_is_collected(bodies, node, k, j);
        assert(held[at] == bodies[k].node_data@[node]@[j]@);
    }
    assert forall|x: Seq<char>|
        before.node_data@.contains_key(x) && (forall|i: int|
            0 <= i < region.body_nodes@.len() ==> (#[trigger] region.body_nodes@[i])@ != x)
        implies #[trigger] after.node_data@.contains_key(x) && after.node_data@[x]
        == before.node_data@[x] by {
        if nodes.contains(x) {
            let i = choose|i: int| 0 <= i < nodes.len() && nodes[i] == x;
            assert(region.body_nodes@[i]@ == x);
        }
    }
}

/// Once a region is collected, each sink lists what it listed before, followed
/// by every writer result of every body, in body order.
pub proof fn a_region_sink_lists_every_result(
    before: PlanState,
    region: Region,
    bodies: Seq<BodyResult>,
    after: PlanState,
    sink: Seq<char>,
    k: int,
    j: int,
)
    requires
        region_absorbed(before, region, bodies, after),
        0 <= k < bodies.len(),
        bodies[k].writers@.contains_key(sink),
        0 <= j < bodies[k].writers@[sink]@.len(),
    ensures
        after.node_writers@.contains_key(sink),
        ({
            let had = if before.node_writers@.contains_key(sink) {
                before.node_writers@[sink]@
            } else {
                Seq::empty()
            };
            let now = after.node_writers@[sink]@;
            let at = had.len() + sum(writer_counts(bodies, sink).take(k)) + j;
            &&& now.len() == had.len() + sum(writer_counts(bodies, sink))
            &&& now.take(had.len() as int) == had
            &&& 0 <= at < now.len()
            &&& now[at] == bodies[k].writers@[sink]@[j]
        }),
{
    let had = listed(before.node_writers@, sink);
    assert(listed(after.node_writers@, sink) == had + gathered_writers(bodies, sink));
    every_writer_result_is_collected(bodies, sink, k, j);
    let all = had + gathered_writers(bodies, sink);
    assert(all.len() > 0);
    assert(all.take(had.len() as int) =~= had);
}

/// The caps of a subplan are those of its cap nodes, in the nodes' order.
pub proof fn every_cap_of_a_subplan_is_listed(plan: MachinePlan, order: Seq<Seq<char>>)
    ensures
        cap_urns_of(plan, order) == order.filter_map(
            |id: Seq<char>|
                match plan.nodes@[id].node_type {
                    ExecutionNodeType::Cap { cap_urn } => Some(cap_urn@),
                    _ => None,
                },
        ),
    decreases order.len(),
{
    let urn = |id: Seq<char>|
        match plan.nodes@[id].node_type {
            ExecutionNodeType::Cap { cap_urn } => Some(cap_urn@),
            _ => None,
        };
    if order.len() > 0 {
        every_cap_of_a_subplan_is_listed(plan, order.drop_last());
        assert(cap_urns_of(plan, order) =~= order.filter_map(urn));
    } else {
        assert(cap_urns_of(plan, order) =~= order.filter_map(urn));
    }
}

/// The body nodes of regions are those of every region, region by region.
pub proof fn every_region_brings_its_body_nodes(regions: Seq<Region>)
    ensures
        all_body_nodes(regions) == Seq::new(
            regions.len(),
            |i: int| Seq::new(regions[i].body_nodes@.len(), |j: int| regions[i].body_nodes@[j]@),
        ).flatten(),
    decreases regions.len(),
{
    let each = Seq::new(
        regions.len(),
        |i: int| Seq::new(regions[i].body_nodes@.len(), |j: int| regions[i].body_nodes@[j]@),
    );
    each.lemma_flatten_and_flatten_alt_are_equivalent();
    if regions.len() > 0 {
        let short = regions.drop_last();
        every_region_brings_its_body_nodes(short);
        let before = Seq::new(
            short.len(),
            |i: int| Seq::new(short[i].body_nodes@.len(), |j: int| short[i].body_nodes@[j]@),
        );
        before.lemma_flatten_and_flatten_alt_are_equivalent();
        assert(each.drop_last() =~= before) by {
            assert forall|i: int| 0 <= i < before.len() implies each.drop_last()[i] == before[i] by {
                assert(short[i] == regions[i]);
            }
        }
        assert(each.last() =~= text::views(regions.last().body_nodes@));
    }
}

/// A root of the post-region segment carries its node's whole output under its
/// cardinality: a sequence as one byte string per item, in order, a scalar as
/// its first item.
pub proof fn a_root_carries_its_nodes_output(
    s: PlanState,
    node: Seq<char>,
    root: (PlanInput, bool),
)
    requires
        is_root(s, node, root),
    ensures
        s.node_data@.contains_key(node),
        s.node_seq@.contains_key(node),
        root.1 == s.node_seq@[node],
        root.0 is Bytes,
        root.1 ==> root.0->Bytes_0@ == Seq::new(
            s.node_data@[node]@.len(),
            |i: int| crate::cbor::bytes_encoding(s.node_data@[node]@[i]@),
        ).flatten(),
        !root.1 ==> s.node_data@[node]@.len() > 0 && root.0->Bytes_0@ == s.node_data@[node]@[0]@,
{
    let items = transport::byte_views(s.node_data@[node]@);
    transport::every_item_is_one_byte_string(items);
    assert(Seq::new(items.len(), |i: int| crate::cbor::bytes_encoding(items[i])) =~= Seq::new(
        s.node_data@[node]@.len(),
        |i: int| crate::cbor::bytes_encoding(s.node_data@[node]@[i]@),
    ));
}

/// A node can be a root of the post-region segment exactly if its data and its
/// cardinality are recorded, and it holds an item unless it is a sequence.
pub proof fn a_root_needs_its_data(s: PlanState, node: Seq<char>)
    ensures
        root_fault(s, node) is None <==> s.node_data@.contains_key(node)
            && s.node_seq@.contains_key(node) && (s.node_seq@[node]
            || s.node_data@[node]@.len() > 0),
{
}

/// The trunk's record reports a success with the caps that ran, all files that
/// were left and all bytes that were written.
pub proof fn the_trunk_reports_what_it_wrote(
    cap_urns: Seq<Seq<char>>,
    writers: Table<Vec<WriterResult>>,
    ms: u64,
)
    requires
        outcome::all_written(writers.order(), writers@) <= usize::MAX,
    ensures
        ({
            let o = trunk_view(cap_urns, writers, ms);
            &&& o.success
            &&& o.error is None
            &&& o.foreach_token_id is None
            &&& o.cap_urns == cap_urns
            &&& o.duration_ms == ms
            &&& o.total_bytes == outcome::all_written(writers.order(), writers@)
            &&& o.saved_paths == outcome::all_paths(writers.order(), writers@)
        }),
{
}

} // verus!
