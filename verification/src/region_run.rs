//! Running the bodies of a ForEach region: one body per delivered item, many in
//! flight, results in item order.

use crate::dag::{ForEachBodyCoordinate, WriterResult};
use crate::executor_error;
use crate::executor_error::ExecutionError;
use crate::failure::AttributionClass;
use crate::outcome;
use crate::outcome::{clone_strings, total_item_bytes, total_paths, total_written, BodyOutcome};
use crate::plan::StepToken;
use crate::regions::Region;
use crate::run_arguments::clone_bytes;
use crate::spool;
use crate::spool::RegionItemDelivery;
use crate::stream_io;
use crate::stream_io::{PipelineLogRecord, PIPELINE_STALL_TIMEOUT_SECS};
use crate::table::Table;
use crate::text;
use crate::text::{clone_opt, decimal_u64, decimal_usize, same};
use crate::transport;
use vstd::prelude::*;
use vstd::string::*;

verus! {

/// Bound on region bodies IN FLIGHT at once. Cartridge capacity gates the
/// actual work; this bounds host-side memory (each in-flight body holds its
/// item bytes) so a long feed never loads all its items at once.
pub const REGION_BODY_MAX_IN_FLIGHT: usize = 32;

/// Source-task channel capacity: small on purpose — dispatch is the pacing
/// stage, not this buffer.
pub const REGION_SOURCE_CHANNEL_CAP: usize = 4;

/// Transient description of one materialized ForEach input item. The bytes
/// remain on the pipeline wire; only this bounded snapshot leaves the executor.
#[derive(Debug)]
pub struct ForEachItemSnapshot {
    pub foreach_token_id: StepToken,
    pub body_index: usize,
    pub item_preview_text: Option<String>,
    pub item_byte_count: u64,
}

/// What one body left: every node's items, and every sink's writer results.
pub struct BodyResult {
    pub node_data: Table<Vec<Vec<u8>>>,
    pub writers: Table<Vec<WriterResult>>,
}

/// A body to dispatch: its snapshot is published BEFORE it spawns.
pub struct BodyDispatch {
    pub snapshot: ForEachItemSnapshot,
    pub coordinate: ForEachBodyCoordinate,
    pub bytes: Vec<u8>,
}

/// The bodies of one region.
pub struct RegionRun {
    pub token: StepToken,
    pub body_entry: String,
    pub cap_urns: Vec<String>,
    /// The item total, where it is known up front: not for a live feed.
    pub known_total: Option<usize>,
    pub source_done: bool,
    pub completed: usize,
    pub succeeded: usize,
    pub failed: usize,
    /// One entry per dispatched body; what a failed or running body leaves is
    /// `None`.
    pub results: Vec<Option<BodyResult>>,
    /// Preview and size of every dispatched item.
    pub facts: Vec<(Option<String>, u64)>,
    /// Whether the stall warning of the current quiet window is out.
    pub stall_warned: bool,
}

/// How many results are there.
pub open spec fn result_count(results: Seq<Option<BodyResult>>) -> nat
    decreases results.len(),
{
    if results.len() == 0 {
        0
    } else {
        result_count(results.drop_last()) + (if results.last() is Some {
            1nat
        } else {
            0nat
        })
    }
}

/// The results that are there, in item order.
pub open spec fn present(results: Seq<Option<BodyResult>>) -> Seq<BodyResult>
    decreases results.len(),
{
    if results.len() == 0 {
        Seq::empty()
    } else {
        match results.last() {
            Some(r) => present(results.drop_last()).push(r),
            None => present(results.drop_last()),
        }
    }
}

/// What holds of the bodies at all times: every dispatched body has its item
/// facts, completions are successes or failures and never outnumber the
/// dispatches, exactly the successful bodies left results, and the bodies in
/// flight are bounded.
pub open spec fn run_ok(r: RegionRun) -> bool {
    &&& r.facts@.len() == r.results@.len()
    &&& r.completed == r.succeeded + r.failed
    &&& r.completed <= r.results@.len()
    &&& r.succeeded == result_count(r.results@)
    &&& r.results@.len() - r.completed <= REGION_BODY_MAX_IN_FLIGHT
}

proof fn lemma_count_update(results: Seq<Option<BodyResult>>, i: int, r: BodyResult)
    requires
        0 <= i < results.len(),
        results[i] is None,
    ensures
        result_count(results.update(i, Some(r))) == result_count(results) + 1,
    decreases results.len(),
{
    let after = results.update(i, Some(r));
    if i == results.len() - 1 {
        assert(after.drop_last() =~= results.drop_last());
    } else {
        lemma_count_update(results.drop_last(), i, r);
        assert(after.drop_last() =~= results.drop_last().update(i, Some(r)));
    }
}

/// The preview text of a dispatched item.
pub open spec fn fact_preview(facts: Seq<(Option<String>, u64)>, i: int) -> Option<Seq<char>> {
    text::opt_view(facts[i].0)
}

/// The outcome of a body that succeeded.
pub open spec fn success_outcome(run: RegionRun, i: usize, result: BodyResult, ms: u64) -> outcome::OutcomeView {
    let disk = outcome::all_written(result.writers.order(), result.writers@);
    let memory = outcome::all_item_bytes(result.node_data.order(), result.node_data@);
    outcome::OutcomeView {
        foreach_token_id: Some(run.token@),
        body_index: i,
        success: true,
        cap_urns: text::views(run.cap_urns@),
        failed_token_id: None,
        error: None,
        failed_arg_urn: None,
        title: None,
        saved_paths: outcome::all_paths(result.writers.order(), result.writers@),
        total_bytes: (if disk >= memory {
            disk
        } else {
            memory
        }) as usize,
        duration_ms: ms,
        item_preview_text: fact_preview(run.facts@, i as int),
        item_byte_count: run.facts@[i as int].1,
    }
}

/// The outcome of a body that failed.
pub open spec fn failure_outcome(run: RegionRun, i: usize, e: ExecutionError, ms: u64) -> outcome::OutcomeView {
    outcome::OutcomeView {
        foreach_token_id: Some(run.token@),
        body_index: i,
        success: false,
        cap_urns: text::views(run.cap_urns@),
        failed_token_id: match e {
            ExecutionError::StepFailed { step_token_id, source } => Some(step_token_id@),
            _ => None,
        },
        error: Some(executor_error::error_text(e)),
        failed_arg_urn: match executor_error::leaf(e) {
            ExecutionError::CartridgeExecutionFailed { arg_urn, .. } => text::opt_view(arg_urn),
            _ => None,
        },
        title: None,
        saved_paths: Seq::empty(),
        total_bytes: 0,
        duration_ms: ms,
        item_preview_text: fact_preview(run.facts@, i as int),
        item_byte_count: run.facts@[i as int].1,
    }
}

/// A warning of the region's step.
pub open spec fn step_warning(
    token: Seq<char>,
    class: AttributionClass,
    message: Seq<char>,
) -> stream_io::LogEntry {
    stream_io::LogEntry {
        step: Some(token),
        cap_urn: None,
        level: "warn"@,
        class,
        message,
        meta: None,
        body_index: None,
        arg_urn: None,
    }
}

fn warn(token: &StepToken, class: AttributionClass, message: String) -> (r: PipelineLogRecord)
    ensures
        r@ == step_warning(token@, class, message@),
{
    PipelineLogRecord {
        step_token_id: Some(token.clone()),
        cap_urn: None,
        level: "warn".to_owned(),
        attribution_class: class,
        message,
        meta: None,
        body_index: None,
        arg_urn: None,
    }
}

pub open spec fn overrun_text(overruns: nat) -> Seq<char> {
    "live feed dropped "@ + text::decimal(overruns)
        + " item(s) at the capture edge (drop-oldest overrun policy) — bodies ran on the delivered items only"@
}

pub open spec fn stall_text() -> Seq<char> {
    "This ForEach step has had no progress for "@ + text::decimal(
        PIPELINE_STALL_TIMEOUT_SECS as nat,
    ) + "s; continuing to wait. Use Cancel to abort."@
}

/// Whether failures of bodies fail the region: under the policy `fail` any
/// does, under every other only where no body succeeded.
pub open spec fn policy_fails(policy: Seq<char>, succeeded: nat, failed: nat) -> bool {
    failed > 0 && (policy == "fail"@ || succeeded == 0)
}

impl RegionRun {
    /// The run of a region before any item came.
    pub fn new(region: &Region, known_total: Option<usize>) -> (r: Self)
        ensures
            run_ok(r),
            r.token == region.step_token_id,
            r.body_entry == region.body_entry,
            text::views(r.cap_urns@) == text::views(region.body_cap_urns@),
            r.known_total == known_total,
            !r.source_done,
            r.results@.len() == 0,
            r.completed == 0,
            !r.stall_warned,
    {
        RegionRun {
            token: region.step_token_id.clone(),
            body_entry: region.body_entry.clone(),
            cap_urns: clone_strings(&region.body_cap_urns),
            known_total,
            source_done: false,
            completed: 0,
            succeeded: 0,
            failed: 0,
            results: Vec::new(),
            facts: Vec::new(),
            stall_warned: false,
        }
    }

    /// How many bodies were dispatched.
    pub fn dispatched(&self) -> (n: usize)
        ensures
            n == self.results@.len(),
    {
        self.results.len()
    }

    /// Whether the region is through: its source ended and every dispatched
    /// body completed.
    pub fn finished(&self) -> (r: bool)
        ensures
            r == (self.source_done && self.completed >= self.results@.len()),
    {
        self.source_done && self.completed >= self.results.len()
    }

    /// Whether a completion is awaited.
    pub fn awaits_completion(&self) -> (r: bool)
        ensures
            r == (self.completed < self.results@.len()),
    {
        self.completed < self.results.len()
    }

    /// Whether the next item may be taken: the source has not ended, and the
    /// bodies in flight leave room for one more.
    pub fn can_dispatch(&self) -> (r: bool)
        requires
            run_ok(*self),
        ensures
            r == (!self.source_done && self.results@.len() - self.completed
                < REGION_BODY_MAX_IN_FLIGHT),
    {
        !self.source_done && self.results.len() - self.completed < REGION_BODY_MAX_IN_FLIGHT
    }

    /// An item was delivered: dispatch its body under the next index.
    pub fn on_item(&mut self, delivery: RegionItemDelivery) -> (d: BodyDispatch)
        requires
            run_ok(*old(self)),
            !old(self).source_done,
            old(self).results@.len() - old(self).completed < REGION_BODY_MAX_IN_FLIGHT,
        ensures
            run_ok(*final(self)),
            final(self).results@ == old(self).results@.push(None),
            final(self).facts@ == old(self).facts@.push((delivery.preview, delivery.byte_count)),
            *final(self) == (RegionRun {
                results: final(self).results,
                facts: final(self).facts,
                ..*old(self)
            }),
            d.bytes == delivery.bytes,
            d.coordinate.foreach_token_id == old(self).token,
            d.coordinate.body_index == old(self).results@.len(),
            d.snapshot.foreach_token_id == old(self).token,
            d.snapshot.body_index == old(self).results@.len(),
            d.snapshot.item_preview_text == delivery.preview,
            d.snapshot.item_byte_count == delivery.byte_count,
    {
        let i: usize = self.results.len();
        let snapshot = ForEachItemSnapshot {
            foreach_token_id: self.token.clone(),
            body_index: i,
            item_preview_text: clone_opt(&delivery.preview),
            item_byte_count: delivery.byte_count,
        };
        let coordinate = ForEachBodyCoordinate {
            foreach_token_id: self.token.clone(),
            body_index: i,
        };
        let ghost before = self.results@;
        self.facts.push((delivery.preview, delivery.byte_count));
        self.results.push(None);
        assert(self.results@.drop_last() =~= before);
        BodyDispatch { snapshot, coordinate, bytes: delivery.bytes }
    }

    /// The source ended: no further body will dispatch. Overruns at a host-held
    /// capture edge are counted loss — surfaced, never silent.
    pub fn on_source_end(&mut self, overruns: u64) -> (r: Option<PipelineLogRecord>)
        ensures
            *final(self) == (RegionRun { source_done: true, ..*old(self) }),
            match r {
                None => overruns == 0,
                Some(log) => overruns > 0 && log@ == step_warning(
                    old(self).token@,
                    AttributionClass::Resource,
                    overrun_text(overruns as nat),
                ),
            },
    {
        self.source_done = true;
        if overruns > 0 {
            let message = "live feed dropped ".to_owned().concat(
                decimal_u64(overruns).as_str(),
            ).concat(
                " item(s) at the capture edge (drop-oldest overrun policy) — bodies ran on the delivered items only",
            );
            Some(warn(&self.token, AttributionClass::Resource, message))
        } else {
            None
        }
    }

    /// The SOURCE failed (device died, spool corrupt): the region's input is
    /// incomplete — an input failure of the whole region, not a body failure,
    /// and no partial-failure policy applies.
    pub fn on_source_failed(&self, e: ExecutionError) -> (r: ExecutionError)
        ensures
            r == (ExecutionError::StepFailed { step_token_id: self.token, source: Box::new(e) }),
    {
        ExecutionError::StepFailed { step_token_id: self.token.clone(), source: Box::new(e) }
    }

    /// Body `i` succeeded: its result lands at its index, whatever completed
    /// before it.
    pub fn on_body_ok(&mut self, i: usize, result: BodyResult, ms: u64) -> (o: BodyOutcome)
        requires
            run_ok(*old(self)),
            i < old(self).results@.len(),
            old(self).results@[i as int] is None,
            old(self).completed < old(self).results@.len(),
            outcome::all_written(result.writers.order(), result.writers@) <= usize::MAX,
            outcome::all_item_bytes(result.node_data.order(), result.node_data@) <= usize::MAX,
        ensures
            run_ok(*final(self)),
            final(self).results@ == old(self).results@.update(i as int, Some(result)),
            *final(self) == (RegionRun {
                results: final(self).results,
                completed: (old(self).completed + 1) as usize,
                succeeded: (old(self).succeeded + 1) as usize,
                stall_warned: false,
                ..*old(self)
            }),
            o@ == success_outcome(*old(self), i, result, ms),
    {
        let n: usize = self.results.len();
        assert(self.completed < n);
        let disk: usize = total_written(&result.writers);
        let memory: usize = total_item_bytes(&result.node_data);
        let o = BodyOutcome {
            foreach_token_id: Some(self.token.clone()),
            body_index: i,
            success: true,
            cap_urns: clone_strings(&self.cap_urns),
            failed_token_id: None,
            error: None,
            failed_arg_urn: None,
            title: None,
            saved_paths: total_paths(&result.writers),
            total_bytes: if disk >= memory {
                disk
            } else {
                memory
            },
            duration_ms: ms,
            item_preview_text: clone_opt(&self.facts[i].0),
            item_byte_count: self.facts[i].1,
        };
        proof {
            lemma_count_update(self.results@, i as int, result);
        }
        self.results.set(i, Some(result));
        self.completed = self.completed + 1;
        self.succeeded = self.succeeded + 1;
        self.stall_warned = false;
        o
    }

    /// Body `i` failed.
    pub fn on_body_err(&mut self, i: usize, e: &ExecutionError, ms: u64) -> (o: BodyOutcome)
        requires
            run_ok(*old(self)),
            i < old(self).results@.len(),
            old(self).completed < old(self).results@.len(),
        ensures
            run_ok(*final(self)),
            *final(self) == (RegionRun {
                completed: (old(self).completed + 1) as usize,
                failed: (old(self).failed + 1) as usize,
                stall_warned: false,
                ..*old(self)
            }),
            o@ == failure_outcome(*old(self), i, *e, ms),
    {
        let n: usize = self.results.len();
        assert(self.completed < n);
        let o = BodyOutcome {
            foreach_token_id: Some(self.token.clone()),
            body_index: i,
            success: false,
            cap_urns: clone_strings(&self.cap_urns),
            failed_token_id: match e.step_token_id() {
                Some(t) => Some(t.clone()),
                None => None,
            },
            error: Some(e.message()),
            failed_arg_urn: match e.failure_arg_urn() {
                Some(a) => Some(a.to_owned()),
                None => None,
            },
            title: None,
            saved_paths: Vec::new(),
            total_bytes: 0,
            duration_ms: ms,
            item_preview_text: clone_opt(&self.facts[i].0),
            item_byte_count: self.facts[i].1,
        };
        assert(text::views(o.saved_paths@) =~= Seq::<Seq<char>>::empty());
        self.completed = self.completed + 1;
        self.failed = self.failed + 1;
        self.stall_warned = false;
        o
    }

    /// Time passed: a region without progress is surfaced once per quiet
    /// window, and waited for.
    pub fn on_tick(&mut self, stalled: bool) -> (r: Option<PipelineLogRecord>)
        ensures
            *final(self) == (RegionRun {
                stall_warned: old(self).stall_warned || stalled,
                ..*old(self)
            }),
            match r {
                None => !stalled || old(self).stall_warned,
                Some(log) => stalled && !old(self).stall_warned && log@ == step_warning(
                    old(self).token@,
                    AttributionClass::Internal,
                    stall_text(),
                ),
            },
    {
        if stalled && !self.stall_warned {
            self.stall_warned = true;
            let message = "This ForEach step has had no progress for ".to_owned().concat(
                decimal_u64(PIPELINE_STALL_TIMEOUT_SECS).as_str(),
            ).concat("s; continuing to wait. Use Cancel to abort.");
            Some(warn(&self.token, AttributionClass::Internal, message))
        } else {
            None
        }
    }

    /// The item total to show: the known one, else the number dispatched.
    pub fn total_display(&self) -> (n: usize)
        ensures
            n == match self.known_total {
                Some(t) => t as int,
                None => self.results@.len() as int,
            },
    {
        match self.known_total {
            Some(t) => t,
            None => self.results.len(),
        }
    }

    /// How far the region is, in words.
    pub fn progress_message(&self) -> (r: String)
        ensures
            r@ == "Completed "@ + text::decimal(self.completed as nat) + "/"@ + text::decimal(
                match self.known_total {
                    Some(t) => t as nat,
                    None => self.results@.len(),
                },
            ),
    {
        "Completed ".to_owned().concat(decimal_usize(self.completed).as_str()).concat("/").concat(
            decimal_usize(self.total_display()).as_str(),
        )
    }

    /// The items of a body's entry node, surfaced as they land.
    pub fn entry_items(&self, result: &BodyResult) -> (r: Vec<Vec<u8>>)
        ensures
            transport::byte_views(r@) == if result.node_data@.contains_key(self.body_entry@) {
                transport::byte_views(result.node_data@[self.body_entry@]@)
            } else {
                Seq::empty()
            },
    {
        match result.node_data.get(self.body_entry.as_str()) {
            Some(items) => clone_items(items),
            None => {
                let none: Vec<Vec<u8>> = Vec::new();
                assert(transport::byte_views(none@) =~= Seq::<Seq<u8>>::empty());
                none
            },
        }
    }

    /// What the region amounts to: its bodies' results in item order, failed
    /// items (tolerated by policy) contributing nothing — or its failure.
    pub fn settle(self, policy: &str) -> (r: Result<Vec<BodyResult>, ExecutionError>)
        requires
            run_ok(self),
        ensures
            match r {
                Ok(results) => {
                    &&& !policy_fails(policy@, self.succeeded as nat, self.failed as nat)
                    &&& results@ == present(self.results@)
                },
                Err(e) => {
                    &&& policy_fails(policy@, self.succeeded as nat, self.failed as nat)
                    &&& e is StepFailed
                    &&& e->step_token_id == self.token
                    &&& spool::host_error(
                        *e->StepFailed_source,
                        "ForEach step failed: "@ + text::decimal(self.failed as nat) + "/"@
                            + text::decimal(self.results@.len()) + " bodies failed (policy="@
                            + policy@ + ")"@,
                    )
                },
            },
            r is Err <==> self.failed > 0 && (policy@ == "fail"@ || self.succeeded == 0),
    {
        if self.failed > 0 && (same(policy, "fail") || self.succeeded == 0) {
            let message = "ForEach step failed: ".to_owned().concat(
                decimal_usize(self.failed).as_str(),
            ).concat("/").concat(decimal_usize(self.results.len()).as_str()).concat(
                " bodies failed (policy=",
            ).concat(policy).concat(")");
            let cause = ExecutionError::HostError(message);
            return Err(
                ExecutionError::StepFailed { step_token_id: self.token, source: Box::new(cause) },
            );
        }
        let ghost all = self.results@;
        let mut rest = self.results;
        let mut out: Vec<BodyResult> = Vec::new();
        let ghost mut k: int = 0;
        proof {
            assert(all.skip(0) =~= all);
            assert(all.take(0) =~= Seq::<Option<BodyResult>>::empty());
        }
        while rest.len() > 0
            invariant
                0 <= k <= all.len(),
                rest@ == all.skip(k),
                out@ == present(all.take(k)),
            decreases rest@.len(),
        {
            let entry = rest.remove(0);
            proof {
                assert(entry == all[k]);
                assert(rest@ =~= all.skip(k + 1));
                assert(all.take(k + 1).drop_last() =~= all.take(k));
                k = k + 1;
            }
            if let Some(result) = entry {
                out.push(result);
            }
        }
        assert(all.take(k) =~= all);
        Ok(out)
    }
}

/// Copy items.
pub fn clone_items(items: &Vec<Vec<u8>>) -> (r: Vec<Vec<u8>>)
    ensures
        transport::byte_views(r@) == transport::byte_views(items@),
{
    let mut r: Vec<Vec<u8>> = Vec::new();
    append_items(&mut r, items);
    assert(transport::byte_views(r@) =~= transport::byte_views(items@));
    r
}

/// Append copies of items.
pub fn append_items(to: &mut Vec<Vec<u8>>, items: &Vec<Vec<u8>>)
    ensures
        transport::byte_views(final(to)@) == transport::byte_views(old(to)@)
            + transport::byte_views(items@),
{
    let ghost before = transport::byte_views(to@);
    let ghost all = transport::byte_views(items@);
    let mut i: usize = 0;
    assert(before + all.take(0) =~= before);
    while i < items.len()
        invariant
            i <= items@.len(),
            all == transport::byte_views(items@),
            transport::byte_views(to@) == before + all.take(i as int),
        decreases items@.len() - i,
    {
        let ghost now = transport::byte_views(to@);
        to.push(clone_bytes(&items[i]));
        proof {
            assert(transport::byte_views(to@) =~= now.push(all[i as int]));
            assert(all.take(i + 1) =~= all.take(i as int).push(all[i as int]));
            assert(transport::byte_views(to@) =~= before + all.take(i + 1));
        }
        i = i + 1;
    }
    assert(all.take(i as int) =~= all);
}

/// The settled results are as many as the bodies that succeeded.
pub proof fn every_success_is_settled(run: RegionRun)
    requires
        run_ok(run),
    ensures
        present(run.results@).len() == run.succeeded,
{
    lemma_present_count(run.results@);
}

proof fn lemma_present_count(results: Seq<Option<BodyResult>>)
    ensures
        present(results).len() == result_count(results),
    decreases results.len(),
{
    if results.len() > 0 {
        lemma_present_count(results.drop_last());
    }
}

/// A region that is through without a failure settles one result per item, each
/// at its item's place.
pub proof fn a_clean_region_settles_every_item(run: RegionRun, i: int)
    requires
        run_ok(run),
        run.completed == run.results@.len(),
        run.failed == 0,
        0 <= i < run.results@.len(),
    ensures
        present(run.results@).len() == run.results@.len(),
        run.results@[i] == Some(present(run.results@)[i]),
{
    lemma_all_present(run.results@, i);
}

proof fn lemma_count_bound(results: Seq<Option<BodyResult>>)
    ensures
        result_count(results) <= results.len(),
    decreases results.len(),
{
    if results.len() > 0 {
        lemma_count_bound(results.drop_last());
    }
}

proof fn lemma_all_present(results: Seq<Option<BodyResult>>, i: int)
    requires
        result_count(results) == results.len(),
        0 <= i < results.len(),
    ensures
        present(results).len() == results.len(),
        results[i] == Some(present(results)[i]),
    decreases results.len(),
{
    lemma_present_count(results);
    let short = results.drop_last();
    lemma_count_bound(short);
    lemma_present_count(short);
    if i < short.len() {
        lemma_all_present(short, i);
    }
}

/// The settled results are those of the items that have one, in item order, and
/// no others.
pub proof fn results_are_settled_in_item_order(results: Seq<Option<BodyResult>>)
    ensures
        present(results) == results.filter_map(|r: Option<BodyResult>| r),
        forall|i: int|
            #![trigger results[i]]
            0 <= i < results.len() && results[i] is Some ==> {
                let before = results.take(i).filter_map(|r: Option<BodyResult>| r).len() as int;
                &&& before < present(results).len()
                &&& Some(present(results)[before]) == results[i]
            },
    decreases results.len(),
{
    let pick = |r: Option<BodyResult>| r;
    if results.len() > 0 {
        let short = results.drop_last();
        results_are_settled_in_item_order(short);
        assert(present(results) =~= results.filter_map(pick));
        assert forall|i: int|
            #![trigger results[i]]
            0 <= i < results.len() && results[i] is Some implies {
            let before = results.take(i).filter_map(pick).len() as int;
            &&& before < present(results).len()
            &&& Some(present(results)[before]) == results[i]
        } by {
            if i < short.len() {
                assert(short[i] == results[i]);
                assert(short.take(i) =~= results.take(i));
            } else {
                assert(results.take(i) =~= short);
            }
        }
    } else {
        assert(present(results) =~= results.filter_map(pick));
    }
}

/// A body's outcome names its region and index and the caps that ran, and gives
/// its item's preview and size. Of a success it counts the larger of what was
/// persisted and what is in memory; a failure counts nothing and says what went
/// wrong.
pub proof fn an_outcome_reports_its_body(
    run: RegionRun,
    i: usize,
    result: BodyResult,
    e: ExecutionError,
    ms: u64,
)
    requires
        outcome::all_written(result.writers.order(), result.writers@) <= usize::MAX,
        outcome::all_item_bytes(result.node_data.order(), result.node_data@) <= usize::MAX,
    ensures
        ({
            let o = success_outcome(run, i, result, ms);
            let disk = outcome::all_written(result.writers.order(), result.writers@);
            let memory = outcome::all_item_bytes(result.node_data.order(), result.node_data@);
            &&& o.success
            &&& o.error is None
            &&& o.failed_token_id is None
            &&& o.foreach_token_id == Some(run.token@)
            &&& o.body_index == i
            &&& o.duration_ms == ms
            &&& o.item_byte_count == run.facts@[i as int].1
            &&& o.total_bytes >= disk
            &&& o.total_bytes >= memory
            &&& o.total_bytes == disk || o.total_bytes == memory
            &&& o.saved_paths == outcome::all_paths(result.writers.order(), result.writers@)
            &&& o.cap_urns.len() == run.cap_urns@.len()
            &&& forall|k: int|
                0 <= k < o.cap_urns.len() ==> #[trigger] o.cap_urns[k] == run.cap_urns@[k]@
        }),
        ({
            let o = failure_outcome(run, i, e, ms);
            &&& !o.success
            &&& o.error == Some(executor_error::error_text(e))
            &&& o.foreach_token_id == Some(run.token@)
            &&& o.body_index == i
            &&& o.duration_ms == ms
            &&& o.item_byte_count == run.facts@[i as int].1
            &&& o.total_bytes == 0
            &&& o.saved_paths.len() == 0
            &&& e matches ExecutionError::StepFailed { step_token_id, .. } ==> o.failed_token_id
                == Some(step_token_id@)
        }),
{
}

} // verus!
