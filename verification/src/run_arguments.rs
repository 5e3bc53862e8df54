//! The executing plan's mutable argument state, journaled by dispatch.
//!
//! The ledger holds the run's authoritative per-step argument values AND the
//! dispatch journal that says which work has already read them. A dispatch (a
//! segment invocation being built, a ForEach body being spawned) and an update
//! are each one operation on the ledger, so the journal decides which came
//! first, and the report of an update can never disagree with what the
//! executor delivers:
//!
//! - a step whose only dispatch is behind it reports **already dispatched** and
//!   its value is left untouched — pretending otherwise would falsify the
//!   persisted argument record of work that already ran;
//! - a step inside a ForEach region reports exactly how many bodies took the
//!   old value; every later body reads the new one;
//! - a step not yet reached reports **applied** — every invocation will read
//!   the new value.
//!
//! Keys are the plan's cap node ids, which ARE the strand steps' minted tokens
//! for the one plan being executed. Tokens are minted per plan: an update
//! addressed with a token from any other plan names no node here and is
//! refused as a whole.

use crate::plan;
use crate::plan::{invokes_cap, MachineNode, MachinePlan};
use crate::table::Table;
use crate::urn;
use crate::urn::{denotes, MediaUrn};
use vstd::prelude::*;
use vstd::string::*;

verus! {

/// One requested argument change, addressed by the executing plan's own step
/// token (== cap node id) and the argument's media URN.
#[derive(Debug)]
pub struct ArgumentUpdate {
    pub token_id: String,
    pub media_urn: String,
    pub value: Vec<u8>,
}

/// What one update actually reached.
#[derive(Debug, Clone, Copy, PartialEq, Eq, Structural)]
pub enum ArgumentUpdateDisposition {
    /// No dispatch of the step has happened — every invocation reads the new
    /// value.
    Applied,
    /// The step runs once per ForEach body; `bodies_dispatched` bodies had
    /// already read the old value, every later body reads the new one.
    AppliedToRemainingBodies { bodies_dispatched: u64 },
    /// Every dispatch of the step is behind us — the value was left untouched.
    AlreadyDispatched,
}

/// Per-update outcome, in request order.
#[derive(Debug)]
pub struct ArgumentUpdateOutcome {
    pub token_id: String,
    pub media_urn: String,
    pub disposition: ArgumentUpdateDisposition,
}

/// The result of one applied update batch.
#[derive(Debug)]
pub struct AppliedArgumentUpdate {
    pub outcomes: Vec<ArgumentUpdateOutcome>,
    /// Monotone revision of the ledger after this batch (0 = as created).
    pub revision: u64,
}

/// A refused update batch. The batch is transactional: any invalid entry
/// refuses the whole batch and no value changes.
#[derive(Debug)]
pub enum RunArgumentError {
    /// The token names no cap node of the executing plan.
    UnknownStep { token_id: String },
    /// The argument's media URN does not parse.
    InvalidMediaUrn { token_id: String, media_urn: String, detail: String },
    /// An initial value is keyed to no cap node of the plan.
    UnknownInitialStep { token_id: String },
}

/// What has been dispatched of one step.
#[derive(Debug, Clone, Copy)]
pub struct StepJournal {
    /// The step's single whole-segment dispatch happened (trunk or
    /// post-region segment invocation built).
    pub dispatched: bool,
    /// ForEach-contained steps: bodies that have read this step's arguments.
    pub bodies_dispatched: u64,
    /// No further dispatch of this step will ever happen (segment dispatched,
    /// or the region's item source is exhausted).
    pub exhausted: bool,
}

/// The argument values of each step: media URN and bytes, in order.
pub type Arguments = Table<Vec<(String, Vec<u8>)>>;

/// Mutable, dispatch-journaled argument state of one executing plan.
pub struct RunArgumentLedger {
    /// Step token → (argument media URN, value bytes), the values the NEXT
    /// dispatch of each step reads.
    values: Arguments,
    /// Every cap node of the plan has a journal entry from birth, so an
    /// unknown token is distinguishable from an untouched step.
    steps: Table<StepJournal>,
    revision: u64,
}

// ---------------------------------------------------------------------------
// Model
// ---------------------------------------------------------------------------
/// The bindings of one step: argument media URN and value.
pub type Bindings = Seq<(Seq<char>, Seq<u8>)>;

/// The values of every step that has any.
pub type Values = Map<Seq<char>, Bindings>;

pub open spec fn bindings(v: Seq<(String, Vec<u8>)>) -> Bindings {
    Seq::new(v.len(), |i: int| (v[i].0@, v[i].1@))
}

pub open spec fn arguments_view(m: Map<Seq<char>, Vec<(String, Vec<u8>)>>) -> Values {
    m.map_values(|v: Vec<(String, Vec<u8>)>| bindings(v@))
}

/// A request to change one argument.
pub ghost struct UpdateRequest {
    pub token: Seq<char>,
    pub urn: Seq<char>,
    pub value: Seq<u8>,
}

/// What one request came to.
pub ghost struct UpdateReport {
    pub token: Seq<char>,
    pub urn: Seq<char>,
    pub disposition: ArgumentUpdateDisposition,
}

/// The contents of a `RunArgumentError`.
pub ghost enum RunArgumentFault {
    UnknownStep(Seq<char>),
    InvalidMediaUrn(Seq<char>, Seq<char>, Seq<char>),
    UnknownInitialStep(Seq<char>),
}

/// The contents of a ledger.
#[verifier::ext_equal]
pub ghost struct LedgerState {
    pub values: Values,
    pub steps: Map<Seq<char>, StepJournal>,
    pub revision: u64,
}

impl View for ArgumentUpdate {
    type V = UpdateRequest;

    open spec fn view(&self) -> UpdateRequest {
        UpdateRequest { token: self.token_id@, urn: self.media_urn@, value: self.value@ }
    }
}

impl View for ArgumentUpdateOutcome {
    type V = UpdateReport;

    open spec fn view(&self) -> UpdateReport {
        UpdateReport {
            token: self.token_id@,
            urn: self.media_urn@,
            disposition: self.disposition,
        }
    }
}

impl View for RunArgumentError {
    type V = RunArgumentFault;

    open spec fn view(&self) -> RunArgumentFault {
        match *self {
            RunArgumentError::UnknownStep { token_id } => RunArgumentFault::UnknownStep(token_id@),
            RunArgumentError::InvalidMediaUrn { token_id, media_urn, detail } => {
                RunArgumentFault::InvalidMediaUrn(token_id@, media_urn@, detail@)
            },
            RunArgumentError::UnknownInitialStep { token_id } => {
                RunArgumentFault::UnknownInitialStep(token_id@)
            },
        }
    }
}

impl View for RunArgumentLedger {
    type V = LedgerState;

    closed spec fn view(&self) -> LedgerState {
        LedgerState {
            values: arguments_view(self.values@),
            steps: self.steps@,
            revision: self.revision,
        }
    }
}

pub open spec fn requests(updates: Seq<ArgumentUpdate>) -> Seq<UpdateRequest> {
    Seq::new(updates.len(), |i: int| updates[i]@)
}

pub open spec fn reports(outcomes: Seq<ArgumentUpdateOutcome>) -> Seq<UpdateReport> {
    Seq::new(outcomes.len(), |i: int| outcomes[i]@)
}

/// A step of which nothing was dispatched.
pub open spec fn untouched() -> StepJournal {
    StepJournal { dispatched: false, bodies_dispatched: 0, exhausted: false }
}

/// Every step that has a value is a step of the plan.
pub open spec fn ledger_valid(s: LedgerState) -> bool {
    forall|t: Seq<char>| #[trigger] s.values.contains_key(t) ==> s.steps.contains_key(t)
}

/// The journal of a plan of which nothing was dispatched: one entry per cap
/// node.
pub open spec fn initial_steps(nodes: Map<Seq<char>, MachineNode>) -> Map<Seq<char>, StepJournal> {
    Map::new(|t: Seq<char>| plan::is_cap_node(nodes, t), |t: Seq<char>| untouched())
}

/// What an update of a step with this journal reaches.
pub open spec fn disposition(j: StepJournal) -> ArgumentUpdateDisposition {
    if j.exhausted || j.dispatched {
        ArgumentUpdateDisposition::AlreadyDispatched
    } else if j.bodies_dispatched > 0 {
        ArgumentUpdateDisposition::AppliedToRemainingBodies {
            bodies_dispatched: j.bodies_dispatched,
        }
    } else {
        ArgumentUpdateDisposition::Applied
    }
}

/// The first binding at or after `from` whose URN is equivalent to `urn`, or
/// the number of bindings where there is none.
pub open spec fn binding_index(b: Bindings, urn: Seq<char>, from: int) -> int
    decreases b.len() - from,
{
    if from >= b.len() {
        b.len() as int
    } else if urn::media_equivalent(b[from].0, urn) {
        from
    } else {
        binding_index(b, urn, from + 1)
    }
}

/// The bindings once `urn` is bound to `value`: the first equivalent binding is
/// replaced, else one is appended.
pub open spec fn rebound(b: Bindings, urn: Seq<char>, value: Seq<u8>) -> Bindings {
    let i = binding_index(b, urn, 0);
    if i < b.len() {
        b.update(i, (b[i].0, value))
    } else {
        b.push((urn, value))
    }
}

/// The bindings of a step, none where it has no entry.
pub open spec fn bindings_of(values: Values, token: Seq<char>) -> Bindings {
    if values.contains_key(token) {
        values[token]
    } else {
        Seq::empty()
    }
}

/// The values once one update of a step with the given journal is through.
pub open spec fn values_after(
    values: Values,
    steps: Map<Seq<char>, StepJournal>,
    u: UpdateRequest,
) -> Values {
    if disposition(steps[u.token]) is AlreadyDispatched {
        values
    } else {
        values.insert(u.token, rebound(bindings_of(values, u.token), u.urn, u.value))
    }
}

/// The values once the first `n` updates are through.
pub open spec fn values_after_all(
    values: Values,
    steps: Map<Seq<char>, StepJournal>,
    updates: Seq<UpdateRequest>,
    n: nat,
) -> Values
    decreases n,
{
    if n == 0 {
        values
    } else {
        values_after(
            values_after_all(values, steps, updates, (n - 1) as nat),
            steps,
            updates[n - 1],
        )
    }
}

/// Why an update cannot be taken, if it cannot.
pub open spec fn update_fault(
    steps: Map<Seq<char>, StepJournal>,
    u: UpdateRequest,
) -> Option<RunArgumentFault> {
    if !steps.contains_key(u.token) {
        Some(RunArgumentFault::UnknownStep(u.token))
    } else {
        match urn::media_parsed(u.urn) {
            Ok(_) => None,
            Err(fault) => Some(
                RunArgumentFault::InvalidMediaUrn(u.token, u.urn, crate::urn::fault_text(fault)),
            ),
        }
    }
}

/// The fault of the first update from `from` on that cannot be taken.
pub open spec fn batch_fault(
    steps: Map<Seq<char>, StepJournal>,
    updates: Seq<UpdateRequest>,
    from: int,
) -> Option<RunArgumentFault>
    decreases updates.len() - from,
{
    if from >= updates.len() {
        None
    } else {
        match update_fault(steps, updates[from]) {
            Some(fault) => Some(fault),
            None => batch_fault(steps, updates, from + 1),
        }
    }
}

/// A request that names a step of the plan and whose URN parses to `urn`.
pub open spec fn addressed(
    steps: Map<Seq<char>, StepJournal>,
    u: UpdateRequest,
    urn: MediaUrn,
) -> bool {
    &&& steps.contains_key(u.token)
    &&& urn.text@ == u.urn
    &&& urn::media_parsed(u.urn) == Ok::<_, crate::urn::UrnFault>(urn@)
}

/// What each update of a batch reaches, in request order.
pub open spec fn batch_reports(
    steps: Map<Seq<char>, StepJournal>,
    updates: Seq<UpdateRequest>,
) -> Seq<UpdateReport> {
    Seq::new(
        updates.len(),
        |i: int|
            UpdateReport {
                token: updates[i].token,
                urn: updates[i].urn,
                disposition: disposition(steps[updates[i].token]),
            },
    )
}

/// Whether an update of the batch reaches anything.
pub open spec fn batch_changes(
    steps: Map<Seq<char>, StepJournal>,
    updates: Seq<UpdateRequest>,
) -> bool {
    exists|i: int|
        0 <= i < updates.len() && !(disposition(steps[(#[trigger] updates[i]).token])
            is AlreadyDispatched)
}

/// The ledger once a batch without faults is through.
pub open spec fn after_batch(s: LedgerState, updates: Seq<UpdateRequest>) -> LedgerState {
    LedgerState {
        values: values_after_all(s.values, s.steps, updates, updates.len()),
        steps: s.steps,
        revision: if batch_changes(s.steps, updates) {
            (s.revision + 1) as u64
        } else {
            s.revision
        },
    }
}

/// The journal once the cap nodes of a segment are dispatched.
pub open spec fn segment_dispatched(
    steps: Map<Seq<char>, StepJournal>,
    nodes: Map<Seq<char>, MachineNode>,
) -> Map<Seq<char>, StepJournal> {
    Map::new(
        |t: Seq<char>| steps.contains_key(t),
        |t: Seq<char>|
            if plan::is_cap_node(nodes, t) {
                StepJournal { dispatched: true, exhausted: true, ..steps[t] }
            } else {
                steps[t]
            },
    )
}

/// The journal once `count` bodies of a region have read their arguments.
pub open spec fn bodies_dispatched(
    steps: Map<Seq<char>, StepJournal>,
    nodes: Map<Seq<char>, MachineNode>,
    count: u64,
) -> Map<Seq<char>, StepJournal> {
    Map::new(
        |t: Seq<char>| steps.contains_key(t),
        |t: Seq<char>|
            if plan::is_cap_node(nodes, t) && steps[t].bodies_dispatched < count {
                StepJournal { bodies_dispatched: count, ..steps[t] }
            } else {
                steps[t]
            },
    )
}

/// The journal once no further body of a region will be dispatched.
pub open spec fn bodies_exhausted(
    steps: Map<Seq<char>, StepJournal>,
    nodes: Map<Seq<char>, MachineNode>,
) -> Map<Seq<char>, StepJournal> {
    Map::new(
        |t: Seq<char>| steps.contains_key(t),
        |t: Seq<char>|
            if plan::is_cap_node(nodes, t) {
                StepJournal { exhausted: true, ..steps[t] }
            } else {
                steps[t]
            },
    )
}

/// Whether every cap node of a subplan is a step of the ledger's plan.
pub open spec fn covers(
    steps: Map<Seq<char>, StepJournal>,
    nodes: Map<Seq<char>, MachineNode>,
) -> bool {
    forall|t: Seq<char>| #[trigger] plan::is_cap_node(nodes, t) ==> steps.contains_key(t)
}

// ---------------------------------------------------------------------------
// Messages
// ---------------------------------------------------------------------------
/// How a refused batch reads.
pub open spec fn argument_fault_text(fault: RunArgumentFault) -> Seq<char> {
    match fault {
        RunArgumentFault::UnknownStep(token) => "argument update is addressed to step token '"@
            + token
            + "', which is not a cap node of the executing plan — step tokens are minted per plan, so this token belongs to a different plan generation and the update cannot be delivered"@,
        RunArgumentFault::InvalidMediaUrn(token, urn, detail) => "argument update for step '"@
            + token + "' names invalid media URN '"@ + urn + "': "@ + detail,
        RunArgumentFault::UnknownInitialStep(token) => "initial argument value is keyed to '"@
            + token + "', which is not a cap node of the plan"@,
    }
}

impl RunArgumentError {
    /// How the refusal reads.
    pub fn message(&self) -> (r: String)
        ensures
            r@ == argument_fault_text(self@),
    {
        match self {
            RunArgumentError::UnknownStep { token_id } => {
                "argument update is addressed to step token '".to_owned().concat(
                    token_id.as_str(),
                ).concat(
                    "', which is not a cap node of the executing plan — step tokens are minted per plan, so this token belongs to a different plan generation and the update cannot be delivered",
                )
            },
            RunArgumentError::InvalidMediaUrn { token_id, media_urn, detail } => {
                "argument update for step '".to_owned().concat(token_id.as_str()).concat(
                    "' names invalid media URN '",
                ).concat(media_urn.as_str()).concat("': ").concat(detail.as_str())
            },
            RunArgumentError::UnknownInitialStep { token_id } => {
                "initial argument value is keyed to '".to_owned().concat(token_id.as_str()).concat(
                    "', which is not a cap node of the plan",
                )
            },
        }
    }
}

// ---------------------------------------------------------------------------
// Copies
// ---------------------------------------------------------------------------
/// A copy of a byte vector.
pub fn clone_bytes(v: &Vec<u8>) -> (r: Vec<u8>)
    ensures
        r@ == v@,
{
    let r = v.clone();
    assert(r@ =~= v@);
    r
}

fn clone_bindings(v: &Vec<(String, Vec<u8>)>) -> (r: Vec<(String, Vec<u8>)>)
    ensures
        bindings(r@) == bindings(v@),
{
    let mut r: Vec<(String, Vec<u8>)> = Vec::new();
    let mut i: usize = 0;
    while i < v.len()
        invariant
            i <= v.len(),
            bindings(r@) == bindings(v@).take(i as int),
        decreases v.len() - i,
    {
        let ghost before = bindings(r@);
        r.push((v[i].0.clone(), clone_bytes(&v[i].1)));
        assert(bindings(r@) =~= before.push(bindings(v@)[i as int]));
        assert(bindings(v@).take(i + 1) =~= bindings(v@).take(i as int).push(
            bindings(v@)[i as int],
        ));
        i = i + 1;
    }
    assert(bindings(v@).take(v@.len() as int) =~= bindings(v@));
    r
}

fn clone_arguments(values: &Arguments) -> (r: Arguments)
    ensures
        arguments_view(r@) == arguments_view(values@),
{
    let mut r: Arguments = Table::new();
    let n: usize = values.len();
    let mut i: usize = 0;
    let ghost all = arguments_view(values@);
    let ghost order = values.order();
    while i < n
        invariant
            i <= n,
            n == order.len(),
            order == values.order(),
            order.no_duplicates(),
            all == arguments_view(values@),
            forall|t: Seq<char>|
                #![trigger r@.contains_key(t)]
                r@.contains_key(t) <==> order.take(i as int).contains(t),
            forall|t: Seq<char>| #[trigger]
                r@.contains_key(t) ==> all.contains_key(t) && bindings(r@[t]@) == all[t],
        decreases n - i,
    {
        let key = values.key_at(i);
        let ghost before = r@;
        let entry = clone_bindings(values.value_at(i));
        r.insert(key.clone(), entry);
        proof {
            assert(order.take(i + 1) =~= order.take(i as int).push(order[i as int]));
            assert forall|t: Seq<char>| #![trigger r@.contains_key(t)] r@.contains_key(t)
                <==> order.take(i + 1).contains(t) by {
                let shorter = order.take(i as int);
                if shorter.contains(t) {
                    let k = choose|k: int| 0 <= k < shorter.len() && shorter[k] == t;
                    assert(order.take(i + 1)[k] == t);
                }
                assert(order.take(i + 1)[i as int] == order[i as int]);
                assert(before.contains_key(t) <==> shorter.contains(t));
            }
        }
        i = i + 1;
    }
    proof {
        let m: usize = n;
        assert(order.take(n as int) =~= order);
    }
    let _ = values.len();
    assert forall|t: Seq<char>| #[trigger] all.contains_key(t) implies r@.contains_key(t) by {
        assert(values@.contains_key(t));
        assert(values.order().contains(t));
    }
    assert(arguments_view(r@) =~= all);
    r
}

// ---------------------------------------------------------------------------
// The ledger
// ---------------------------------------------------------------------------
impl RunArgumentLedger {
    /// Build the ledger for one plan from the creation-time argument map.
    /// Every value key must name a cap node of THIS plan.
    pub fn new(plan: &MachinePlan, values: Arguments) -> (r: Result<Self, RunArgumentError>)
        ensures
            r is Ok <==> (forall|t: Seq<char>| #[trigger]
                values@.contains_key(t) ==> plan::is_cap_node(plan.nodes@, t)),
            match r {
                Ok(ledger) => {
                    &&& ledger@.values == arguments_view(values@)
                    &&& ledger@.steps == initial_steps(plan.nodes@)
                    &&& ledger@.revision == 0
                    &&& ledger_valid(ledger@)
                },
                Err(RunArgumentError::UnknownInitialStep { token_id }) => {
                    // The first key, in the order of the table, that is no cap node.
                    exists|i: int|
                        #![trigger values.order()[i]]
                        {
                            &&& 0 <= i < values.order().len()
                            &&& values.order()[i] == token_id@
                            &&& !plan::is_cap_node(plan.nodes@, values.order()[i])
                            &&& forall|j: int|
                                0 <= j < i ==> plan::is_cap_node(
                                    plan.nodes@,
                                    #[trigger] values.order()[j],
                                )
                        }
                },
                Err(_) => false,
            },
    {
        let steps = journal_of(plan);
        let n: usize = values.len();
        let mut i: usize = 0;
        while i < n
            invariant
                i <= n,
                n == values.order().len(),
                steps@ == initial_steps(plan.nodes@),
                forall|j: int|
                    0 <= j < i ==> plan::is_cap_node(plan.nodes@, #[trigger] values.order()[j]),
            decreases n - i,
        {
            let token = values.key_at(i);
            if !steps.contains_key(token.as_str()) {
                assert(values.order()[i as int] == token@);
                return Err(RunArgumentError::UnknownInitialStep { token_id: token.clone() });
            }
            i = i + 1;
        }
        let _ = values.len();
        assert forall|t: Seq<char>| #[trigger] values@.contains_key(t) implies plan::is_cap_node(
            plan.nodes@,
            t,
        ) by {
            assert(values.order().contains(t));
            let j = choose|j: int| 0 <= j < values.order().len() && values.order()[j] == t;
            assert(values.order()[j] == t);
        }
        let ledger = RunArgumentLedger { values, steps, revision: 0 };
        assert forall|t: Seq<char>| #[trigger]
            ledger@.values.contains_key(t) implies ledger@.steps.contains_key(t) by {
            assert(values@.contains_key(t));
        }
        Ok(ledger)
    }

    /// A whole segment is being dispatched: journal every one of the
    /// subplan's cap nodes as dispatched-and-exhausted and return the values
    /// its invocations read. One atomic step — an update can land entirely
    /// before or entirely after, never between a segment's caps.
    pub fn snapshot_for_segment(&mut self, segment: &MachinePlan) -> (r: Arguments)
        requires
            covers(old(self)@.steps, segment.nodes@),
        ensures
            final(self)@ == (LedgerState {
                steps: segment_dispatched(old(self)@.steps, segment.nodes@),
                ..old(self)@
            }),
            arguments_view(r@) == old(self)@.values,
    {
        let n: usize = segment.nodes.len();
        let mut i: usize = 0;
        let ghost before = self@;
        let ghost nodes = segment.nodes@;
        let ghost order = segment.nodes.order();
        while i < n
            invariant
                i <= n,
                n == order.len(),
                order == segment.nodes.order(),
                nodes == segment.nodes@,
                covers(before.steps, nodes),
                self@.values == before.values,
                self@.revision == before.revision,
                self@.steps.dom() == before.steps.dom(),
                forall|t: Seq<char>| #[trigger]
                    self@.steps.contains_key(t) ==> self@.steps[t] == if order.take(
                        i as int,
                    ).contains(t) {
                        segment_dispatched(before.steps, nodes)[t]
                    } else {
                        before.steps[t]
                    },
            decreases n - i,
        {
            let ghost now = self@.steps;
            let key = segment.nodes.key_at(i);
            assert(order.take(i + 1) =~= order.take(i as int).push(order[i as int]));
            if invokes_cap(segment.nodes.value_at(i)) {
                assert(plan::is_cap_node(nodes, key@));
                if let Some(journal) = self.steps.get(key.as_str()) {
                    let noted = StepJournal {
                        dispatched: true,
                        bodies_dispatched: journal.bodies_dispatched,
                        exhausted: true,
                    };
                    self.steps.insert(key.clone(), noted);
                }
            }
            proof {
                lemma_take_push_contains(order, i as int);
            }
            i = i + 1;
        }
        let _ = segment.nodes.len();
        proof {
            assert(order.take(n as int) =~= order);
            assert(self@.steps =~= segment_dispatched(before.steps, nodes));
        }
        clone_arguments(&self.values)
    }

    /// One ForEach body is being spawned: journal the body subplan's cap nodes
    /// as having dispatched `body_index + 1` bodies and return the values this
    /// body reads.
    pub fn snapshot_for_body(&mut self, body: &MachinePlan, body_index: usize) -> (r: Arguments)
        requires
            covers(old(self)@.steps, body.nodes@),
            body_index < usize::MAX,
        ensures
            final(self)@ == (LedgerState {
                steps: bodies_dispatched(old(self)@.steps, body.nodes@, (body_index + 1) as u64),
                ..old(self)@
            }),
            arguments_view(r@) == old(self)@.values,
    {
        let count: u64 = (body_index + 1) as u64;
        let n: usize = body.nodes.len();
        let mut i: usize = 0;
        let ghost before = self@;
        let ghost nodes = body.nodes@;
        let ghost order = body.nodes.order();
        while i < n
            invariant
                i <= n,
                n == order.len(),
                order == body.nodes.order(),
                nodes == body.nodes@,
                covers(before.steps, nodes),
                self@.values == before.values,
                self@.revision == before.revision,
                self@.steps.dom() == before.steps.dom(),
                forall|t: Seq<char>| #[trigger]
                    self@.steps.contains_key(t) ==> self@.steps[t] == if order.take(
                        i as int,
                    ).contains(t) {
                        bodies_dispatched(before.steps, nodes, count)[t]
                    } else {
                        before.steps[t]
                    },
            decreases n - i,
        {
            let key = body.nodes.key_at(i);
            assert(order.take(i + 1) =~= order.take(i as int).push(order[i as int]));
            if invokes_cap(body.nodes.value_at(i)) {
                assert(plan::is_cap_node(nodes, key@));
                if let Some(journal) = self.steps.get(key.as_str()) {
                    if journal.bodies_dispatched < count {
                        let noted = StepJournal {
                            dispatched: journal.dispatched,
                            bodies_dispatched: count,
                            exhausted: journal.exhausted,
                        };
                        self.steps.insert(key.clone(), noted);
                    }
                }
            }
            proof {
                lemma_take_push_contains(order, i as int);
            }
            i = i + 1;
        }
        let _ = body.nodes.len();
        proof {
            assert(order.take(n as int) =~= order);
            assert(self@.steps =~= bodies_dispatched(before.steps, nodes, count));
        }
        clone_arguments(&self.values)
    }

    /// The region's item source is exhausted: no further body will dispatch,
    /// so its steps report **already dispatched** from here on.
    pub fn exhaust_bodies(&mut self, body: &MachinePlan)
        requires
            covers(old(self)@.steps, body.nodes@),
        ensures
            final(self)@ == (LedgerState {
                steps: bodies_exhausted(old(self)@.steps, body.nodes@),
                ..old(self)@
            }),
    {
        let n: usize = body.nodes.len();
        let mut i: usize = 0;
        let ghost before = self@;
        let ghost nodes = body.nodes@;
        let ghost order = body.nodes.order();
        while i < n
            invariant
                i <= n,
                n == order.len(),
                order == body.nodes.order(),
                nodes == body.nodes@,
                covers(before.steps, nodes),
                self@.values == before.values,
                self@.revision == before.revision,
                self@.steps.dom() == before.steps.dom(),
                forall|t: Seq<char>| #[trigger]
                    self@.steps.contains_key(t) ==> self@.steps[t] == if order.take(
                        i as int,
                    ).contains(t) {
                        bodies_exhausted(before.steps, nodes)[t]
                    } else {
                        before.steps[t]
                    },
            decreases n - i,
        {
            let key = body.nodes.key_at(i);
            assert(order.take(i + 1) =~= order.take(i as int).push(order[i as int]));
            if invokes_cap(body.nodes.value_at(i)) {
                assert(plan::is_cap_node(nodes, key@));
                if let Some(journal) = self.steps.get(key.as_str()) {
                    let noted = StepJournal {
                        dispatched: journal.dispatched,
                        bodies_dispatched: journal.bodies_dispatched,
                        exhausted: true,
                    };
                    self.steps.insert(key.clone(), noted);
                }
            }
            proof {
                lemma_take_push_contains(order, i as int);
            }
            i = i + 1;
        }
        let _ = body.nodes.len();
        proof {
            assert(order.take(n as int) =~= order);
            assert(self@.steps =~= bodies_exhausted(before.steps, nodes));
        }
    }

    /// Bind one argument of one step, replacing by media-URN equivalence.
    fn rebind(&mut self, token: &String, urn: &MediaUrn, value: &Vec<u8>)
        requires
            urn::media_parsed(urn.text@) == Ok::<_, crate::urn::UrnFault>(urn@),
        ensures
            final(self)@ == (LedgerState {
                values: old(self)@.values.insert(
                    token@,
                    rebound(bindings_of(old(self)@.values, token@), urn.text@, value@),
                ),
                ..old(self)@
            }),
    {
        let mut entries: Vec<(String, Vec<u8>)> = match self.values.get(token.as_str()) {
            Some(stored) => clone_bindings(stored),
            None => Vec::new(),
        };
        let ghost held = bindings_of(self@.values, token@);
        assert(bindings(entries@) =~= held);
        let mut i: usize = 0;
        while i < entries.len() && !denotes(entries[i].0.as_str(), urn)
            invariant
                i <= entries.len(),
                urn::media_parsed(urn.text@) == Ok::<_, crate::urn::UrnFault>(urn@),
                bindings(entries@) == held,
                binding_index(held, urn.text@, 0) == binding_index(held, urn.text@, i as int),
            decreases entries.len() - i,
        {
            assert(held[i as int].0 == entries@[i as int].0@);
            i = i + 1;
        }
        if i < entries.len() {
            assert(held[i as int].0 == entries@[i as int].0@);
            let stored = entries[i].0.clone();
            entries.set(i, (stored, clone_bytes(value)));
            assert(bindings(entries@) =~= held.update(i as int, (held[i as int].0, value@)));
        } else {
            entries.push((urn.text.clone(), clone_bytes(value)));
            assert(bindings(entries@) =~= held.push((urn.text@, value@)));
        }
        let ghost before = self.values@;
        self.values.insert(token.clone(), entries);
        assert(arguments_view(self.values@) =~= arguments_view(before).insert(
            token@,
            bindings(entries@),
        ));
    }

    /// Apply a batch of updates transactionally. Validation (every token names
    /// a cap node, every URN parses) happens before any value changes; the
    /// per-step disposition is decided in the operation that writes the value,
    /// so the reported outcome IS what the executor delivers.
    pub fn apply(&mut self, updates: &[ArgumentUpdate]) -> (r: Result<
        AppliedArgumentUpdate,
        RunArgumentError,
    >)
        requires
            batch_fault(old(self)@.steps, requests(updates@), 0) is None && batch_changes(
                old(self)@.steps,
                requests(updates@),
            ) ==> old(self)@.revision < u64::MAX,
        ensures
            match r {
                Ok(applied) => {
                    &&& batch_fault(old(self)@.steps, requests(updates@), 0) is None
                    &&& final(self)@ == after_batch(old(self)@, requests(updates@))
                    &&& reports(applied.outcomes@) == batch_reports(
                        old(self)@.steps,
                        requests(updates@),
                    )
                    &&& applied.revision == final(self)@.revision
                },
                Err(e) => {
                    &&& batch_fault(old(self)@.steps, requests(updates@), 0) == Some(e@)
                    &&& final(self)@ == old(self)@
                },
            },
    {
        let ghost asked = requests(updates@);
        let ghost before = self@;
        // Validate the whole batch first — a refused batch changes nothing.
        let mut parsed: Vec<MediaUrn> = Vec::new();
        let mut i: usize = 0;
        while i < updates.len()
            invariant
                i <= updates.len(),
                parsed.len() == i,
                asked == requests(updates@),
                before == self@,
                before == old(self)@,
                batch_fault(before.steps, asked, 0) == batch_fault(before.steps, asked, i as int),
                forall|j: int|
                    0 <= j < i ==> #[trigger] addressed(before.steps, asked[j], parsed@[j]),
            decreases updates.len() - i,
        {
            let update = &updates[i];
            assert(asked[i as int] == update@);
            if !self.steps.contains_key(update.token_id.as_str()) {
                return Err(RunArgumentError::UnknownStep { token_id: update.token_id.clone() });
            }
            match MediaUrn::from_string(update.media_urn.as_str()) {
                Ok(urn) => {
                    parsed.push(urn);
                },
                Err(e) => {
                    return Err(
                        RunArgumentError::InvalidMediaUrn {
                            token_id: update.token_id.clone(),
                            media_urn: update.media_urn.clone(),
                            detail: e.detail(),
                        },
                    );
                },
            }
            i = i + 1;
        }
        let mut outcomes: Vec<ArgumentUpdateOutcome> = Vec::new();
        let mut changed: bool = false;
        let mut i: usize = 0;
        while i < updates.len()
            invariant
                i <= updates.len(),
                parsed.len() == updates.len(),
                asked == requests(updates@),
                before == old(self)@,
                self@.steps == before.steps,
                self@.revision == before.revision,
                self@.values == values_after_all(before.values, before.steps, asked, i as nat),
                batch_fault(before.steps, asked, 0) is None,
                forall|j: int|
                    0 <= j < updates.len() ==> #[trigger] addressed(
                        before.steps,
                        asked[j],
                        parsed@[j],
                    ),
                reports(outcomes@) == batch_reports(before.steps, asked).take(i as int),
                changed == exists|j: int|
                    0 <= j < i && !(disposition(before.steps[(#[trigger] asked[j]).token])
                        is AlreadyDispatched),
            decreases updates.len() - i,
        {
            let update = &updates[i];
            assert(asked[i as int] == update@);
            assert(addressed(before.steps, asked[i as int], parsed@[i as int]));
            let ghost seen = changed;
            let disposition = match self.steps.get(update.token_id.as_str()) {
                Some(journal) => if journal.exhausted || journal.dispatched {
                    ArgumentUpdateDisposition::AlreadyDispatched
                } else if journal.bodies_dispatched > 0 {
                    ArgumentUpdateDisposition::AppliedToRemainingBodies {
                        bodies_dispatched: journal.bodies_dispatched,
                    }
                } else {
                    ArgumentUpdateDisposition::Applied
                },
                None => ArgumentUpdateDisposition::AlreadyDispatched,
            };
            if disposition != ArgumentUpdateDisposition::AlreadyDispatched {
                // Replace by media-URN equivalence (URNs are opaque — never
                // compared as strings), else append: an argument that rode on
                // its cap-side default until now gains its first explicit
                // value.
                self.rebind(&update.token_id, &parsed[i], &update.value);
                changed = true;
            }
            let ghost noted = reports(outcomes@);
            outcomes.push(
                ArgumentUpdateOutcome {
                    token_id: update.token_id.clone(),
                    media_urn: update.media_urn.clone(),
                    disposition,
                },
            );
            proof {
                let all = batch_reports(before.steps, asked);
                assert(reports(outcomes@) =~= noted.push(outcomes@[i as int]@));
                assert(all.take(i + 1) =~= all.take(i as int).push(all[i as int]));
                if changed {
                    if !seen {
                        assert(!(crate::run_arguments::disposition(
                            before.steps[asked[i as int].token],
                        ) is AlreadyDispatched));
                    }
                }
            }
            i = i + 1;
        }
        if changed {
            assert(batch_changes(before.steps, asked));
            self.revision = self.revision + 1;
        }
        proof {
            let all = batch_reports(before.steps, asked);
            assert(all.take(asked.len() as int) =~= all);
        }
        Ok(AppliedArgumentUpdate { outcomes, revision: self.revision })
    }

    /// The current revision (0 until the first applied change).
    pub fn revision(&self) -> (r: u64)
        ensures
            r == self@.revision,
    {
        self.revision
    }

    /// The step tokens this ledger journals (the plan's cap nodes), each once.
    pub fn step_tokens(&self) -> (r: Vec<String>)
        ensures
            crate::text::views(r@).no_duplicates(),
            forall|t: Seq<char>| #[trigger]
                crate::text::views(r@).contains(t) <==> self@.steps.contains_key(t),
    {
        let n: usize = self.steps.len();
        let mut r: Vec<String> = Vec::new();
        let mut i: usize = 0;
        while i < n
            invariant
                i <= n,
                n == self.steps.order().len(),
                crate::text::views(r@) == self.steps.order().take(i as int),
            decreases n - i,
        {
            let ghost before = crate::text::views(r@);
            r.push(self.steps.key_at(i).clone());
            assert(crate::text::views(r@) =~= before.push(self.steps.order()[i as int]));
            assert(self.steps.order().take(i + 1) =~= self.steps.order().take(i as int).push(
                self.steps.order()[i as int],
            ));
            i = i + 1;
        }
        let _ = self.steps.len();
        assert(self.steps.order().take(n as int) =~= self.steps.order());
        r
    }
}

fn journal_of(plan: &MachinePlan) -> (steps: Table<StepJournal>)
    ensures
        steps@ == initial_steps(plan.nodes@),
{
    let mut steps: Table<StepJournal> = Table::new();
    let n: usize = plan.nodes.len();
    let mut i: usize = 0;
    let ghost order = plan.nodes.order();
    let ghost nodes = plan.nodes@;
    while i < n
        invariant
            i <= n,
            n == order.len(),
            order == plan.nodes.order(),
            nodes == plan.nodes@,
            forall|t: Seq<char>| #[trigger]
                steps@.contains_key(t) <==> order.take(i as int).contains(t) && plan::is_cap_node(
                    nodes,
                    t,
                ),
            forall|t: Seq<char>| #[trigger] steps@.contains_key(t) ==> steps@[t] == untouched(),
        decreases n - i,
    {
        proof {
            lemma_take_push_contains(order, i as int);
        }
        let key = plan.nodes.key_at(i);
        if invokes_cap(plan.nodes.value_at(i)) {
            steps.insert(
                key.clone(),
                StepJournal { dispatched: false, bodies_dispatched: 0, exhausted: false },
            );
        }
        i = i + 1;
    }
    let _ = plan.nodes.len();
    proof {
        assert(order.take(n as int) =~= order);
        assert forall|t: Seq<char>| plan::is_cap_node(nodes, t) implies #[trigger] steps@.contains_key(
            t,
        ) by {
            assert(order.contains(t));
        }
    }
    assert(steps@ =~= initial_steps(plan.nodes@));
    steps
}

/// Taking one element more adds exactly that element.
pub proof fn lemma_take_push_contains<T>(s: Seq<T>, i: int)
    requires
        0 <= i < s.len(),
    ensures
        forall|t: T| #[trigger] s.take(i + 1).contains(t) <==> s.take(i).contains(t) || t == s[i],
{
    assert forall|t: T| #[trigger] s.take(i + 1).contains(t) <==> s.take(i).contains(t) || t
        == s[i] by {
        if s.take(i).contains(t) {
            let k = choose|k: int| 0 <= k < i && s.take(i)[k] == t;
            assert(s.take(i + 1)[k] == t);
        }
        assert(s.take(i + 1)[i] == s[i]);
        if s.take(i + 1).contains(t) {
            let longer = s.take(i + 1);
            let k = choose|k: int| 0 <= k < longer.len() && longer[k] == t;
            if k < i {
                assert(s.take(i)[k] == t);
            }
        }
    }
}

// ---------------------------------------------------------------------------
// Laws
// ---------------------------------------------------------------------------
/// What the next dispatch of a step reads for an argument.
pub open spec fn argument_read(b: Bindings, urn: Seq<char>) -> Option<Seq<u8>> {
    let i = binding_index(b, urn, 0);
    if i < b.len() {
        Some(b[i].1)
    } else {
        None
    }
}

proof fn lemma_binding_index(b: Bindings, urn: Seq<char>, from: int)
    requires
        0 <= from <= b.len(),
    ensures
        from <= binding_index(b, urn, from) <= b.len(),
        binding_index(b, urn, from) < b.len() ==> urn::media_equivalent(
            b[binding_index(b, urn, from)].0,
            urn,
        ),
        forall|j: int|
            from <= j < binding_index(b, urn, from) ==> !urn::media_equivalent(
                (#[trigger] b[j]).0,
                urn,
            ),
    decreases b.len() - from,
{
    if from < b.len() && !urn::media_equivalent(b[from].0, urn) {
        lemma_binding_index(b, urn, from + 1);
    }
}

proof fn lemma_binding_index_is(b: Bindings, urn: Seq<char>, from: int, at: int)
    requires
        0 <= from <= at < b.len(),
        urn::media_equivalent(b[at].0, urn),
        forall|j: int| from <= j < at ==> !urn::media_equivalent((#[trigger] b[j]).0, urn),
    ensures
        binding_index(b, urn, from) == at,
    decreases at - from,
{
    if from < at {
        assert(!urn::media_equivalent(b[from].0, urn));
        lemma_binding_index_is(b, urn, from + 1, at);
    }
}

proof fn lemma_rebound_is_read(b: Bindings, urn: Seq<char>, value: Seq<u8>)
    requires
        urn::media_parsed(urn) is Ok,
    ensures
        argument_read(rebound(b, urn, value), urn) == Some(value),
{
    lemma_binding_index(b, urn, 0);
    let i = binding_index(b, urn, 0);
    let after = rebound(b, urn, value);
    assert forall|j: int| 0 <= j < i implies !urn::media_equivalent((#[trigger] after[j]).0, urn) by {
        assert(after[j] == b[j]);
    }
    lemma_binding_index_is(after, urn, 0, i);
}

proof fn lemma_rebound_keeps_others(
    b: Bindings,
    urn: Seq<char>,
    value: Seq<u8>,
    other: Seq<char>,
)
    requires
        urn::media_parsed(urn) is Ok,
        !urn::media_equivalent(urn, other),
        argument_read(b, other) is Some,
    ensures
        argument_read(rebound(b, urn, value), other) == argument_read(b, other),
{
    lemma_binding_index(b, urn, 0);
    lemma_binding_index(b, other, 0);
    let i = binding_index(b, urn, 0);
    let at = binding_index(b, other, 0);
    let after = rebound(b, urn, value);
    assert(i != at);
    assert(after[at] == b[at]);
    assert forall|j: int| 0 <= j < at implies !urn::media_equivalent((#[trigger] after[j]).0, other) by {
        assert(after[j].0 == b[j].0);
    }
    lemma_binding_index_is(after, other, 0, at);
}

/// Every dispatch operation keeps the set of steps: a step of the plan has a
/// journal entry from birth and never loses it.
pub proof fn dispatch_keeps_the_steps(
    steps: Map<Seq<char>, StepJournal>,
    nodes: Map<Seq<char>, MachineNode>,
    count: u64,
)
    ensures
        segment_dispatched(steps, nodes).dom() == steps.dom(),
        bodies_dispatched(steps, nodes, count).dom() == steps.dom(),
        bodies_exhausted(steps, nodes).dom() == steps.dom(),
{
    assert(segment_dispatched(steps, nodes).dom() =~= steps.dom());
    assert(bodies_dispatched(steps, nodes, count).dom() =~= steps.dom());
    assert(bodies_exhausted(steps, nodes).dom() =~= steps.dom());
}

proof fn lemma_values_stay_with_steps(s: LedgerState, updates: Seq<UpdateRequest>, n: nat)
    requires
        ledger_valid(s),
        n <= updates.len(),
        forall|j: int| 0 <= j < updates.len() ==> s.steps.contains_key((#[trigger] updates[j]).token),
    ensures
        forall|t: Seq<char>| #[trigger]
            values_after_all(s.values, s.steps, updates, n).contains_key(t) ==> s.steps.contains_key(
                t,
            ),
    decreases n,
{
    if n > 0 {
        lemma_values_stay_with_steps(s, updates, (n - 1) as nat);
        let before = values_after_all(s.values, s.steps, updates, (n - 1) as nat);
        let after = values_after_all(s.values, s.steps, updates, n);
        assert(s.steps.contains_key(updates[n - 1].token));
        assert forall|t: Seq<char>| #[trigger] after.contains_key(t) implies s.steps.contains_key(
            t,
        ) by {
            assert(t == updates[n - 1].token || before.contains_key(t));
        }
    }
}

proof fn lemma_batch_names_steps(
    steps: Map<Seq<char>, StepJournal>,
    updates: Seq<UpdateRequest>,
    from: int,
)
    requires
        0 <= from <= updates.len(),
        batch_fault(steps, updates, from) is None,
    ensures
        forall|j: int|
            from <= j < updates.len() ==> {
                &&& steps.contains_key((#[trigger] updates[j]).token)
                &&& urn::media_parsed(updates[j].urn) is Ok
            },
    decreases updates.len() - from,
{
    if from < updates.len() {
        assert(update_fault(steps, updates[from]) is None);
        lemma_batch_names_steps(steps, updates, from + 1);
    }
}

/// A taken batch keeps a valid ledger valid: values are held for steps of the
/// plan only.
pub proof fn updates_keep_the_ledger_valid(s: LedgerState, updates: Seq<UpdateRequest>)
    requires
        ledger_valid(s),
        batch_fault(s.steps, updates, 0) is None,
    ensures
        ledger_valid(after_batch(s, updates)),
{
    lemma_batch_names_steps(s.steps, updates, 0);
    lemma_values_stay_with_steps(s, updates, updates.len());
}

proof fn lemma_final_values(
    values: Values,
    steps: Map<Seq<char>, StepJournal>,
    updates: Seq<UpdateRequest>,
    n: nat,
    token: Seq<char>,
)
    requires
        disposition(steps[token]) is AlreadyDispatched,
        n <= updates.len(),
    ensures
        values_after_all(values, steps, updates, n).contains_key(token) == values.contains_key(
            token,
        ),
        values.contains_key(token) ==> values_after_all(values, steps, updates, n)[token]
            == values[token],
    decreases n,
{
    if n > 0 {
        lemma_final_values(values, steps, updates, (n - 1) as nat, token);
    }
}

/// The value of a step whose every dispatch is behind it is left untouched by
/// every batch.
pub proof fn dispatched_step_keeps_its_values(
    s: LedgerState,
    updates: Seq<UpdateRequest>,
    token: Seq<char>,
)
    requires
        s.steps.contains_key(token),
        s.steps[token].dispatched || s.steps[token].exhausted,
    ensures
        bindings_of(after_batch(s, updates).values, token) == bindings_of(s.values, token),
        after_batch(s, updates).values.contains_key(token) == s.values.contains_key(token),
{
    lemma_final_values(s.values, s.steps, updates, updates.len(), token);
}

/// Once a segment is dispatched, every later update of one of its steps reports
/// already dispatched.
pub proof fn segment_dispatch_is_final(
    steps: Map<Seq<char>, StepJournal>,
    nodes: Map<Seq<char>, MachineNode>,
    token: Seq<char>,
)
    requires
        covers(steps, nodes),
        plan::is_cap_node(nodes, token),
    ensures
        disposition(segment_dispatched(steps, nodes)[token]) is AlreadyDispatched,
{
}

/// Once a region's items are exhausted, every later update of one of its steps
/// reports already dispatched.
pub proof fn exhaustion_is_final(
    steps: Map<Seq<char>, StepJournal>,
    nodes: Map<Seq<char>, MachineNode>,
    token: Seq<char>,
)
    requires
        covers(steps, nodes),
        plan::is_cap_node(nodes, token),
    ensures
        disposition(bodies_exhausted(steps, nodes)[token]) is AlreadyDispatched,
{
}

/// Between the dispatch of body `k` and that of the next, an update of a step
/// of the region reports exactly the `k + 1` bodies that took the old value.
pub proof fn report_counts_the_bodies_that_ran(
    steps: Map<Seq<char>, StepJournal>,
    nodes: Map<Seq<char>, MachineNode>,
    token: Seq<char>,
    k: u64,
)
    requires
        covers(steps, nodes),
        plan::is_cap_node(nodes, token),
        !steps[token].dispatched && !steps[token].exhausted,
        steps[token].bodies_dispatched <= k,
        k < u64::MAX,
    ensures
        disposition(bodies_dispatched(steps, nodes, (k + 1) as u64)[token]) == (
        ArgumentUpdateDisposition::AppliedToRemainingBodies { bodies_dispatched: (k + 1) as u64 }),
{
}

/// The count of bodies never goes back.
pub proof fn body_counts_only_grow(
    steps: Map<Seq<char>, StepJournal>,
    nodes: Map<Seq<char>, MachineNode>,
    count: u64,
    token: Seq<char>,
)
    requires
        steps.contains_key(token),
    ensures
        bodies_dispatched(steps, nodes, count)[token].bodies_dispatched
            >= steps[token].bodies_dispatched,
{
}

proof fn lemma_read_survives(
    values: Values,
    steps: Map<Seq<char>, StepJournal>,
    updates: Seq<UpdateRequest>,
    i: int,
    n: nat,
)
    requires
        0 <= i < n <= updates.len(),
        urn::media_parsed(updates[i].urn) is Ok,
        !(disposition(steps[updates[i].token]) is AlreadyDispatched),
        forall|j: int|
            i < j < updates.len() ==> {
                &&& urn::media_parsed((#[trigger] updates[j]).urn) is Ok
                &&& !(updates[j].token == updates[i].token && urn::media_equivalent(
                    updates[j].urn,
                    updates[i].urn,
                ))
            },
    ensures
        argument_read(
            bindings_of(values_after_all(values, steps, updates, n), updates[i].token),
            updates[i].urn,
        ) == Some(updates[i].value),
    decreases n,
{
    let before = values_after_all(values, steps, updates, (n - 1) as nat);
    let held = bindings_of(before, updates[n - 1].token);
    if i == n - 1 {
        lemma_rebound_is_read(held, updates[i].urn, updates[i].value);
    } else {
        lemma_read_survives(values, steps, updates, i, (n - 1) as nat);
        if updates[n - 1].token == updates[i].token {
            lemma_rebound_keeps_others(
                held,
                updates[n - 1].urn,
                updates[n - 1].value,
                updates[i].urn,
            );
        }
    }
}

/// An update that reports anything but already dispatched is what the next
/// dispatch of its step reads, unless a later update of the batch addresses the
/// same argument.
pub proof fn an_applied_update_is_delivered(s: LedgerState, updates: Seq<UpdateRequest>, i: int)
    requires
        batch_fault(s.steps, updates, 0) is None,
        0 <= i < updates.len(),
        !(batch_reports(s.steps, updates)[i].disposition is AlreadyDispatched),
        forall|j: int|
            i < j < updates.len() ==> !((#[trigger] updates[j]).token == updates[i].token
                && urn::media_equivalent(updates[j].urn, updates[i].urn)),
    ensures
        argument_read(
            bindings_of(after_batch(s, updates).values, updates[i].token),
            updates[i].urn,
        ) == Some(updates[i].value),
{
    lemma_batch_names_steps(s.steps, updates, 0);
    lemma_read_survives(s.values, s.steps, updates, i, updates.len());
}

proof fn lemma_untouched_values(
    values: Values,
    steps: Map<Seq<char>, StepJournal>,
    updates: Seq<UpdateRequest>,
    n: nat,
)
    requires
        !batch_changes(steps, updates),
        n <= updates.len(),
    ensures
        values_after_all(values, steps, updates, n) == values,
    decreases n,
{
    if n > 0 {
        lemma_untouched_values(values, steps, updates, (n - 1) as nat);
        assert(disposition(steps[updates[n - 1].token]) is AlreadyDispatched);
    }
}

/// The revision never goes back, grows by at most one per batch, and stays
/// exactly where no update of the batch reached anything — and then no value
/// changed either.
pub proof fn revision_is_monotone(s: LedgerState, updates: Seq<UpdateRequest>)
    requires
        s.revision < u64::MAX,
    ensures
        s.revision <= after_batch(s, updates).revision <= s.revision + 1,
        after_batch(s, updates).revision == s.revision <==> !batch_changes(s.steps, updates),
        after_batch(s, updates).revision == s.revision ==> after_batch(s, updates) == s,
{
    if !batch_changes(s.steps, updates) {
        lemma_untouched_values(s.values, s.steps, updates, updates.len());
        assert(after_batch(s, updates) =~= s);
    }
}

/// A batch is refused exactly where an update cannot be taken, and the first
/// such update names the refusal.
pub proof fn a_refusal_names_the_first_fault(
    steps: Map<Seq<char>, StepJournal>,
    updates: Seq<UpdateRequest>,
)
    ensures
        batch_fault(steps, updates, 0) is None <==> forall|k: int|
            0 <= k < updates.len() ==> update_fault(steps, #[trigger] updates[k]) is None,
        batch_fault(steps, updates, 0) matches Some(fault) ==> exists|k: int|
            0 <= k < updates.len() && update_fault(steps, #[trigger] updates[k]) == Some(fault)
                && forall|j: int|
                0 <= j < k ==> update_fault(steps, #[trigger] updates[j]) is None,
{
    lemma_first_fault(steps, updates, 0);
}

proof fn lemma_first_fault(
    steps: Map<Seq<char>, StepJournal>,
    updates: Seq<UpdateRequest>,
    from: int,
)
    requires
        0 <= from <= updates.len(),
    ensures
        batch_fault(steps, updates, from) is None <==> forall|k: int|
            from <= k < updates.len() ==> update_fault(steps, #[trigger] updates[k]) is None,
        batch_fault(steps, updates, from) matches Some(fault) ==> exists|k: int|
            from <= k < updates.len() && update_fault(steps, #[trigger] updates[k]) == Some(fault)
                && forall|j: int|
                from <= j < k ==> update_fault(steps, #[trigger] updates[j]) is None,
    decreases updates.len() - from,
{
    if from < updates.len() {
        lemma_first_fault(steps, updates, from + 1);
        if update_fault(steps, updates[from]) is None {
            if let Some(fault) = batch_fault(steps, updates, from + 1) {
                let k = choose|k: int|
                    from + 1 <= k < updates.len() && update_fault(steps, #[trigger] updates[k])
                        == Some(fault) && forall|j: int|
                        from + 1 <= j < k ==> update_fault(steps, #[trigger] updates[j]) is None;
                assert(update_fault(steps, updates[k]) == Some(fault));
            }
        } else {
            assert(update_fault(steps, updates[from]) is Some);
        }
    }
}

// ---------------------------------------------------------------------------
// Histories
// ---------------------------------------------------------------------------
/// One operation on a ledger.
pub ghost enum LedgerOp {
    /// A segment is dispatched.
    Segment(Map<Seq<char>, MachineNode>),
    /// A body is dispatched, with its index.
    Body(Map<Seq<char>, MachineNode>, usize),
    /// The items of a region are exhausted.
    Exhaust(Map<Seq<char>, MachineNode>),
    /// A batch of updates is applied.
    Apply(Seq<UpdateRequest>),
}

/// The ledger once an operation is through. A refused batch changes nothing.
pub open spec fn after_op(s: LedgerState, op: LedgerOp) -> LedgerState {
    match op {
        LedgerOp::Segment(nodes) => LedgerState { steps: segment_dispatched(s.steps, nodes), ..s },
        LedgerOp::Body(nodes, index) => LedgerState {
            steps: bodies_dispatched(s.steps, nodes, (index + 1) as u64),
            ..s
        },
        LedgerOp::Exhaust(nodes) => LedgerState { steps: bodies_exhausted(s.steps, nodes), ..s },
        LedgerOp::Apply(updates) => if batch_fault(s.steps, updates, 0) is None {
            after_batch(s, updates)
        } else {
            s
        },
    }
}

/// The ledger once a history is through.
pub open spec fn after_ops(s: LedgerState, ops: Seq<LedgerOp>) -> LedgerState
    decreases ops.len(),
{
    if ops.len() == 0 {
        s
    } else {
        after_op(after_ops(s, ops.drop_last()), ops.last())
    }
}

proof fn lemma_after_ops_concat(s: LedgerState, a: Seq<LedgerOp>, b: Seq<LedgerOp>)
    ensures
        after_ops(s, a + b) == after_ops(after_ops(s, a), b),
    decreases b.len(),
{
    if b.len() == 0 {
        assert(a + b =~= a);
    } else {
        lemma_after_ops_concat(s, a, b.drop_last());
        assert((a + b).drop_last() =~= a + b.drop_last());
    }
}

/// A refused batch leaves no trace: whatever comes behind it, the ledger — its
/// revision, the values that every later snapshot reads and the journal that
/// every later disposition is decided by — is as if the batch had not been
/// tried.
pub proof fn a_refused_batch_leaves_no_trace(
    s: LedgerState,
    before: Seq<LedgerOp>,
    updates: Seq<UpdateRequest>,
    behind: Seq<LedgerOp>,
)
    requires
        batch_fault(after_ops(s, before).steps, updates, 0) is Some,
    ensures
        after_ops(s, before.push(LedgerOp::Apply(updates)) + behind) == after_ops(
            s,
            before + behind,
        ),
{
    let tried = before.push(LedgerOp::Apply(updates));
    lemma_after_ops_concat(s, tried, behind);
    lemma_after_ops_concat(s, before, behind);
    assert(tried.drop_last() =~= before);
}

/// Whether an operation puts every dispatch of a step behind it.
pub open spec fn finishes(op: LedgerOp, token: Seq<char>) -> bool {
    match op {
        LedgerOp::Segment(nodes) => plan::is_cap_node(nodes, token),
        LedgerOp::Exhaust(nodes) => plan::is_cap_node(nodes, token),
        _ => false,
    }
}

/// Whether an operation dispatches body `index` of a step.
pub open spec fn dispatches_body(op: LedgerOp, token: Seq<char>, index: int) -> bool {
    op matches LedgerOp::Body(nodes, i) && i == index && plan::is_cap_node(nodes, token)
}

/// Whether an operation of a history puts every dispatch of a step behind it.
pub open spec fn is_finished(ops: Seq<LedgerOp>, token: Seq<char>) -> bool {
    exists|i: int| 0 <= i < ops.len() && finishes(#[trigger] ops[i], token)
}

/// Whether body `index` of a step is dispatched in a history.
pub open spec fn ran_body(ops: Seq<LedgerOp>, token: Seq<char>, index: int) -> bool {
    exists|i: int| 0 <= i < ops.len() && dispatches_body(#[trigger] ops[i], token, index)
}

/// Whether the indices of all bodies in a history can be counted.
pub open spec fn countable(ops: Seq<LedgerOp>) -> bool {
    forall|i: int|
        0 <= i < ops.len() ==> (#[trigger] ops[i] matches LedgerOp::Body(_, k) ==> k < usize::MAX)
}

/// The journal of a step behind a history: what finished it, and its last body.
proof fn lemma_journal(s: LedgerState, ops: Seq<LedgerOp>, token: Seq<char>)
    requires
        s.steps.contains_key(token),
        s.steps[token] == untouched(),
        countable(ops),
    ensures
        ({
            let j = after_ops(s, ops).steps[token];
            let n = j.bodies_dispatched;
            &&& after_ops(s, ops).steps.contains_key(token)
            &&& j.dispatched || j.exhausted <==> is_finished(ops, token)
            &&& n > 0 ==> ran_body(ops, token, n - 1)
            &&& forall|index: int| #[trigger] ran_body(ops, token, index) ==> index < n
        }),
    decreases ops.len(),
{
    if ops.len() > 0 {
        let short = ops.drop_last();
        let op = ops.last();
        assert forall|i: int| 0 <= i < short.len() implies (#[trigger] short[i] matches LedgerOp::Body(
            _,
            k,
        ) ==> k < usize::MAX) by {
            assert(short[i] == ops[i]);
        }
        lemma_journal(s, short, token);
        let was = after_ops(s, short).steps[token];
        let now = after_ops(s, ops).steps[token];
        assert(ops[ops.len() - 1] == op);
        assert(is_finished(ops, token) <==> is_finished(short, token) || finishes(op, token)) by {
            if is_finished(short, token) {
                let i = choose|i: int| 0 <= i < short.len() && finishes(#[trigger] short[i], token);
                assert(finishes(ops[i], token));
            }
            if finishes(op, token) {
                assert(finishes(ops[ops.len() - 1], token));
            }
            if is_finished(ops, token) && !finishes(op, token) {
                let i = choose|i: int| 0 <= i < ops.len() && finishes(#[trigger] ops[i], token);
                assert(finishes(short[i], token));
            }
        }
        assert forall|index: int| #[trigger] ran_body(ops, token, index) <==> ran_body(
            short,
            token,
            index,
        ) || dispatches_body(op, token, index) by {
            if ran_body(short, token, index) {
                let i = choose|i: int|
                    0 <= i < short.len() && dispatches_body(#[trigger] short[i], token, index);
                assert(dispatches_body(ops[i], token, index));
            }
            if dispatches_body(op, token, index) {
                assert(dispatches_body(ops[ops.len() - 1], token, index));
            }
            if ran_body(ops, token, index) && !dispatches_body(op, token, index) {
                let i = choose|i: int|
                    0 <= i < ops.len() && dispatches_body(#[trigger] ops[i], token, index);
                assert(dispatches_body(short[i], token, index));
            }
        }
        if let LedgerOp::Body(nodes, index) = op {
            assert(index < usize::MAX);
            if plan::is_cap_node(nodes, token) {
                assert(dispatches_body(op, token, index as int));
            }
        }
        if now.bodies_dispatched > 0 {
            assert(ran_body(ops, token, now.bodies_dispatched - 1) <==> ran_body(
                short,
                token,
                now.bodies_dispatched - 1,
            ) || dispatches_body(op, token, now.bodies_dispatched - 1));
        }
        assert forall|index: int| #[trigger] ran_body(ops, token, index) implies index
            < now.bodies_dispatched by {
            if ran_body(short, token, index) {
                assert(index < was.bodies_dispatched);
            }
        }
    }
}

/// What an update of a step reaches depends on what was dispatched before it and
/// on nothing else: already dispatched once a segment with the step was
/// dispatched or its bodies exhausted; else the bodies up to the highest index
/// dispatched took the old value; else every invocation reads the new one.
/// Neither the order of the dispatches, nor earlier batches, nor the other
/// updates of the batch matter.
pub proof fn a_disposition_depends_on_the_dispatches_alone(
    s: LedgerState,
    ops: Seq<LedgerOp>,
    updates: Seq<UpdateRequest>,
    k: int,
)
    requires
        0 <= k < updates.len(),
        s.steps.contains_key(updates[k].token),
        s.steps[updates[k].token] == untouched(),
        countable(ops),
    ensures
        match batch_reports(after_ops(s, ops).steps, updates)[k].disposition {
            ArgumentUpdateDisposition::AlreadyDispatched => is_finished(ops, updates[k].token),
            ArgumentUpdateDisposition::AppliedToRemainingBodies { bodies_dispatched } => {
                &&& !is_finished(ops, updates[k].token)
                &&& bodies_dispatched > 0
                &&& ran_body(ops, updates[k].token, bodies_dispatched - 1)
                &&& forall|index: int| #[trigger]
                    ran_body(ops, updates[k].token, index) ==> index < bodies_dispatched
            },
            ArgumentUpdateDisposition::Applied => {
                &&& !is_finished(ops, updates[k].token)
                &&& forall|index: int| !#[trigger] ran_body(ops, updates[k].token, index)
            },
        },
{
    let token = updates[k].token;
    lemma_journal(s, ops, token);
    assert forall|index: int| #[trigger] ran_body(ops, token, index) implies index >= 0 by {
        let i = choose|i: int|
            0 <= i < ops.len() && dispatches_body(#[trigger] ops[i], token, index);
    }
}

// ---------------------------------------------------------------------------
// What a batch leaves alone
// ---------------------------------------------------------------------------
/// The bindings of a step once the first `n` updates of it are through, in
/// request order.
pub open spec fn rebound_all(
    b: Bindings,
    updates: Seq<UpdateRequest>,
    token: Seq<char>,
    n: nat,
) -> Bindings
    decreases n,
{
    if n == 0 {
        b
    } else {
        let before = rebound_all(b, updates, token, (n - 1) as nat);
        if updates[n - 1].token == token {
            rebound(before, updates[n - 1].urn, updates[n - 1].value)
        } else {
            before
        }
    }
}

proof fn lemma_values_by_token(
    values: Values,
    steps: Map<Seq<char>, StepJournal>,
    updates: Seq<UpdateRequest>,
    token: Seq<char>,
    n: nat,
)
    requires
        n <= updates.len(),
        !(disposition(steps[token]) is AlreadyDispatched),
    ensures
        bindings_of(values_after_all(values, steps, updates, n), token) == rebound_all(
            bindings_of(values, token),
            updates,
            token,
            n,
        ),
        values_after_all(values, steps, updates, n).contains_key(token) <==> values.contains_key(
            token,
        ) || exists|j: int| 0 <= j < n && (#[trigger] updates[j]).token == token,
    decreases n,
{
    if n > 0 {
        lemma_values_by_token(values, steps, updates, token, (n - 1) as nat);
        if updates[n - 1].token == token {
            assert(updates[n - 1].token == token);
        }
    }
}

proof fn lemma_other_tokens(
    values: Values,
    steps: Map<Seq<char>, StepJournal>,
    updates: Seq<UpdateRequest>,
    token: Seq<char>,
    n: nat,
)
    requires
        n <= updates.len(),
        forall|j: int| 0 <= j < updates.len() ==> (#[trigger] updates[j]).token != token,
    ensures
        values_after_all(values, steps, updates, n).contains_key(token) == values.contains_key(
            token,
        ),
        values.contains_key(token) ==> values_after_all(values, steps, updates, n)[token]
            == values[token],
    decreases n,
{
    if n > 0 {
        lemma_other_tokens(values, steps, updates, token, (n - 1) as nat);
        assert(updates[n - 1].token != token);
    }
}

/// A batch changes what its updates address and nothing else: a step that no
/// update names, and one that is already dispatched, keeps its values; the
/// values of any other are rebound by its own updates, in request order.
pub proof fn a_batch_leaves_the_other_steps_alone(
    s: LedgerState,
    updates: Seq<UpdateRequest>,
    token: Seq<char>,
)
    requires
        batch_fault(s.steps, updates, 0) is None,
    ensures
        ({
            let named = exists|j: int|
                0 <= j < updates.len() && (#[trigger] updates[j]).token == token;
            let after = after_batch(s, updates).values;
            if !named || disposition(s.steps[token]) is AlreadyDispatched {
                &&& after.contains_key(token) == s.values.contains_key(token)
                &&& s.values.contains_key(token) ==> after[token] == s.values[token]
            } else {
                &&& after.contains_key(token)
                &&& after[token] == rebound_all(
                    bindings_of(s.values, token),
                    updates,
                    token,
                    updates.len(),
                )
            }
        }),
{
    let named = exists|j: int| 0 <= j < updates.len() && (#[trigger] updates[j]).token == token;
    if !named {
        lemma_other_tokens(s.values, s.steps, updates, token, updates.len());
    } else if disposition(s.steps[token]) is AlreadyDispatched {
        lemma_final_values(s.values, s.steps, updates, updates.len(), token);
    } else {
        lemma_values_by_token(s.values, s.steps, updates, token, updates.len());
    }
}

/// Rebinding an argument keeps every other binding, and their order: the first
/// equivalent one keeps its URN and its place and takes the new value; where
/// there is none, one is appended.
pub proof fn rebinding_keeps_the_other_bindings(b: Bindings, urn: Seq<char>, value: Seq<u8>)
    ensures
        ({
            let at = binding_index(b, urn, 0);
            let after = rebound(b, urn, value);
            &&& 0 <= at <= b.len()
            &&& forall|j: int| 0 <= j < at ==> !urn::media_equivalent((#[trigger] b[j]).0, urn)
            &&& forall|j: int| 0 <= j < b.len() && j != at ==> #[trigger] after[j] == b[j]
            &&& if at < b.len() {
                &&& urn::media_equivalent(b[at].0, urn)
                &&& after.len() == b.len()
                &&& after[at] == (b[at].0, value)
            } else {
                &&& after.len() == b.len() + 1
                &&& after.last() == (urn, value)
            }
        }),
{
    lemma_binding_index(b, urn, 0);
}

} // verus!
