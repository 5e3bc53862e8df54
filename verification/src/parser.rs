//! From a resolved machine to the graph that the executor consumes.
//!
//! The resolver parses notation and matches sources to cap arguments; what is
//! left is to walk the strands' bindings into named edges, and to check that
//! the media types that meet at a node belong together.

use crate::cap;
use crate::cap::{Cap, CapArg};
use crate::groups::{ResolvedEdge, ResolvedGraph};
use crate::plan::StepToken;
use crate::table;
use crate::table::Table;
use crate::text;
use crate::text::{decimal_usize, same};
use crate::urn;
use crate::urn::{denotes, CapUrn, MediaUrn};
use vstd::prelude::*;
use vstd::string::*;

verus! {

/// How the content of a node is structured.
#[derive(Debug, Clone, Copy, PartialEq, Eq, Structural)]
pub enum InputStructure {
    Record,
    Opaque,
}

/// Why notation does not turn into a graph.
#[derive(Debug)]
pub enum ParseOrchestrationError {
    MachineSyntaxParseFailed(String),
    CapNotFound { cap_urn: String },
    NodeMediaConflict { node: String, existing: String, required_by_cap: String },
    NotADag { cycle_nodes: Vec<String> },
    MediaUrnParseError(String),
    StructureMismatch {
        node: String,
        source_structure: InputStructure,
        expected_structure: InputStructure,
    },
}

/// The contents of a `ParseOrchestrationError`.
pub ghost enum ParseFault {
    MachineSyntaxParseFailed(Seq<char>),
    CapNotFound(Seq<char>),
    NodeMediaConflict(Seq<char>, Seq<char>, Seq<char>),
    NotADag(Seq<Seq<char>>),
    MediaUrnParseError(Seq<char>),
    StructureMismatch(Seq<char>, InputStructure, InputStructure),
}

impl View for ParseOrchestrationError {
    type V = ParseFault;

    open spec fn view(&self) -> ParseFault {
        match *self {
            ParseOrchestrationError::MachineSyntaxParseFailed(s) => {
                ParseFault::MachineSyntaxParseFailed(s@)
            },
            ParseOrchestrationError::CapNotFound { cap_urn } => ParseFault::CapNotFound(cap_urn@),
            ParseOrchestrationError::NodeMediaConflict { node, existing, required_by_cap } => {
                ParseFault::NodeMediaConflict(node@, existing@, required_by_cap@)
            },
            ParseOrchestrationError::NotADag { cycle_nodes } => ParseFault::NotADag(
                text::views(cycle_nodes@),
            ),
            ParseOrchestrationError::MediaUrnParseError(s) => ParseFault::MediaUrnParseError(s@),
            ParseOrchestrationError::StructureMismatch {
                node,
                source_structure,
                expected_structure,
            } => ParseFault::StructureMismatch(node@, source_structure, expected_structure),
        }
    }
}

/// A failure of the resolver.
#[derive(Debug)]
pub enum MachineParseError {
    /// The notation names a cap that the registry does not know.
    UnknownCap { cap_urn: String },
    /// A strand's data flow is cyclic.
    CyclicMachineStrand { strand_index: usize },
    /// Any other failure, as it reads.
    Other { message: String },
}

/// Translate a failure of the resolver into the orchestrator's error type, so
/// callers see one consistent error surface for "this notation can't be turned
/// into a DAG."
pub fn translate_machine_parse_error(err: MachineParseError) -> (e: ParseOrchestrationError)
    ensures
        e@ == match err {
            MachineParseError::UnknownCap { cap_urn } => ParseFault::CapNotFound(cap_urn@),
            MachineParseError::CyclicMachineStrand { strand_index } => ParseFault::NotADag(
                seq!["strand "@ + text::decimal(strand_index as nat)],
            ),
            MachineParseError::Other { message } => ParseFault::MachineSyntaxParseFailed(message@),
        },
{
    match err {
        MachineParseError::UnknownCap { cap_urn } => ParseOrchestrationError::CapNotFound {
            cap_urn,
        },
        MachineParseError::CyclicMachineStrand { strand_index } => {
            let mut cycle_nodes: Vec<String> = Vec::new();
            let node = "strand ".to_owned().concat(decimal_usize(strand_index).as_str());
            let ghost n = node@;
            cycle_nodes.push(node);
            assert(text::views(cycle_nodes@) =~= seq![n]);
            ParseOrchestrationError::NotADag { cycle_nodes }
        },
        MachineParseError::Other { message } => ParseOrchestrationError::MachineSyntaxParseFailed(
            message,
        ),
    }
}

// ---------------------------------------------------------------------------
// Resolved strands
// ---------------------------------------------------------------------------
/// One source of an edge: the node that feeds an argument of its cap.
pub struct Binding {
    pub source: usize,
    /// The slot URN of the argument that is fed.
    pub cap_arg_media_urn: MediaUrn,
}

/// One cap invocation of a strand.
pub struct StrandEdge {
    pub cap_urn: CapUrn,
    pub target: usize,
    pub assignment: Vec<Binding>,
}

/// A connected component of the wiring: named nodes with their media types, and
/// its invocations in canonical order.
pub struct Strand {
    /// Node name → node.
    pub names: Table<usize>,
    /// The media type of every node.
    pub node_urns: Vec<MediaUrn>,
    pub edges: Vec<StrandEdge>,
}

/// The last of the first `n` names that stands for a node.
pub open spec fn name_among(order: Seq<Seq<char>>, names: Map<Seq<char>, usize>, id: usize, n: nat) -> Option<
    Seq<char>,
>
    decreases n,
{
    if n == 0 {
        None
    } else if names[order[n - 1]] == id {
        Some(order[n - 1])
    } else {
        name_among(order, names, id, (n - 1) as nat)
    }
}

/// The user-written name of a node.
pub open spec fn name_of(s: Strand, id: usize) -> Option<Seq<char>> {
    name_among(s.names.order(), s.names@, id, s.names.order().len())
}

pub open spec fn nameless(id: usize) -> ParseFault {
    ParseFault::MachineSyntaxParseFailed(
        "internal error: NodeId "@ + text::decimal(id as nat) + " has no user-written node name"@,
    )
}

fn lookup_node_name(s: &Strand, id: usize) -> (r: Result<String, ParseOrchestrationError>)
    ensures
        match name_of(*s, id) {
            Some(name) => r is Ok && r->Ok_0@ == name,
            None => r is Err && r->Err_0@ == nameless(id),
        },
{
    let mut n: usize = s.names.len();
    while n > 0
        invariant
            n <= s.names.order().len(),
            name_of(*s, id) == name_among(s.names.order(), s.names@, id, n as nat),
        decreases n,
    {
        if *s.names.value_at(n - 1) == id {
            return Ok(s.names.key_at(n - 1).clone());
        }
        n = n - 1;
    }
    Err(
        ParseOrchestrationError::MachineSyntaxParseFailed(
            "internal error: NodeId ".to_owned().concat(decimal_usize(id).as_str()).concat(
                " has no user-written node name",
            ),
        ),
    )
}

// ---------------------------------------------------------------------------
// Media at nodes
// ---------------------------------------------------------------------------
/// A media type: its text and tags.
pub type Media = (Seq<char>, urn::TagMap);

pub open spec fn media_of(u: MediaUrn) -> Media {
    (u.text@, u@)
}

pub open spec fn media_map(m: Map<Seq<char>, MediaUrn>) -> Map<Seq<char>, Media> {
    Map::new(|k: Seq<char>| m.contains_key(k), |k: Seq<char>| media_of(m[k]))
}

/// Whether two media types are on the same specialization chain.
pub open spec fn compatible(a: urn::TagMap, b: urn::TagMap) -> bool {
    urn::tags_conform(a, b) || urn::tags_conform(b, a)
}

pub open spec fn structure_of(m: urn::TagMap) -> InputStructure {
    if m.contains_key("record"@) {
        InputStructure::Record
    } else {
        InputStructure::Opaque
    }
}

/// Check if two media URNs are on the same specialization chain: either accepts
/// the other, so one may be more specific than the other.
pub fn media_urns_compatible(a: &MediaUrn, b: &MediaUrn) -> (r: bool)
    ensures
        r == compatible(a@, b@),
{
    a.is_comparable(b)
}

fn structure(m: &MediaUrn) -> (r: InputStructure)
    ensures
        r == structure_of(m@),
{
    if m.is_record() {
        InputStructure::Record
    } else {
        InputStructure::Opaque
    }
}

/// Check if two media URNs have compatible structures (record/opaque).
pub fn check_structure_compatibility(source: &MediaUrn, target: &MediaUrn, node_name: &str) -> (r:
    Result<(), ParseOrchestrationError>)
    ensures
        match r {
            Ok(()) => structure_of(source@) == structure_of(target@),
            Err(e) => structure_of(source@) != structure_of(target@) && e@
                == ParseFault::StructureMismatch(
                node_name@,
                structure_of(source@),
                structure_of(target@),
            ),
        },
{
    let source_structure = structure(source);
    let expected_structure = structure(target);
    if source_structure != expected_structure {
        return Err(
            ParseOrchestrationError::StructureMismatch {
                node: node_name.to_owned(),
                source_structure,
                expected_structure,
            },
        );
    }
    Ok(())
}

/// The media types at nodes once a node is met with a media type, or why that
/// does not fit. A node that feeds a cap is checked as the source, one that a
/// cap feeds as the target.
pub open spec fn meet(
    media: Map<Seq<char>, Media>,
    node: Seq<char>,
    m: Media,
    as_target: bool,
) -> Result<Map<Seq<char>, Media>, ParseFault> {
    if media.contains_key(node) {
        let existing = media[node];
        if !compatible(existing.1, m.1) {
            Err(ParseFault::NodeMediaConflict(node, existing.0, m.0))
        } else if structure_of(existing.1) != structure_of(m.1) {
            if as_target {
                Err(
                    ParseFault::StructureMismatch(
                        node,
                        structure_of(m.1),
                        structure_of(existing.1),
                    ),
                )
            } else {
                Err(
                    ParseFault::StructureMismatch(
                        node,
                        structure_of(existing.1),
                        structure_of(m.1),
                    ),
                )
            }
        } else {
            Ok(media)
        }
    } else {
        Ok(media.insert(node, m))
    }
}

fn meet_node(media: &mut Table<MediaUrn>, node: &String, m: &MediaUrn, as_target: bool) -> (r:
    Result<(), ParseOrchestrationError>)
    ensures
        match meet(media_map(old(media)@), node@, media_of(*m), as_target) {
            Ok(after) => r is Ok && media_map(final(media)@) == after,
            Err(fault) => r is Err && r->Err_0@ == fault,
        },
{
    let ghost before = media@;
    if let Some(existing) = media.get(node.as_str()) {
        if !media_urns_compatible(existing, m) {
            return Err(
                ParseOrchestrationError::NodeMediaConflict {
                    node: node.clone(),
                    existing: existing.text.clone(),
                    required_by_cap: m.text.clone(),
                },
            );
        }
        if as_target {
            check_structure_compatibility(m, existing, node.as_str())
        } else {
            check_structure_compatibility(existing, m, node.as_str())
        }
    } else {
        media.insert(node.clone(), m.clone());
        assert(media_map(media@) =~= media_map(before).insert(node@, media_of(*m)));
        Ok(())
    }
}

// ---------------------------------------------------------------------------
// Walking the bindings
// ---------------------------------------------------------------------------
/// One edge of the graph before it has its step identity.
pub struct WiredEdge {
    pub from: String,
    pub to: String,
    pub cap_urn: String,
    pub cap: Cap,
    pub in_media: String,
    pub out_media: String,
}

/// A graph whose edges have no step identity yet.
pub struct WiredGraph {
    pub nodes: Table<String>,
    pub edges: Vec<WiredEdge>,
}

/// What an edge connects, and how.
pub ghost struct EdgeView {
    pub from: Seq<char>,
    pub to: Seq<char>,
    pub cap_urn: Seq<char>,
    pub in_media: Seq<char>,
    pub out_media: Seq<char>,
}

impl View for WiredEdge {
    type V = EdgeView;

    open spec fn view(&self) -> EdgeView {
        EdgeView {
            from: self.from@,
            to: self.to@,
            cap_urn: self.cap_urn@,
            in_media: self.in_media@,
            out_media: self.out_media@,
        }
    }
}

pub open spec fn edge_views(edges: Seq<WiredEdge>) -> Seq<EdgeView> {
    Seq::new(edges.len(), |i: int| edges[i]@)
}

/// What the walk has so far: the media types at nodes, and the edges.
pub ghost struct Walk {
    pub media: Map<Seq<char>, Media>,
    pub edges: Seq<EdgeView>,
}

/// The first argument at or after `from` with the given slot URN, or the number
/// of arguments where there is none.
pub open spec fn slot_arg(args: Seq<CapArg>, slot: urn::TagMap, from: int) -> int
    decreases args.len() - from,
{
    if from >= args.len() {
        args.len() as int
    } else if urn::media_parsed(args[from].media_urn@) == Ok::<urn::TagMap, urn::UrnFault>(slot) {
        from
    } else {
        slot_arg(args, slot, from + 1)
    }
}

/// Why a node may not feed an argument, if it may not: a record feeds records
/// only, anything else only what takes no record.
pub open spec fn feed_fault(node: Seq<char>, m: urn::TagMap, slot: urn::TagMap) -> Option<
    ParseFault,
> {
    if structure_of(m) != structure_of(slot) {
        Some(ParseFault::StructureMismatch(node, structure_of(m), structure_of(slot)))
    } else {
        None
    }
}

/// The walk with one binding added. The source must fit what is known of its
/// node, and the argument that it feeds; the cap's output must fit the target.
/// The edge carries the fed argument's stream URN, not the cap's `in=`: a
/// convergence wiring feeds several distinct arguments, and each edge must
/// carry the URN the cartridge demuxes that argument by.
pub open spec fn bind(
    s: Strand,
    cap_urn: Seq<char>,
    c: Cap,
    out: Media,
    target: Seq<char>,
    b: Binding,
    w: Walk,
) -> Result<Walk, ParseFault> {
    match name_of(s, b.source) {
        None => Err(nameless(b.source)),
        Some(source) => match meet(
            w.media,
            source,
            media_of(s.node_urns@[b.source as int]),
            false,
        ) {
            Err(fault) => Err(fault),
            Ok(with_source) => match feed_fault(
                source,
                s.node_urns@[b.source as int]@,
                b.cap_arg_media_urn@,
            ) {
                Some(fault) => Err(fault),
                None => match meet(with_source, target, out, true) {
                    Err(fault) => Err(fault),
                    Ok(media) => Ok(
                        Walk {
                            media,
                            edges: w.edges.push(
                                EdgeView {
                                    from: source,
                                    to: target,
                                    cap_urn,
                                    in_media: cap::stream_urn_of(
                                        c.args@[slot_arg(c.args@, b.cap_arg_media_urn@, 0)],
                                    ),
                                    out_media: out.0,
                                },
                            ),
                        },
                    ),
                },
            },
        },
    }
}

pub open spec fn bind_all(
    s: Strand,
    cap_urn: Seq<char>,
    c: Cap,
    out: Media,
    target: Seq<char>,
    bindings: Seq<Binding>,
    w: Walk,
) -> Result<Walk, ParseFault>
    decreases bindings.len(),
{
    if bindings.len() == 0 {
        Ok(w)
    } else {
        match bind_all(s, cap_urn, c, out, target, bindings.drop_last(), w) {
            Err(fault) => Err(fault),
            Ok(before) => bind(s, cap_urn, c, out, target, bindings.last(), before),
        }
    }
}

/// The walk with one invocation added.
pub open spec fn walk_edge(s: Strand, e: StrandEdge, caps: Map<Seq<char>, Cap>, w: Walk) -> Result<
    Walk,
    ParseFault,
> {
    let cap_urn = e.cap_urn.text@;
    let out = urn::tag_or(e.cap_urn@, "out"@, "media:"@);
    if !caps.contains_key(cap_urn) {
        Err(ParseFault::CapNotFound(cap_urn))
    } else {
        match urn::media_parsed(out) {
            Err(fault) => Err(ParseFault::MediaUrnParseError(urn::fault_text(fault))),
            Ok(tags) => match name_of(s, e.target) {
                None => Err(nameless(e.target)),
                Some(target) => bind_all(
                    s,
                    cap_urn,
                    caps[cap_urn],
                    (out, tags),
                    target,
                    e.assignment@,
                    w,
                ),
            },
        }
    }
}

pub open spec fn walk_edges(
    s: Strand,
    edges: Seq<StrandEdge>,
    caps: Map<Seq<char>, Cap>,
    w: Walk,
) -> Result<Walk, ParseFault>
    decreases edges.len(),
{
    if edges.len() == 0 {
        Ok(w)
    } else {
        match walk_edges(s, edges.drop_last(), caps, w) {
            Err(fault) => Err(fault),
            Ok(before) => walk_edge(s, edges.last(), caps, before),
        }
    }
}

/// The walk of all strands.
pub open spec fn walk_strands(strands: Seq<Strand>, caps: Map<Seq<char>, Cap>) -> Result<
    Walk,
    ParseFault,
>
    decreases strands.len(),
{
    if strands.len() == 0 {
        Ok(Walk { media: Map::empty(), edges: Seq::empty() })
    } else {
        match walk_strands(strands.drop_last(), caps) {
            Err(fault) => Err(fault),
            Ok(before) => walk_edges(strands.last(), strands.last().edges@, caps, before),
        }
    }
}

/// Whether a binding was built from a node of its strand and an argument of its
/// cap.
pub open spec fn well_bound(s: Strand, e: StrandEdge, caps: Map<Seq<char>, Cap>, b: Binding) -> bool {
    &&& b.source < s.node_urns@.len()
    &&& caps.contains_key(e.cap_urn.text@) ==> slot_arg(
        caps[e.cap_urn.text@].args@,
        b.cap_arg_media_urn@,
        0,
    ) < caps[e.cap_urn.text@].args@.len()
}

/// Whether all bindings of a strand are well bound.
pub open spec fn strand_ok(s: Strand, caps: Map<Seq<char>, Cap>) -> bool {
    forall|i: int, j: int|
        0 <= i < s.edges@.len() && 0 <= j < s.edges@[i].assignment@.len() ==> #[trigger] well_bound(
            s,
            s.edges@[i],
            caps,
            s.edges@[i].assignment@[j],
        )
}

/// Whether edges carry the definitions of their caps.
pub open spec fn caps_carried(edges: Seq<WiredEdge>, caps: Map<Seq<char>, Cap>) -> bool {
    forall|i: int|
        0 <= i < edges.len() ==> caps.contains_key((#[trigger] edges[i]).cap_urn@)
            && cap::same_cap(edges[i].cap, caps[edges[i].cap_urn@])
}

/// The state of the walk.
struct Walker {
    media: Table<MediaUrn>,
    edges: Vec<WiredEdge>,
}

spec fn walk_of(w: Walker) -> Walk {
    Walk { media: media_map(w.media@), edges: edge_views(w.edges@) }
}

fn find_slot(c: &Cap, slot: &MediaUrn) -> (r: usize)
    ensures
        r == slot_arg(c.args@, slot@, 0),
        r <= c.args@.len(),
{
    let mut i: usize = 0;
    while i < c.args.len()
        invariant
            i <= c.args@.len(),
            slot_arg(c.args@, slot@, 0) == slot_arg(c.args@, slot@, i as int),
        decreases c.args@.len() - i,
    {
        if denotes(c.args[i].media_urn.as_str(), slot) {
            return i;
        }
        i = i + 1;
    }
    i
}

fn add_binding(
    w: &mut Walker,
    s: &Strand,
    e: &StrandEdge,
    c: &Cap,
    out: &MediaUrn,
    target: &String,
    j: usize,
    caps: &Table<Cap>,
) -> (r: Result<(), ParseOrchestrationError>)
    requires
        j < e.assignment@.len(),
        well_bound(*s, *e, caps@, e.assignment@[j as int]),
        caps@.contains_key(e.cap_urn.text@),
        *c == caps@[e.cap_urn.text@],
        caps_carried(old(w).edges@, caps@),
    ensures
        match bind(
            *s,
            e.cap_urn.text@,
            *c,
            media_of(*out),
            target@,
            e.assignment@[j as int],
            walk_of(*old(w)),
        ) {
            Ok(after) => r is Ok && walk_of(*final(w)) == after,
            Err(fault) => r is Err && r->Err_0@ == fault,
        },
        caps_carried(final(w).edges@, caps@),
{
    let b = &e.assignment[j];
    let source = match lookup_node_name(s, b.source) {
        Ok(n) => n,
        Err(err) => {
            return Err(err);
        },
    };
    match meet_node(&mut w.media, &source, &s.node_urns[b.source], false) {
        Ok(_) => {},
        Err(err) => {
            return Err(err);
        },
    }
    match check_structure_compatibility(
        &s.node_urns[b.source],
        &b.cap_arg_media_urn,
        source.as_str(),
    ) {
        Ok(_) => {},
        Err(err) => {
            return Err(err);
        },
    }
    match meet_node(&mut w.media, target, out, true) {
        Ok(_) => {},
        Err(err) => {
            return Err(err);
        },
    }
    let k: usize = find_slot(c, &b.cap_arg_media_urn);
    let ghost before = w.edges@;
    let edge = WiredEdge {
        from: source,
        to: target.clone(),
        cap_urn: e.cap_urn.text.clone(),
        cap: c.clone(),
        in_media: c.args[k].stream_urn().to_owned(),
        out_media: out.text.clone(),
    };
    let ghost view = edge@;
    w.edges.push(edge);
    proof {
        assert(edge_views(w.edges@) =~= edge_views(before).push(view));
        assert forall|i: int| 0 <= i < w.edges@.len() implies caps@.contains_key(
            (#[trigger] w.edges@[i]).cap_urn@,
        ) && cap::same_cap(w.edges@[i].cap, caps@[w.edges@[i].cap_urn@]) by {
            if i < before.len() {
                assert(w.edges@[i] == before[i]);
            }
        }
    }
    Ok(())
}

proof fn lemma_bind_fault_stays(
    s: Strand,
    cap_urn: Seq<char>,
    c: Cap,
    out: Media,
    target: Seq<char>,
    bindings: Seq<Binding>,
    k: int,
    w: Walk,
)
    requires
        0 <= k <= bindings.len(),
        bind_all(s, cap_urn, c, out, target, bindings.take(k), w) is Err,
    ensures
        bind_all(s, cap_urn, c, out, target, bindings, w) == bind_all(
            s,
            cap_urn,
            c,
            out,
            target,
            bindings.take(k),
            w,
        ),
    decreases bindings.len() - k,
{
    if k < bindings.len() {
        assert(bindings.take(k + 1).drop_last() =~= bindings.take(k));
        lemma_bind_fault_stays(s, cap_urn, c, out, target, bindings, k + 1, w);
    } else {
        assert(bindings.take(k) =~= bindings);
    }
}

fn add_edge(w: &mut Walker, s: &Strand, i: usize, caps: &Table<Cap>) -> (r: Result<
    (),
    ParseOrchestrationError,
>)
    requires
        i < s.edges@.len(),
        strand_ok(*s, caps@),
        caps_carried(old(w).edges@, caps@),
    ensures
        match walk_edge(*s, s.edges@[i as int], caps@, walk_of(*old(w))) {
            Ok(after) => r is Ok && walk_of(*final(w)) == after,
            Err(fault) => r is Err && r->Err_0@ == fault,
        },
        caps_carried(final(w).edges@, caps@),
{
    let e = &s.edges[i];
    let ghost start = walk_of(*w);
    let c = match caps.get(e.cap_urn.text.as_str()) {
        Some(c) => c,
        None => {
            return Err(
                ParseOrchestrationError::CapNotFound { cap_urn: e.cap_urn.text.clone() },
            );
        },
    };
    let out = match MediaUrn::from_string(e.cap_urn.out_spec().as_str()) {
        Ok(u) => u,
        Err(fault) => {
            return Err(ParseOrchestrationError::MediaUrnParseError(fault.detail()));
        },
    };
    let target = match lookup_node_name(s, e.target) {
        Ok(n) => n,
        Err(err) => {
            return Err(err);
        },
    };
    let ghost all = e.assignment@;
    let mut j: usize = 0;
    assert(all.take(0) =~= Seq::<Binding>::empty());
    while j < e.assignment.len()
        invariant
            j <= all.len(),
            all == e.assignment@,
            i < s.edges@.len(),
            *e == s.edges@[i as int],
            start == walk_of(*old(w)),
            strand_ok(*s, caps@),
            caps_carried(w.edges@, caps@),
            caps@.contains_key(e.cap_urn.text@),
            *c == caps@[e.cap_urn.text@],
            walk_edge(*s, *e, caps@, start) == bind_all(
                *s,
                e.cap_urn.text@,
                *c,
                media_of(out),
                target@,
                all,
                start,
            ),
            bind_all(
                *s,
                e.cap_urn.text@,
                *c,
                media_of(out),
                target@,
                all.take(j as int),
                start,
            ) == Ok::<Walk, ParseFault>(walk_of(*w)),
        decreases all.len() - j,
    {
        proof {
            assert(all.take(j + 1).drop_last() =~= all.take(j as int));
            assert(all.take(j + 1).last() == all[j as int]);
            assert(well_bound(*s, s.edges@[i as int], caps@, s.edges@[i as int].assignment@[j as int]));
        }
        match add_binding(w, s, e, c, &out, &target, j, caps) {
            Ok(_) => {},
            Err(err) => {
                proof {
                    lemma_bind_fault_stays(
                        *s,
                        e.cap_urn.text@,
                        *c,
                        media_of(out),
                        target@,
                        all,
                        j + 1,
                        start,
                    );
                }
                return Err(err);
            },
        }
        j = j + 1;
    }
    assert(all.take(j as int) =~= all);
    Ok(())
}

proof fn lemma_edge_fault_stays(
    s: Strand,
    edges: Seq<StrandEdge>,
    k: int,
    caps: Map<Seq<char>, Cap>,
    w: Walk,
)
    requires
        0 <= k <= edges.len(),
        walk_edges(s, edges.take(k), caps, w) is Err,
    ensures
        walk_edges(s, edges, caps, w) == walk_edges(s, edges.take(k), caps, w),
    decreases edges.len() - k,
{
    if k < edges.len() {
        assert(edges.take(k + 1).drop_last() =~= edges.take(k));
        lemma_edge_fault_stays(s, edges, k + 1, caps, w);
    } else {
        assert(edges.take(k) =~= edges);
    }
}

fn add_strand(w: &mut Walker, s: &Strand, caps: &Table<Cap>) -> (r: Result<
    (),
    ParseOrchestrationError,
>)
    requires
        strand_ok(*s, caps@),
        caps_carried(old(w).edges@, caps@),
    ensures
        match walk_edges(*s, s.edges@, caps@, walk_of(*old(w))) {
            Ok(after) => r is Ok && walk_of(*final(w)) == after,
            Err(fault) => r is Err && r->Err_0@ == fault,
        },
        caps_carried(final(w).edges@, caps@),
{
    let ghost start = walk_of(*w);
    let mut i: usize = 0;
    assert(s.edges@.take(0) =~= Seq::<StrandEdge>::empty());
    while i < s.edges.len()
        invariant
            i <= s.edges@.len(),
            start == walk_of(*old(w)),
            strand_ok(*s, caps@),
            caps_carried(w.edges@, caps@),
            walk_edges(*s, s.edges@.take(i as int), caps@, start) == Ok::<Walk, ParseFault>(
                walk_of(*w),
            ),
        decreases s.edges@.len() - i,
    {
        proof {
            assert(s.edges@.take(i + 1).drop_last() =~= s.edges@.take(i as int));
            assert(s.edges@.take(i + 1).last() == s.edges@[i as int]);
        }
        match add_edge(w, s, i, caps) {
            Ok(_) => {},
            Err(err) => {
                proof {
                    lemma_edge_fault_stays(*s, s.edges@, i + 1, caps@, start);
                }
                return Err(err);
            },
        }
        i = i + 1;
    }
    assert(s.edges@.take(i as int) =~= s.edges@);
    Ok(())
}

proof fn lemma_strand_fault_stays(strands: Seq<Strand>, k: int, caps: Map<Seq<char>, Cap>)
    requires
        0 <= k <= strands.len(),
        walk_strands(strands.take(k), caps) is Err,
    ensures
        walk_strands(strands, caps) == walk_strands(strands.take(k), caps),
    decreases strands.len() - k,
{
    if k < strands.len() {
        assert(strands.take(k + 1).drop_last() =~= strands.take(k));
        lemma_strand_fault_stays(strands, k + 1, caps);
    } else {
        assert(strands.take(k) =~= strands);
    }
}

/// The texts of media types at nodes.
pub open spec fn media_texts(nodes: Map<Seq<char>, String>, media: Map<Seq<char>, Media>) -> bool {
    &&& nodes.dom() == media.dom()
    &&& forall|k: Seq<char>| #[trigger] nodes.contains_key(k) ==> nodes[k]@ == media[k].0
}

fn node_texts(media: &Table<MediaUrn>) -> (nodes: Table<String>)
    ensures
        media_texts(nodes@, media_map(media@)),
{
    let n: usize = media.len();
    let ghost keys = media.order();
    let mut nodes: Table<String> = Table::new();
    let mut i: usize = 0;
    assert(nodes@.dom() =~= keys.take(0).to_set());
    while i < n
        invariant
            keys == media.order(),
            n == keys.len(),
            i <= n,
            nodes@.dom() == keys.take(i as int).to_set(),
            forall|k: Seq<char>| #[trigger]
                nodes@.contains_key(k) ==> media@.contains_key(k) && nodes@[k]@ == media@[k].text@,
        decreases n - i,
    {
        proof {
            table::lemma_take_push(keys, i as int);
        }
        nodes.insert(media.key_at(i).clone(), media.value_at(i).text.clone());
        assert(nodes@.dom() =~= keys.take(i + 1).to_set());
        i = i + 1;
    }
    proof {
        assert(keys.take(i as int) =~= keys);
        assert(nodes@.dom() =~= media_map(media@).dom()) by {
            assert forall|k: Seq<char>| keys.to_set().contains(k) <==> media@.contains_key(k) by {
                assert(keys.contains(k) <==> media@.contains_key(k));
            }
        }
    }
    nodes
}

/// Walk the resolved strands of a machine into a graph: one edge per cap
/// argument that is fed, keyed on the user's node names. `caps` holds the known
/// capabilities by URN.
///
/// The media types that meet at a node must lie on one specialization chain and
/// have the same structure, and so must a node and every argument that it
/// feeds have the same structure: a record output never feeds an opaque input.
/// Cycles are the resolver's concern.
pub fn wire_strands(strands: &Vec<Strand>, caps: &Table<Cap>) -> (r: Result<
    WiredGraph,
    ParseOrchestrationError,
>)
    requires
        forall|i: int| 0 <= i < strands@.len() ==> strand_ok(#[trigger] strands@[i], caps@),
    ensures
        match walk_strands(strands@, caps@) {
            Ok(w) => r is Ok && media_texts(r->Ok_0.nodes@, w.media) && edge_views(r->Ok_0.edges@)
                == w.edges && caps_carried(r->Ok_0.edges@, caps@),
            Err(fault) => r is Err && r->Err_0@ == fault,
        },
        r is Ok ==> r->Ok_0.edges@.len() == bindings_of(strands@, strands@.len() as int),
        r is Ok ==> forall|k: int, i: int, j: int|
            #![trigger strands@[k].edges@[i].assignment@[j]]
            0 <= k < strands@.len() && 0 <= i < strands@[k].edges@.len() && 0 <= j
                < strands@[k].edges@[i].assignment@.len() ==> is_edge_of(
                r->Ok_0.edges@[edge_place(strands@, k, i, j)]@,
                strands@[k],
                strands@[k].edges@[i],
                caps@,
                strands@[k].edges@[i].assignment@[j],
            ),
{
    let mut w = Walker { media: Table::new(), edges: Vec::new() };
    let mut i: usize = 0;
    proof {
        assert(strands@.take(0) =~= Seq::<Strand>::empty());
        assert(media_map(w.media@) =~= Map::<Seq<char>, Media>::empty());
        assert(edge_views(w.edges@) =~= Seq::<EdgeView>::empty());
    }
    while i < strands.len()
        invariant
            i <= strands@.len(),
            forall|x: int| 0 <= x < strands@.len() ==> strand_ok(#[trigger] strands@[x], caps@),
            caps_carried(w.edges@, caps@),
            walk_strands(strands@.take(i as int), caps@) == Ok::<Walk, ParseFault>(walk_of(w)),
        decreases strands@.len() - i,
    {
        proof {
            assert(strands@.take(i + 1).drop_last() =~= strands@.take(i as int));
            assert(strands@.take(i + 1).last() == strands@[i as int]);
        }
        match add_strand(&mut w, &strands[i], caps) {
            Ok(_) => {},
            Err(err) => {
                proof {
                    lemma_strand_fault_stays(strands@, i + 1, caps@);
                }
                return Err(err);
            },
        }
        i = i + 1;
    }
    assert(strands@.take(i as int) =~= strands@);
    let nodes = node_texts(&w.media);
    proof {
        let views = edge_views(w.edges@);
        assert(views.len() == w.edges@.len());
        lemma_edges_are_counted(strands@, caps@);
        assert forall|k: int, i: int, j: int|
            #![trigger strands@[k].edges@[i].assignment@[j]]
            0 <= k < strands@.len() && 0 <= i < strands@[k].edges@.len() && 0 <= j
                < strands@[k].edges@[i].assignment@.len() implies is_edge_of(
            w.edges@[edge_place(strands@, k, i, j)]@,
            strands@[k],
            strands@[k].edges@[i],
            caps@,
            strands@[k].edges@[i].assignment@[j],
        ) by {
            every_binding_has_its_edge(strands@, caps@, k, i, j);
            assert(views[edge_place(strands@, k, i, j)] == w.edges@[edge_place(
                strands@,
                k,
                i,
                j,
            )]@);
        }
    }
    Ok(WiredGraph { nodes, edges: w.edges })
}

/// Whether a resolved edge is a wired one with its step identity.
pub open spec fn labeled(e: ResolvedEdge, wired: WiredEdge, token: StepToken) -> bool {
    &&& e.token_id == token
    &&& e.from == wired.from
    &&& e.to == wired.to
    &&& e.cap_urn == wired.cap_urn
    &&& e.cap == wired.cap
    &&& e.in_media == wired.in_media
    &&& e.out_media == wired.out_media
}

impl WiredGraph {
    /// The graph with freshly minted step identities, one per edge.
    pub fn label(self, tokens: Vec<StepToken>) -> (g: ResolvedGraph)
        requires
            tokens@.len() == self.edges@.len(),
        ensures
            g.nodes == self.nodes,
            g.graph_name is None,
            g.edges@.len() == self.edges@.len(),
            forall|i: int|
                0 <= i < g.edges@.len() ==> labeled(
                    #[trigger] g.edges@[i],
                    self.edges@[i],
                    tokens@[i],
                ),
    {
        let ghost all = self.edges@;
        let n: usize = tokens.len();
        let mut rest = self.edges;
        let mut edges: Vec<ResolvedEdge> = Vec::new();
        let mut i: usize = 0;
        assert(all.skip(0) =~= all);
        while rest.len() > 0
            invariant
                i <= all.len(),
                n == tokens@.len(),
                n == all.len(),
                rest@ == all.skip(i as int),
                edges@.len() == i,
                forall|x: int|
                    0 <= x < i ==> labeled(#[trigger] edges@[x], all[x], tokens@[x]),
            decreases rest@.len(),
        {
            let e = rest.remove(0);
            assert(rest@ =~= all.skip(i + 1));
            assert(e == all[i as int]);
            edges.push(
                ResolvedEdge {
                    token_id: tokens[i].clone(),
                    from: e.from,
                    to: e.to,
                    cap_urn: e.cap_urn,
                    cap: e.cap,
                    in_media: e.in_media,
                    out_media: e.out_media,
                },
            );
            i = i + 1;
        }
        ResolvedGraph { nodes: self.nodes, edges, graph_name: None }
    }
}

// ---------------------------------------------------------------------------
// What the walk keeps
// ---------------------------------------------------------------------------
/// Whether every edge connects known nodes.
pub open spec fn closed(w: Walk) -> bool {
    forall|i: int|
        0 <= i < w.edges.len() ==> w.media.contains_key((#[trigger] w.edges[i]).from)
            && w.media.contains_key(w.edges[i].to)
}

proof fn lemma_bind_all_closed(
    s: Strand,
    cap_urn: Seq<char>,
    c: Cap,
    out: Media,
    target: Seq<char>,
    bindings: Seq<Binding>,
    w: Walk,
)
    requires
        closed(w),
        bind_all(s, cap_urn, c, out, target, bindings, w) is Ok,
    ensures
        closed(bind_all(s, cap_urn, c, out, target, bindings, w)->Ok_0),
    decreases bindings.len(),
{
    if bindings.len() > 0 {
        lemma_bind_all_closed(s, cap_urn, c, out, target, bindings.drop_last(), w);
        let before = bind_all(s, cap_urn, c, out, target, bindings.drop_last(), w)->Ok_0;
        let after = bind_all(s, cap_urn, c, out, target, bindings, w)->Ok_0;
        assert forall|i: int| 0 <= i < after.edges.len() implies after.media.contains_key(
            (#[trigger] after.edges[i]).from,
        ) && after.media.contains_key(after.edges[i].to) by {
            if i < before.edges.len() {
                assert(after.edges[i] == before.edges[i]);
            }
        }
    }
}

proof fn lemma_walk_edges_closed(
    s: Strand,
    edges: Seq<StrandEdge>,
    caps: Map<Seq<char>, Cap>,
    w: Walk,
)
    requires
        closed(w),
        walk_edges(s, edges, caps, w) is Ok,
    ensures
        closed(walk_edges(s, edges, caps, w)->Ok_0),
    decreases edges.len(),
{
    if edges.len() > 0 {
        lemma_walk_edges_closed(s, edges.drop_last(), caps, w);
        let before = walk_edges(s, edges.drop_last(), caps, w)->Ok_0;
        let e = edges.last();
        let out = urn::tag_or(e.cap_urn@, "out"@, "media:"@);
        lemma_bind_all_closed(
            s,
            e.cap_urn.text@,
            caps[e.cap_urn.text@],
            (out, urn::media_parsed(out)->Ok_0),
            name_of(s, e.target)->0,
            e.assignment@,
            before,
        );
    }
}

/// Every edge of a graph connects nodes whose media type is known.
pub proof fn edges_connect_known_nodes(strands: Seq<Strand>, caps: Map<Seq<char>, Cap>)
    requires
        walk_strands(strands, caps) is Ok,
    ensures
        closed(walk_strands(strands, caps)->Ok_0),
    decreases strands.len(),
{
    if strands.len() > 0 {
        edges_connect_known_nodes(strands.drop_last(), caps);
        let before = walk_strands(strands.drop_last(), caps)->Ok_0;
        lemma_walk_edges_closed(strands.last(), strands.last().edges@, caps, before);
    }
}

/// Whether a binding keeps structures: its source node has that of the argument
/// it feeds, its target node that of the cap's output.
pub open spec fn keeps_structure(w: Walk, s: Strand, e: StrandEdge, b: Binding) -> bool {
    let out = urn::media_parsed(urn::tag_or(e.cap_urn@, "out"@, "media:"@));
    &&& name_of(s, b.source) is Some
    &&& w.media.contains_key(name_of(s, b.source)->0)
    &&& structure_of(w.media[name_of(s, b.source)->0].1) == structure_of(b.cap_arg_media_urn@)
    &&& name_of(s, e.target) is Some
    &&& out is Ok
    &&& w.media.contains_key(name_of(s, e.target)->0)
    &&& structure_of(w.media[name_of(s, e.target)->0].1) == structure_of(out->Ok_0)
}

/// Whether nothing that one walk knows of a node is lost in another.
spec fn grown(a: Walk, b: Walk) -> bool {
    forall|k: Seq<char>| #[trigger]
        a.media.contains_key(k) ==> b.media.contains_key(k) && b.media[k] == a.media[k]
}

proof fn lemma_bind_all_keeps_structure(
    s: Strand,
    e: StrandEdge,
    c: Cap,
    n: int,
    j: int,
    w: Walk,
)
    requires
        0 <= j < n <= e.assignment@.len(),
        name_of(s, e.target) is Some,
        urn::media_parsed(urn::tag_or(e.cap_urn@, "out"@, "media:"@)) is Ok,
        ({
            let out = urn::tag_or(e.cap_urn@, "out"@, "media:"@);
            bind_all(
                s,
                e.cap_urn.text@,
                c,
                (out, urn::media_parsed(out)->Ok_0),
                name_of(s, e.target)->0,
                e.assignment@.take(n),
                w,
            ) is Ok
        }),
    ensures
        ({
            let out = urn::tag_or(e.cap_urn@, "out"@, "media:"@);
            keeps_structure(
                bind_all(
                    s,
                    e.cap_urn.text@,
                    c,
                    (out, urn::media_parsed(out)->Ok_0),
                    name_of(s, e.target)->0,
                    e.assignment@.take(n),
                    w,
                )->Ok_0,
                s,
                e,
                e.assignment@[j],
            )
        }),
    decreases n,
{
    let all = e.assignment@;
    assert(all.take(n).drop_last() =~= all.take(n - 1));
    assert(all.take(n).last() == all[n - 1]);
    if j < n - 1 {
        lemma_bind_all_keeps_structure(s, e, c, n - 1, j, w);
    }
}

proof fn lemma_bind_all_grows(
    s: Strand,
    cap_urn: Seq<char>,
    c: Cap,
    out: Media,
    target: Seq<char>,
    bindings: Seq<Binding>,
    w: Walk,
)
    requires
        bind_all(s, cap_urn, c, out, target, bindings, w) is Ok,
    ensures
        grown(w, bind_all(s, cap_urn, c, out, target, bindings, w)->Ok_0),
    decreases bindings.len(),
{
    if bindings.len() > 0 {
        lemma_bind_all_grows(s, cap_urn, c, out, target, bindings.drop_last(), w);
    }
}

proof fn lemma_walk_edges_grows(
    s: Strand,
    edges: Seq<StrandEdge>,
    caps: Map<Seq<char>, Cap>,
    w: Walk,
)
    requires
        walk_edges(s, edges, caps, w) is Ok,
    ensures
        grown(w, walk_edges(s, edges, caps, w)->Ok_0),
    decreases edges.len(),
{
    if edges.len() > 0 {
        lemma_walk_edges_grows(s, edges.drop_last(), caps, w);
        let before = walk_edges(s, edges.drop_last(), caps, w)->Ok_0;
        lemma_walk_edge_grows(s, edges.last(), caps, before);
    }
}

proof fn lemma_walk_edge_grows(s: Strand, e: StrandEdge, caps: Map<Seq<char>, Cap>, w: Walk)
    requires
        walk_edge(s, e, caps, w) is Ok,
    ensures
        grown(w, walk_edge(s, e, caps, w)->Ok_0),
{
    let out = urn::tag_or(e.cap_urn@, "out"@, "media:"@);
    lemma_bind_all_grows(
        s,
        e.cap_urn.text@,
        caps[e.cap_urn.text@],
        (out, urn::media_parsed(out)->Ok_0),
        name_of(s, e.target)->0,
        e.assignment@,
        w,
    );
}

proof fn lemma_walk_edges_keeps_structure(
    s: Strand,
    edges: Seq<StrandEdge>,
    caps: Map<Seq<char>, Cap>,
    w: Walk,
    i: int,
    j: int,
)
    requires
        walk_edges(s, edges, caps, w) is Ok,
        0 <= i < edges.len(),
        0 <= j < edges[i].assignment@.len(),
    ensures
        keeps_structure(
            walk_edges(s, edges, caps, w)->Ok_0,
            s,
            edges[i],
            edges[i].assignment@[j],
        ),
    decreases edges.len(),
{
    let short = edges.drop_last();
    let before = walk_edges(s, short, caps, w)->Ok_0;
    lemma_walk_edge_grows(s, edges.last(), caps, before);
    if i < short.len() {
        assert(short[i] == edges[i]);
        lemma_walk_edges_keeps_structure(s, short, caps, w, i, j);
    } else {
        let e = edges.last();
        assert(e.assignment@.take(e.assignment@.len() as int) =~= e.assignment@);
        lemma_bind_all_keeps_structure(
            s,
            e,
            caps[e.cap_urn.text@],
            e.assignment@.len() as int,
            j,
            before,
        );
    }
}

/// A node has the structure of every argument that it feeds and of every output
/// that feeds it: a record output never feeds an opaque input, nor an opaque
/// output a record input, in whatever strand and order they are wired.
pub proof fn a_record_feeds_records_only(
    strands: Seq<Strand>,
    caps: Map<Seq<char>, Cap>,
    k: int,
    i: int,
    j: int,
)
    requires
        walk_strands(strands, caps) is Ok,
        0 <= k < strands.len(),
        0 <= i < strands[k].edges@.len(),
        0 <= j < strands[k].edges@[i].assignment@.len(),
    ensures
        keeps_structure(
            walk_strands(strands, caps)->Ok_0,
            strands[k],
            strands[k].edges@[i],
            strands[k].edges@[i].assignment@[j],
        ),
    decreases strands.len(),
{
    let short = strands.drop_last();
    let before = walk_strands(short, caps)->Ok_0;
    let last = strands.last();
    lemma_walk_edges_grows(last, last.edges@, caps, before);
    if k < short.len() {
        assert(short[k] == strands[k]);
        a_record_feeds_records_only(short, caps, k, i, j);
    } else {
        lemma_walk_edges_keeps_structure(last, last.edges@, caps, before, i, j);
    }
}

// ---------------------------------------------------------------------------
// Edges and bindings
// ---------------------------------------------------------------------------
/// How many bindings the first `n` invocations of a strand have.
pub open spec fn bindings_before(edges: Seq<StrandEdge>, n: int) -> nat
    decreases n,
{
    if n <= 0 {
        0
    } else {
        bindings_before(edges, n - 1) + edges[n - 1].assignment@.len()
    }
}

/// How many bindings the first `n` strands have.
pub open spec fn bindings_of(strands: Seq<Strand>, n: int) -> nat
    decreases n,
{
    if n <= 0 {
        0
    } else {
        bindings_of(strands, n - 1) + bindings_before(
            strands[n - 1].edges@,
            strands[n - 1].edges@.len() as int,
        )
    }
}

/// The place of a binding among all bindings: of strand `k`, its invocation `i`,
/// that one's binding `j`.
pub open spec fn edge_place(strands: Seq<Strand>, k: int, i: int, j: int) -> int {
    bindings_of(strands, k) + bindings_before(strands[k].edges@, i) + j
}

/// Whether a text names a node: the last name written for it.
pub open spec fn names_node(s: Strand, name: Seq<char>, id: usize) -> bool {
    exists|p: int|
        #![trigger s.names.order()[p]]
        {
            &&& 0 <= p < s.names.order().len()
            &&& s.names.order()[p] == name
            &&& s.names@.contains_key(name)
            &&& s.names@[name] == id
            &&& forall|q: int|
                p < q < s.names.order().len() ==> s.names@[#[trigger] s.names.order()[q]] != id
        }
}

/// Whether a text is the URN by which an argument is streamed: that of its first
/// stream source, or its own where it has none.
pub open spec fn streams_as(arg: CapArg, text: Seq<char>) -> bool {
    ||| text == arg.media_urn@ && forall|p: int|
        0 <= p < arg.sources@.len() ==> !(#[trigger] arg.sources@[p] is Stdin)
    ||| exists|p: int|
        #![trigger arg.sources@[p]]
        0 <= p < arg.sources@.len() && arg.sources@[p] is Stdin && arg.sources@[p]->stdin@ == text
            && (forall|q: int| 0 <= q < p ==> !(#[trigger] arg.sources@[q] is Stdin))
}

/// Whether an edge stands for a binding of an invocation: it goes from the name
/// of the binding's source to the name of the invocation's target, under the
/// invocation's cap, with the stream URN of the first argument declared under
/// the bound slot and the cap's output.
pub open spec fn is_edge_of(
    v: EdgeView,
    s: Strand,
    e: StrandEdge,
    caps: Map<Seq<char>, Cap>,
    b: Binding,
) -> bool {
    &&& names_node(s, v.from, b.source)
    &&& names_node(s, v.to, e.target)
    &&& v.cap_urn == e.cap_urn.text@
    &&& caps.contains_key(v.cap_urn)
    &&& v.out_media == if e.cap_urn@.contains_key("out"@) && e.cap_urn@["out"@] is Some {
        e.cap_urn@["out"@]->Some_0
    } else {
        "media:"@
    }
    &&& exists|a: int|
        #![trigger caps[v.cap_urn].args@[a]]
        0 <= a < caps[v.cap_urn].args@.len() && urn::media_parsed(
            caps[v.cap_urn].args@[a].media_urn@,
        ) == Ok::<urn::TagMap, urn::UrnFault>(b.cap_arg_media_urn@) && (forall|x: int|
            0 <= x < a ==> urn::media_parsed((#[trigger] caps[v.cap_urn].args@[x]).media_urn@)
                != Ok::<urn::TagMap, urn::UrnFault>(b.cap_arg_media_urn@)) && streams_as(
            caps[v.cap_urn].args@[a],
            v.in_media,
        )
}

proof fn lemma_name_among(s: Strand, id: usize, n: nat)
    requires
        n <= s.names.order().len(),
        name_among(s.names.order(), s.names@, id, n) is Some,
        forall|q: int|
            n <= q < s.names.order().len() ==> s.names@[#[trigger] s.names.order()[q]] != id,
    ensures
        names_node(s, name_among(s.names.order(), s.names@, id, n)->0, id),
    decreases n,
{
    table::lemma_order_is_the_keys(s.names);
    if s.names@[s.names.order()[n - 1]] == id {
        assert(s.names@.contains_key(s.names.order()[n - 1]));
    } else {
        lemma_name_among(s, id, (n - 1) as nat);
    }
}

proof fn lemma_slot_arg(args: Seq<CapArg>, slot: urn::TagMap, from: int)
    requires
        0 <= from <= args.len(),
    ensures
        from <= slot_arg(args, slot, from) <= args.len(),
        slot_arg(args, slot, from) < args.len() ==> urn::media_parsed(
            args[slot_arg(args, slot, from)].media_urn@,
        ) == Ok::<urn::TagMap, urn::UrnFault>(slot),
        forall|x: int|
            from <= x < slot_arg(args, slot, from) ==> urn::media_parsed(
                (#[trigger] args[x]).media_urn@,
            ) != Ok::<urn::TagMap, urn::UrnFault>(slot),
    decreases args.len() - from,
{
    if from < args.len() {
        lemma_slot_arg(args, slot, from + 1);
    }
}

proof fn lemma_streams_as(arg: CapArg)
    ensures
        streams_as(arg, cap::stream_urn_of(arg)),
{
    cap::lemma_first_stdin_source(arg.sources@, 0);
}

proof fn lemma_bind_is_edge(
    s: Strand,
    e: StrandEdge,
    caps: Map<Seq<char>, Cap>,
    target: Seq<char>,
    b: Binding,
    w: Walk,
)
    requires
        name_of(s, e.target) == Some(target),
        caps.contains_key(e.cap_urn.text@),
        well_bound(s, e, caps, b),
        ({
            let out = urn::tag_or(e.cap_urn@, "out"@, "media:"@);
            let tags = urn::media_parsed(out);
            bind(s, e.cap_urn.text@, caps[e.cap_urn.text@], (out, tags->Ok_0), target, b, w) is Ok
        }),
    ensures
        ({
            let out = urn::tag_or(e.cap_urn@, "out"@, "media:"@);
            let tags = urn::media_parsed(out);
            let after = bind(
                s,
                e.cap_urn.text@,
                caps[e.cap_urn.text@],
                (out, tags->Ok_0),
                target,
                b,
                w,
            )->Ok_0;
            &&& after.edges.len() == w.edges.len() + 1
            &&& after.edges.drop_last() == w.edges
            &&& is_edge_of(after.edges.last(), s, e, caps, b)
        }),
{
    let out = urn::tag_or(e.cap_urn@, "out"@, "media:"@);
    let tags = urn::media_parsed(out);
    let c = caps[e.cap_urn.text@];
    let after = bind(s, e.cap_urn.text@, c, (out, tags->Ok_0), target, b, w)->Ok_0;
    assert(after.edges.drop_last() =~= w.edges);
    lemma_name_among(s, b.source, s.names.order().len());
    lemma_name_among(s, e.target, s.names.order().len());
    let a = slot_arg(c.args@, b.cap_arg_media_urn@, 0);
    lemma_slot_arg(c.args@, b.cap_arg_media_urn@, 0);
    lemma_streams_as(c.args@[a]);
    let v = after.edges.last();
    assert(caps[v.cap_urn].args@[a] == c.args@[a]);
}

proof fn lemma_bind_all_edges(
    s: Strand,
    e: StrandEdge,
    caps: Map<Seq<char>, Cap>,
    target: Seq<char>,
    n: int,
    w: Walk,
)
    requires
        0 <= n <= e.assignment@.len(),
        name_of(s, e.target) == Some(target),
        caps.contains_key(e.cap_urn.text@),
        forall|j: int|
            0 <= j < e.assignment@.len() ==> well_bound(s, e, caps, #[trigger] e.assignment@[j]),
        ({
            let out = urn::tag_or(e.cap_urn@, "out"@, "media:"@);
            let tags = urn::media_parsed(out);
            bind_all(
                s,
                e.cap_urn.text@,
                caps[e.cap_urn.text@],
                (out, tags->Ok_0),
                target,
                e.assignment@.take(n),
                w,
            ) is Ok
        }),
    ensures
        ({
            let out = urn::tag_or(e.cap_urn@, "out"@, "media:"@);
            let tags = urn::media_parsed(out);
            let after = bind_all(
                s,
                e.cap_urn.text@,
                caps[e.cap_urn.text@],
                (out, tags->Ok_0),
                target,
                e.assignment@.take(n),
                w,
            )->Ok_0;
            &&& after.edges.len() == w.edges.len() + n
            &&& forall|x: int| 0 <= x < w.edges.len() ==> #[trigger] after.edges[x] == w.edges[x]
            &&& forall|j: int|
                0 <= j < n ==> is_edge_of(
                    after.edges[w.edges.len() + j],
                    s,
                    e,
                    caps,
                    #[trigger] e.assignment@[j],
                )
        }),
    decreases n,
{
    let out = urn::tag_or(e.cap_urn@, "out"@, "media:"@);
    let media = (out, urn::media_parsed(out)->Ok_0);
    let c = caps[e.cap_urn.text@];
    let all = e.assignment@;
    if n > 0 {
        assert(all.take(n).drop_last() =~= all.take(n - 1));
        assert(all.take(n).last() == all[n - 1]);
        lemma_bind_all_edges(s, e, caps, target, n - 1, w);
        let before = bind_all(s, e.cap_urn.text@, c, media, target, all.take(n - 1), w)->Ok_0;
        let after = bind_all(s, e.cap_urn.text@, c, media, target, all.take(n), w)->Ok_0;
        assert(well_bound(s, e, caps, all[n - 1]));
        lemma_bind_is_edge(s, e, caps, target, all[n - 1], before);
        assert forall|x: int| 0 <= x < before.edges.len() implies #[trigger] after.edges[x]
            == before.edges[x] by {
            assert(after.edges[x] == after.edges.drop_last()[x]);
        }
        assert forall|j: int| 0 <= j < n implies is_edge_of(
            after.edges[w.edges.len() + j],
            s,
            e,
            caps,
            #[trigger] all[j],
        ) by {
            if j < n - 1 {
                assert(after.edges[w.edges.len() + j] == before.edges[w.edges.len() + j]);
            }
        }
    }
}

proof fn lemma_walk_edges_edges(s: Strand, n: int, caps: Map<Seq<char>, Cap>, w: Walk)
    requires
        0 <= n <= s.edges@.len(),
        strand_ok(s, caps),
        walk_edges(s, s.edges@.take(n), caps, w) is Ok,
    ensures
        ({
            let after = walk_edges(s, s.edges@.take(n), caps, w)->Ok_0;
            &&& after.edges.len() == w.edges.len() + bindings_before(s.edges@, n)
            &&& forall|x: int| 0 <= x < w.edges.len() ==> #[trigger] after.edges[x] == w.edges[x]
        }),
    decreases n,
{
    if n > 0 {
        lemma_last_edge(s, n, caps, w);
        lemma_walk_edges_edges(s, n - 1, caps, w);
        let before = walk_edges(s, s.edges@.take(n - 1), caps, w)->Ok_0;
        let after = walk_edges(s, s.edges@.take(n), caps, w)->Ok_0;
        assert forall|x: int| 0 <= x < w.edges.len() implies #[trigger] after.edges[x]
            == w.edges[x] by {
            assert(after.edges[x] == before.edges[x]);
        }
    }
}

proof fn lemma_last_edge(s: Strand, n: int, caps: Map<Seq<char>, Cap>, w: Walk)
    requires
        0 < n <= s.edges@.len(),
        strand_ok(s, caps),
        walk_edges(s, s.edges@.take(n), caps, w) is Ok,
    ensures
        walk_edges(s, s.edges@.take(n - 1), caps, w) is Ok,
        ({
            let e = s.edges@[n - 1];
            let before = walk_edges(s, s.edges@.take(n - 1), caps, w)->Ok_0;
            let after = walk_edges(s, s.edges@.take(n), caps, w)->Ok_0;
            &&& after.edges.len() == before.edges.len() + e.assignment@.len()
            &&& forall|x: int|
                0 <= x < before.edges.len() ==> #[trigger] after.edges[x] == before.edges[x]
            &&& forall|j: int|
                0 <= j < e.assignment@.len() ==> is_edge_of(
                    after.edges[before.edges.len() + j],
                    s,
                    e,
                    caps,
                    #[trigger] e.assignment@[j],
                )
        }),
{
    let all = s.edges@;
    assert(all.take(n).drop_last() =~= all.take(n - 1));
    assert(all.take(n).last() == all[n - 1]);
    let e = all[n - 1];
    let before = walk_edges(s, all.take(n - 1), caps, w)->Ok_0;
    let target = name_of(s, e.target)->0;
    assert forall|j: int| 0 <= j < e.assignment@.len() implies well_bound(
        s,
        e,
        caps,
        #[trigger] e.assignment@[j],
    ) by {
        assert(well_bound(s, s.edges@[n - 1], caps, s.edges@[n - 1].assignment@[j]));
    }
    assert(e.assignment@.take(e.assignment@.len() as int) =~= e.assignment@);
    lemma_bind_all_edges(s, e, caps, target, e.assignment@.len() as int, before);
}

proof fn lemma_walk_edges_at(
    s: Strand,
    n: int,
    caps: Map<Seq<char>, Cap>,
    w: Walk,
    i: int,
    j: int,
)
    requires
        0 <= i < n <= s.edges@.len(),
        0 <= j < s.edges@[i].assignment@.len(),
        strand_ok(s, caps),
        walk_edges(s, s.edges@.take(n), caps, w) is Ok,
    ensures
        bindings_before(s.edges@, i) + j < bindings_before(s.edges@, n),
        is_edge_of(
            walk_edges(s, s.edges@.take(n), caps, w)->Ok_0.edges[w.edges.len() + bindings_before(
                s.edges@,
                i,
            ) + j],
            s,
            s.edges@[i],
            caps,
            s.edges@[i].assignment@[j],
        ),
    decreases n,
{
    lemma_last_edge(s, n, caps, w);
    lemma_walk_edges_edges(s, n - 1, caps, w);
    let before = walk_edges(s, s.edges@.take(n - 1), caps, w)->Ok_0;
    let after = walk_edges(s, s.edges@.take(n), caps, w)->Ok_0;
    let x = w.edges.len() + bindings_before(s.edges@, i) + j;
    if i < n - 1 {
        lemma_walk_edges_at(s, n - 1, caps, w, i, j);
        assert(after.edges[x] == before.edges[x]);
    } else {
        assert(x == before.edges.len() + j);
        assert(is_edge_of(
            after.edges[before.edges.len() + j],
            s,
            s.edges@[n - 1],
            caps,
            s.edges@[n - 1].assignment@[j],
        ));
    }
}

proof fn lemma_bindings_of_prefix(strands: Seq<Strand>, m: int, n: int)
    requires
        0 <= n <= m <= strands.len(),
    ensures
        bindings_of(strands.take(m), n) == bindings_of(strands, n),
    decreases n,
{
    if n > 0 {
        lemma_bindings_of_prefix(strands, m, n - 1);
    }
}

proof fn lemma_edges_are_counted(strands: Seq<Strand>, caps: Map<Seq<char>, Cap>)
    requires
        walk_strands(strands, caps) is Ok,
        forall|i: int| 0 <= i < strands.len() ==> strand_ok(#[trigger] strands[i], caps),
    ensures
        walk_strands(strands, caps)->Ok_0.edges.len() == bindings_of(strands, strands.len() as int),
    decreases strands.len(),
{
    if strands.len() > 0 {
        let short = strands.drop_last();
        let m = short.len() as int;
        let last = strands.last();
        assert(short =~= strands.take(m));
        assert forall|i: int| 0 <= i < short.len() implies strand_ok(#[trigger] short[i], caps) by {
            assert(short[i] == strands[i]);
        }
        lemma_edges_are_counted(short, caps);
        lemma_bindings_of_prefix(strands, m, m);
        let before = walk_strands(short, caps)->Ok_0;
        assert(last.edges@.take(last.edges@.len() as int) =~= last.edges@);
        lemma_walk_edges_edges(last, last.edges@.len() as int, caps, before);
    }
}

/// The edges of a graph stand for the bindings of its strands' invocations, one
/// for one and in order: as many edges as bindings, and at a binding's place the
/// edge from its source's name to its invocation's target, whatever edges came
/// before it.
pub proof fn every_binding_has_its_edge(
    strands: Seq<Strand>,
    caps: Map<Seq<char>, Cap>,
    k: int,
    i: int,
    j: int,
)
    requires
        walk_strands(strands, caps) is Ok,
        forall|x: int| 0 <= x < strands.len() ==> strand_ok(#[trigger] strands[x], caps),
        0 <= k < strands.len(),
        0 <= i < strands[k].edges@.len(),
        0 <= j < strands[k].edges@[i].assignment@.len(),
    ensures
        ({
            let edges = walk_strands(strands, caps)->Ok_0.edges;
            &&& edges.len() == bindings_of(strands, strands.len() as int)
            &&& 0 <= edge_place(strands, k, i, j) < edges.len()
            &&& is_edge_of(
                edges[edge_place(strands, k, i, j)],
                strands[k],
                strands[k].edges@[i],
                caps,
                strands[k].edges@[i].assignment@[j],
            )
        }),
    decreases strands.len(),
{
    lemma_edges_are_counted(strands, caps);
    let short = strands.drop_last();
    let m = short.len() as int;
    let last = strands.last();
    assert(short =~= strands.take(m));
    assert forall|x: int| 0 <= x < short.len() implies strand_ok(#[trigger] short[x], caps) by {
        assert(short[x] == strands[x]);
    }
    lemma_edges_are_counted(short, caps);
    lemma_bindings_of_prefix(strands, m, m);
    let before = walk_strands(short, caps)->Ok_0;
    assert(last.edges@.take(last.edges@.len() as int) =~= last.edges@);
    lemma_walk_edges_edges(last, last.edges@.len() as int, caps, before);
    if k < m {
        assert(short[k] == strands[k]);
        lemma_bindings_of_prefix(strands, m, k);
        every_binding_has_its_edge(short, caps, k, i, j);
        let edges = walk_strands(strands, caps)->Ok_0.edges;
        assert(edges[edge_place(strands, k, i, j)] == before.edges[edge_place(short, k, i, j)]);
    } else {
        lemma_walk_edges_at(last, last.edges@.len() as int, caps, before, i, j);
    }
}

// ---------------------------------------------------------------------------
// Media at the nodes
// ---------------------------------------------------------------------------
/// Whether one of two media types has all that the other asks for.
pub open spec fn on_one_chain(a: urn::TagMap, b: urn::TagMap) -> bool {
    ||| forall|k: Seq<char>| #[trigger]
        b.contains_key(k) ==> a.contains_key(k) && (b[k] is None || a[k] == b[k])
    ||| forall|k: Seq<char>| #[trigger]
        a.contains_key(k) ==> b.contains_key(k) && (a[k] is None || b[k] == a[k])
}

/// Whether the media types known at the ends of a binding fit it: the source
/// node's its own type, the target node's the cap's output.
pub open spec fn media_fit(w: Walk, s: Strand, e: StrandEdge, b: Binding) -> bool {
    let out = urn::media_parsed(
        if e.cap_urn@.contains_key("out"@) && e.cap_urn@["out"@] is Some {
            e.cap_urn@["out"@]->Some_0
        } else {
            "media:"@
        },
    );
    &&& name_of(s, b.source) is Some
    &&& name_of(s, e.target) is Some
    &&& out is Ok
    &&& w.media.contains_key(name_of(s, b.source)->0)
    &&& w.media.contains_key(name_of(s, e.target)->0)
    &&& on_one_chain(w.media[name_of(s, b.source)->0].1, s.node_urns@[b.source as int]@)
    &&& on_one_chain(w.media[name_of(s, e.target)->0].1, out->Ok_0)
}

proof fn lemma_bind_fits(
    s: Strand,
    e: StrandEdge,
    c: Cap,
    b: Binding,
    w: Walk,
)
    requires
        name_of(s, e.target) is Some,
        urn::media_parsed(urn::tag_or(e.cap_urn@, "out"@, "media:"@)) is Ok,
        ({
            let out = urn::tag_or(e.cap_urn@, "out"@, "media:"@);
            bind(
                s,
                e.cap_urn.text@,
                c,
                (out, urn::media_parsed(out)->Ok_0),
                name_of(s, e.target)->0,
                b,
                w,
            ) is Ok
        }),
    ensures
        ({
            let out = urn::tag_or(e.cap_urn@, "out"@, "media:"@);
            let after = bind(
                s,
                e.cap_urn.text@,
                c,
                (out, urn::media_parsed(out)->Ok_0),
                name_of(s, e.target)->0,
                b,
                w,
            )->Ok_0;
            media_fit(after, s, e, b) && grown(w, after)
        }),
{
    let out = urn::tag_or(e.cap_urn@, "out"@, "media:"@);
    let tags = urn::media_parsed(out)->Ok_0;
    let source = name_of(s, b.source)->0;
    let target = name_of(s, e.target)->0;
    let own = media_of(s.node_urns@[b.source as int]);
    let first = meet(w.media, source, own, false)->Ok_0;
    let second = meet(first, target, (out, tags), true)->Ok_0;
    assert(urn::tags_conform(own.1, own.1));
    assert(urn::tags_conform(tags, tags));
    assert(compatible(first[source].1, own.1));
    assert(compatible(second[target].1, tags));
    assert(second[source] == first[source]);
}

proof fn lemma_bind_all_fits(s: Strand, e: StrandEdge, c: Cap, n: int, j: int, w: Walk)
    requires
        0 <= j < n <= e.assignment@.len(),
        name_of(s, e.target) is Some,
        urn::media_parsed(urn::tag_or(e.cap_urn@, "out"@, "media:"@)) is Ok,
        ({
            let out = urn::tag_or(e.cap_urn@, "out"@, "media:"@);
            bind_all(
                s,
                e.cap_urn.text@,
                c,
                (out, urn::media_parsed(out)->Ok_0),
                name_of(s, e.target)->0,
                e.assignment@.take(n),
                w,
            ) is Ok
        }),
    ensures
        ({
            let out = urn::tag_or(e.cap_urn@, "out"@, "media:"@);
            media_fit(
                bind_all(
                    s,
                    e.cap_urn.text@,
                    c,
                    (out, urn::media_parsed(out)->Ok_0),
                    name_of(s, e.target)->0,
                    e.assignment@.take(n),
                    w,
                )->Ok_0,
                s,
                e,
                e.assignment@[j],
            )
        }),
    decreases n,
{
    let all = e.assignment@;
    let out = urn::tag_or(e.cap_urn@, "out"@, "media:"@);
    let media = (out, urn::media_parsed(out)->Ok_0);
    let target = name_of(s, e.target)->0;
    assert(all.take(n).drop_last() =~= all.take(n - 1));
    assert(all.take(n).last() == all[n - 1]);
    let before = bind_all(s, e.cap_urn.text@, c, media, target, all.take(n - 1), w)->Ok_0;
    lemma_bind_fits(s, e, c, all[n - 1], before);
    if j < n - 1 {
        lemma_bind_all_fits(s, e, c, n - 1, j, w);
        let after = bind_all(s, e.cap_urn.text@, c, media, target, all.take(n), w)->Ok_0;
        lemma_fit_survives(before, after, s, e, all[j]);
    }
}

proof fn lemma_fit_survives(a: Walk, b: Walk, s: Strand, e: StrandEdge, x: Binding)
    requires
        media_fit(a, s, e, x),
        grown(a, b),
    ensures
        media_fit(b, s, e, x),
{
    assert(a.media.contains_key(name_of(s, x.source)->0));
    assert(a.media.contains_key(name_of(s, e.target)->0));
}

proof fn lemma_walk_edges_fits(
    s: Strand,
    edges: Seq<StrandEdge>,
    caps: Map<Seq<char>, Cap>,
    w: Walk,
    i: int,
    j: int,
)
    requires
        walk_edges(s, edges, caps, w) is Ok,
        0 <= i < edges.len(),
        0 <= j < edges[i].assignment@.len(),
    ensures
        media_fit(walk_edges(s, edges, caps, w)->Ok_0, s, edges[i], edges[i].assignment@[j]),
    decreases edges.len(),
{
    let short = edges.drop_last();
    let before = walk_edges(s, short, caps, w)->Ok_0;
    let after = walk_edges(s, edges, caps, w)->Ok_0;
    lemma_walk_edge_grows(s, edges.last(), caps, before);
    if i < short.len() {
        assert(short[i] == edges[i]);
        lemma_walk_edges_fits(s, short, caps, w, i, j);
        lemma_fit_survives(before, after, s, edges[i], edges[i].assignment@[j]);
    } else {
        let e = edges.last();
        assert(e.assignment@.take(e.assignment@.len() as int) =~= e.assignment@);
        lemma_bind_all_fits(
            s,
            e,
            caps[e.cap_urn.text@],
            e.assignment@.len() as int,
            j,
            before,
        );
    }
}

/// The media types that meet at a node lie on one specialization chain with what
/// is known of it: every binding's source with its node's type, and its cap's
/// output with the target's, in whatever strand and order they are wired.
pub proof fn media_that_meet_belong_together(
    strands: Seq<Strand>,
    caps: Map<Seq<char>, Cap>,
    k: int,
    i: int,
    j: int,
)
    requires
        walk_strands(strands, caps) is Ok,
        0 <= k < strands.len(),
        0 <= i < strands[k].edges@.len(),
        0 <= j < strands[k].edges@[i].assignment@.len(),
    ensures
        media_fit(
            walk_strands(strands, caps)->Ok_0,
            strands[k],
            strands[k].edges@[i],
            strands[k].edges@[i].assignment@[j],
        ),
    decreases strands.len(),
{
    let short = strands.drop_last();
    let before = walk_strands(short, caps)->Ok_0;
    let after = walk_strands(strands, caps)->Ok_0;
    let last = strands.last();
    lemma_walk_edges_grows(last, last.edges@, caps, before);
    if k < short.len() {
        assert(short[k] == strands[k]);
        media_that_meet_belong_together(short, caps, k, i, j);
        lemma_fit_survives(
            before,
            after,
            strands[k],
            strands[k].edges@[i],
            strands[k].edges@[i].assignment@[j],
        );
    } else {
        lemma_walk_edges_fits(last, last.edges@, caps, before, i, j);
    }
}

/// Meeting a node refuses exactly what does not belong there: a type that is not
/// on one chain with what is known of the node, or has another structure.
pub proof fn a_node_takes_what_belongs_there(
    media: Map<Seq<char>, Media>,
    node: Seq<char>,
    m: Media,
    as_target: bool,
)
    ensures
        !media.contains_key(node) ==> meet(media, node, m, as_target) == Ok::<
            Map<Seq<char>, Media>,
            ParseFault,
        >(media.insert(node, m)),
        media.contains_key(node) ==> {
            &&& meet(media, node, m, as_target) is Ok <==> (on_one_chain(media[node].1, m.1)
                && media[node].1.contains_key("record"@) == m.1.contains_key("record"@))
            &&& meet(media, node, m, as_target) is Ok ==> meet(media, node, m, as_target)->Ok_0
                == media
        },
{
    if media.contains_key(node) {
        assert(compatible(media[node].1, m.1) <==> on_one_chain(media[node].1, m.1));
    }
}

/// A labeled edge is the wired edge under its step identity: same ends, same cap,
/// same media.
pub proof fn a_labeled_edge_is_the_wired_edge(e: ResolvedEdge, wired: WiredEdge, token: StepToken)
    requires
        labeled(e, wired, token),
    ensures
        e.token_id@ == token@,
        e.from@ == wired.from@,
        e.to@ == wired.to@,
        e.cap_urn@ == wired.cap_urn@,
        e.cap == wired.cap,
        e.in_media@ == wired.in_media@,
        e.out_media@ == wired.out_media@,
{
}

} // verus!
