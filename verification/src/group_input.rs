//! Which input streams one cap invocation is fed.
//!
//! The cartridge demuxes incoming streams by URN, so exactly ONE stream per
//! distinct URN goes out. Several edges onto one URN are a GATHER into a
//! sequence argument: their payloads are concatenated, in edge order, into one
//! sequence stream. A live-feed reference keeps its own URN and stays alone.

use crate::cap::Cap;
use crate::context::ExecutionContext;
use crate::executor_error::ExecutionError;
use crate::feed::GatherMember;
use crate::frame;
use crate::frame::StreamMeta;
use crate::groups::{EdgeGroup, ResolvedEdge};
use crate::run_arguments::clone_bytes;
use crate::spool;
use crate::text;
use crate::text::decimal_usize;
use crate::urn;
use crate::urn::{denotes, MediaUrn};
use vstd::prelude::*;
use vstd::string::*;

verus! {

/// One edge's payload on an input stream.
pub struct StreamMember {
    /// The node that holds the payload.
    pub node: String,
    /// Whether the payload lives in a disk spool.
    pub spooled: bool,
    /// Whether the payload is sent as a sequence.
    pub is_sequence: bool,
}

/// One input stream of an invocation: a label and the payloads behind it.
pub struct InputStream {
    pub urn: MediaUrn,
    /// What the stream is labeled with.
    pub label: String,
    /// The payloads, in edge order.
    pub members: Vec<StreamMember>,
}

/// What a member is: node, spooled, sequence.
pub type MemberView = (Seq<char>, bool, bool);

/// What a stream is.
#[verifier::ext_equal]
pub ghost struct StreamView {
    pub urn: urn::TagMap,
    pub label: Seq<char>,
    pub members: Seq<MemberView>,
}

impl View for StreamMember {
    type V = MemberView;

    open spec fn view(&self) -> MemberView {
        (self.node@, self.spooled, self.is_sequence)
    }
}

pub open spec fn member_views(members: Seq<StreamMember>) -> Seq<MemberView> {
    Seq::new(members.len(), |i: int| members[i]@)
}

impl View for InputStream {
    type V = StreamView;

    open spec fn view(&self) -> StreamView {
        StreamView { urn: self.urn@, label: self.label@, members: member_views(self.members@) }
    }
}

pub open spec fn stream_views(streams: Seq<InputStream>) -> Seq<StreamView> {
    Seq::new(streams.len(), |i: int| streams[i]@)
}

// ---------------------------------------------------------------------------
// Messages
// ---------------------------------------------------------------------------
pub open spec fn missing_data_text(node: Seq<char>, cap_urn: Seq<char>) -> Seq<char> {
    "Missing input data at node '"@ + node + "' for cap '"@ + cap_urn + "'"@
}

pub open spec fn missing_flag_text(node: Seq<char>, cap_urn: Seq<char>) -> Seq<char> {
    "Missing sequence flag at node '"@ + node + "' for cap '"@ + cap_urn
        + "'. Either the input map was constructed without a flag for this node, or an intermediate cap completed without setting its sequence flag — both are bugs."@
}

pub open spec fn bad_reference_text(
    reference: Seq<char>,
    node: Seq<char>,
    fault: urn::UrnFault,
) -> Seq<char> {
    "live-feed reference URN '"@ + reference + "' at node '"@ + node
        + "' is not a valid media URN: "@ + urn::fault_text(fault)
}

pub open spec fn two_references_text(cap_urn: Seq<char>, reference: Seq<char>) -> Seq<char> {
    "cap '"@ + cap_urn + "' would receive two live-feed reference streams '"@ + reference
        + "' — a device capture cannot be fanned into one cap twice"@
}

pub open spec fn bad_input_text(
    label: Seq<char>,
    cap_urn: Seq<char>,
    fault: urn::UrnFault,
) -> Seq<char> {
    "input arg URN '"@ + label + "' for cap '"@ + cap_urn + "' is not a valid media URN: "@
        + urn::fault_text(fault)
}

pub open spec fn colliding_arg_text(cap_urn: Seq<char>, label: Seq<char>) -> Seq<char> {
    "cap '"@ + cap_urn + "' receives two input streams with the same arg URN '"@ + label
        + "'; each input must carry a distinct arg URN — a cap has one main input, and convergence args have distinct URNs"@
}

pub open spec fn undeclared_gather_text(cap_urn: Seq<char>, n: nat, label: Seq<char>) -> Seq<char> {
    "cap '"@ + cap_urn + "' receives "@ + text::decimal(n) + " input streams on arg URN '"@ + label
        + "', but no cap arg declares that stream URN — malformed graph"@
}

pub open spec fn scalar_gather_text(cap_urn: Seq<char>, n: nat, label: Seq<char>) -> Seq<char> {
    "cap '"@ + cap_urn + "' receives "@ + text::decimal(n)
        + " input streams with the same arg URN '"@ + label
        + "', but that arg is not a sequence arg; each scalar input must carry a distinct arg URN — a cap has one main input, and convergence args have distinct URNs"@
}

// ---------------------------------------------------------------------------
// Streams of the edges
// ---------------------------------------------------------------------------
/// The first stream at or after `from` with the given URN, or the number of
/// streams where there is none.
pub open spec fn stream_index(streams: Seq<StreamView>, urn: urn::TagMap, from: int) -> int
    decreases streams.len() - from,
{
    if from >= streams.len() {
        streams.len() as int
    } else if streams[from].urn == urn {
        from
    } else {
        stream_index(streams, urn, from + 1)
    }
}

/// A stream with one payload more.
pub open spec fn with_member(s: StreamView, m: MemberView) -> StreamView {
    StreamView { urn: s.urn, label: s.label, members: s.members.push(m) }
}

/// The streams with one edge's payload added, or why it cannot be.
pub open spec fn add_edge(
    streams: Seq<StreamView>,
    e: ResolvedEdge,
    ctx: ExecutionContext,
) -> Result<Seq<StreamView>, Seq<char>> {
    let node = e.from@;
    let spooled = ctx.node_spool@.contains_key(node);
    if !spooled && !ctx.node_data@.contains_key(node) {
        Err(missing_data_text(node, e.cap_urn@))
    } else if !ctx.node_is_sequence@.contains_key(node) {
        Err(missing_flag_text(node, e.cap_urn@))
    } else if ctx.node_live_reference@.contains_key(node) {
        let reference = ctx.node_live_reference@[node]@;
        match urn::media_parsed(reference) {
            Err(fault) => Err(bad_reference_text(reference, node, fault)),
            Ok(tags) => if stream_index(streams, tags, 0) < streams.len() {
                Err(two_references_text(e.cap_urn@, reference))
            } else {
                Ok(
                    streams.push(
                        StreamView {
                            urn: tags,
                            label: reference,
                            members: seq![(node, spooled, false)],
                        },
                    ),
                )
            },
        }
    } else {
        let member = (node, spooled, ctx.node_is_sequence@[node]);
        match urn::media_parsed(e.in_media@) {
            Err(fault) => Err(bad_input_text(e.in_media@, e.cap_urn@, fault)),
            Ok(tags) => {
                let i = stream_index(streams, tags, 0);
                if i < streams.len() {
                    Ok(streams.update(i, with_member(streams[i], member)))
                } else {
                    Ok(
                        streams.push(
                            StreamView { urn: tags, label: e.in_media@, members: seq![member] },
                        ),
                    )
                }
            },
        }
    }
}

/// The streams of the edges, or why they cannot be formed: the first edge at
/// fault decides.
pub open spec fn edge_streams(edges: Seq<ResolvedEdge>, ctx: ExecutionContext) -> Result<
    Seq<StreamView>,
    Seq<char>,
>
    decreases edges.len(),
{
    if edges.len() == 0 {
        Ok(Seq::empty())
    } else {
        match edge_streams(edges.drop_last(), ctx) {
            Err(text) => Err(text),
            Ok(streams) => add_edge(streams, edges.last(), ctx),
        }
    }
}

/// The URNs of streams.
pub open spec fn stream_urns(streams: Seq<StreamView>) -> Seq<urn::TagMap> {
    Seq::new(streams.len(), |i: int| streams[i].urn)
}

/// The URNs in use once the extra arguments are added, or why one cannot be.
pub open spec fn urns_with_args(
    seen: Seq<urn::TagMap>,
    args: Seq<(String, Vec<u8>)>,
    cap_urn: Seq<char>,
) -> Result<Seq<urn::TagMap>, Seq<char>>
    decreases args.len(),
{
    if args.len() == 0 {
        Ok(seen)
    } else {
        match urns_with_args(seen, args.drop_last(), cap_urn) {
            Err(text) => Err(text),
            Ok(urns) => {
                let label = args.last().0@;
                match urn::media_parsed(label) {
                    Err(fault) => Err(bad_input_text(label, cap_urn, fault)),
                    Ok(tags) => if urns.contains(tags) {
                        Err(colliding_arg_text(cap_urn, label))
                    } else {
                        Ok(urns.push(tags))
                    },
                }
            },
        }
    }
}

/// The input streams of an invocation, or why it cannot be fed.
pub open spec fn input_streams(
    group: EdgeGroup,
    args: Seq<(String, Vec<u8>)>,
    ctx: ExecutionContext,
) -> Result<Seq<StreamView>, Seq<char>> {
    match edge_streams(group.edges@, ctx) {
        Err(text) => Err(text),
        Ok(streams) => match urns_with_args(stream_urns(streams), args, group.cap_urn@) {
            Err(text) => Err(text),
            Ok(_) => Ok(streams),
        },
    }
}

fn find_stream(streams: &Vec<InputStream>, urn: &MediaUrn) -> (r: usize)
    ensures
        r <= streams@.len(),
        r == stream_index(stream_views(streams@), urn@, 0),
{
    let mut i: usize = 0;
    while i < streams.len()
        invariant
            i <= streams@.len(),
            stream_index(stream_views(streams@), urn@, 0) == stream_index(
                stream_views(streams@),
                urn@,
                i as int,
            ),
        decreases streams@.len() - i,
    {
        if streams[i].urn.is_equivalent(urn) {
            return i;
        }
        i = i + 1;
    }
    i
}

fn push_edge(streams: &mut Vec<InputStream>, edge: &ResolvedEdge, ctx: &ExecutionContext) -> (r:
    Result<(), ExecutionError>)
    ensures
        match add_edge(stream_views(old(streams)@), *edge, *ctx) {
            Ok(s) => r is Ok && stream_views(final(streams)@) == s,
            Err(text) => r is Err && spool::host_error(r->Err_0, text),
        },
{
    let from = edge.from.as_str();
    let spooled: bool = ctx.node_spool.contains_key(from);
    if !spooled && !ctx.node_data.contains_key(from) {
        return Err(
            ExecutionError::HostError(
                "Missing input data at node '".to_owned().concat(from).concat(
                    "' for cap '",
                ).concat(edge.cap_urn.as_str()).concat("'"),
            ),
        );
    }
    let is_seq: bool = match ctx.node_is_sequence.get(from) {
        Some(b) => *b,
        None => {
            return Err(
                ExecutionError::HostError(
                    "Missing sequence flag at node '".to_owned().concat(from).concat(
                        "' for cap '",
                    ).concat(edge.cap_urn.as_str()).concat(
                        "'. Either the input map was constructed without a flag for this node, or an intermediate cap completed without setting its sequence flag — both are bugs.",
                    ),
                ),
            );
        },
    };
    // A live-feed reference node sends its selector labeled with the REFERENCE
    // urn — never relabeled to the edge's input media — so the receiving
    // cartridge's demux intercepts it and resolves capture. The reference is
    // ONE record: never a sequence, whatever the node's content cardinality.
    if let Some(reference) = ctx.node_live_reference.get(from) {
        let urn = match MediaUrn::from_string(reference.as_str()) {
            Ok(u) => u,
            Err(e) => {
                return Err(
                    ExecutionError::HostError(
                        "live-feed reference URN '".to_owned().concat(reference.as_str()).concat(
                            "' at node '",
                        ).concat(from).concat("' is not a valid media URN: ").concat(
                            e.detail().as_str(),
                        ),
                    ),
                );
            },
        };
        if find_stream(streams, &urn) < streams.len() {
            return Err(
                ExecutionError::HostError(
                    "cap '".to_owned().concat(edge.cap_urn.as_str()).concat(
                        "' would receive two live-feed reference streams '",
                    ).concat(reference.as_str()).concat(
                        "' — a device capture cannot be fanned into one cap twice",
                    ),
                ),
            );
        }
        push_stream(
            streams,
            urn,
            reference.clone(),
            StreamMember { node: edge.from.clone(), spooled, is_sequence: false },
        );
        return Ok(());
    }
    let urn = match MediaUrn::from_string(edge.in_media.as_str()) {
        Ok(u) => u,
        Err(e) => {
            return Err(
                ExecutionError::HostError(
                    "input arg URN '".to_owned().concat(edge.in_media.as_str()).concat(
                        "' for cap '",
                    ).concat(edge.cap_urn.as_str()).concat("' is not a valid media URN: ").concat(
                        e.detail().as_str(),
                    ),
                ),
            );
        },
    };
    let member = StreamMember { node: edge.from.clone(), spooled, is_sequence: is_seq };
    let i: usize = find_stream(streams, &urn);
    if i < streams.len() {
        let ghost before = streams@;
        let ghost m = member@;
        streams[i].members.push(member);
        proof {
            assert(member_views(streams@[i as int].members@) =~= member_views(
                before[i as int].members@,
            ).push(m));
            assert(stream_views(streams@) =~= stream_views(before).update(
                i as int,
                with_member(before[i as int]@, m),
            ));
        }
    } else {
        push_stream(streams, urn, edge.in_media.clone(), member);
    }
    Ok(())
}

fn push_stream(streams: &mut Vec<InputStream>, urn: MediaUrn, label: String, member: StreamMember)
    ensures
        stream_views(final(streams)@) == stream_views(old(streams)@).push(
            StreamView { urn: urn@, label: label@, members: seq![member@] },
        ),
{
    let ghost before = streams@;
    let ghost m = member@;
    let ghost tags = urn@;
    let ghost name = label@;
    let mut members: Vec<StreamMember> = Vec::new();
    members.push(member);
    streams.push(InputStream { urn, label, members });
    proof {
        assert(member_views(streams@.last().members@) =~= seq![m]);
        assert(stream_views(streams@) =~= stream_views(before).push(
            StreamView { urn: tags, label: name, members: seq![m] },
        ));
    }
}

fn holds_urn(urns: &Vec<MediaUrn>, urn: &MediaUrn) -> (r: bool)
    ensures
        r == tag_views(urns@).contains(urn@),
{
    let mut i: usize = 0;
    while i < urns.len()
        invariant
            i <= urns@.len(),
            forall|j: int| 0 <= j < i ==> #[trigger] tag_views(urns@)[j] != urn@,
        decreases urns@.len() - i,
    {
        if urns[i].is_equivalent(urn) {
            assert(tag_views(urns@)[i as int] == urn@);
            return true;
        }
        i = i + 1;
    }
    false
}

/// The tags of URNs.
pub open spec fn tag_views(urns: Seq<MediaUrn>) -> Seq<urn::TagMap> {
    Seq::new(urns.len(), |i: int| urns[i]@)
}

/// Form the input streams of an invocation: one named stream per distinct URN
/// of its edges, and check the extra cap-argument streams against them.
///
/// Every source node must have data and carry a sequence flag — a missing one
/// is a wiring bug and fails hard. Extra-argument streams must not collide with
/// each other or with any input stream: they are value-channel deliveries,
/// never gathered.
pub fn plan_group_input(
    group: &EdgeGroup,
    extra_args: &Vec<(String, Vec<u8>)>,
    ctx: &ExecutionContext,
) -> (r: Result<Vec<InputStream>, ExecutionError>)
    ensures
        match input_streams(*group, extra_args@, *ctx) {
            Ok(streams) => r is Ok && stream_views(r->Ok_0@) == streams,
            Err(text) => r is Err && spool::host_error(r->Err_0, text),
        },
        r is Ok ==> forall|i: int|
            0 <= i < r->Ok_0@.len() ==> has_data((#[trigger] r->Ok_0@[i])@, *ctx),
{
    let mut streams: Vec<InputStream> = Vec::new();
    let mut i: usize = 0;
    proof {
        assert(group.edges@.take(0) =~= Seq::<ResolvedEdge>::empty());
        assert(stream_views(streams@) =~= Seq::<StreamView>::empty());
    }
    while i < group.edges.len()
        invariant
            i <= group.edges@.len(),
            edge_streams(group.edges@.take(i as int), *ctx) == Ok::<Seq<StreamView>, Seq<char>>(
                stream_views(streams@),
            ),
        decreases group.edges@.len() - i,
    {
        proof {
            assert(group.edges@.take(i + 1).drop_last() =~= group.edges@.take(i as int));
            assert(group.edges@.take(i + 1).last() == group.edges@[i as int]);
        }
        match push_edge(&mut streams, &group.edges[i], ctx) {
            Ok(_) => {},
            Err(e) => {
                proof {
                    lemma_edge_fault_stays(group.edges@, i + 1, *ctx);
                }
                return Err(e);
            },
        }
        i = i + 1;
    }
    assert(group.edges@.take(i as int) =~= group.edges@);
    let mut added: Vec<MediaUrn> = Vec::new();
    let mut a: usize = 0;
    let ghost urns = stream_urns(stream_views(streams@));
    proof {
        assert(urns + tag_views(added@) =~= urns);
        assert(extra_args@.take(0) =~= Seq::<(String, Vec<u8>)>::empty());
    }
    while a < extra_args.len()
        invariant
            a <= extra_args@.len(),
            urns == stream_urns(stream_views(streams@)),
            edge_streams(group.edges@, *ctx) == Ok::<Seq<StreamView>, Seq<char>>(
                stream_views(streams@),
            ),
            urns_with_args(urns, extra_args@.take(a as int), group.cap_urn@) == Ok::<
                Seq<urn::TagMap>,
                Seq<char>,
            >(urns + tag_views(added@)),
        decreases extra_args@.len() - a,
    {
        proof {
            assert(extra_args@.take(a + 1).drop_last() =~= extra_args@.take(a as int));
            assert(extra_args@.take(a + 1).last() == extra_args@[a as int]);
        }
        let label = extra_args[a].0.as_str();
        let urn = match MediaUrn::from_string(label) {
            Ok(u) => u,
            Err(e) => {
                proof {
                    lemma_arg_fault_stays(urns, extra_args@, a + 1, group.cap_urn@);
                }
                return Err(
                    ExecutionError::HostError(
                        "input arg URN '".to_owned().concat(label).concat("' for cap '").concat(
                            group.cap_urn.as_str(),
                        ).concat("' is not a valid media URN: ").concat(e.detail().as_str()),
                    ),
                );
            },
        };
        proof {
            lemma_stream_index(stream_views(streams@), urn@, 0);
            lemma_contains_either(urns, tag_views(added@), urn@);
        }
        if find_stream(&streams, &urn) < streams.len() || holds_urn(&added, &urn) {
            proof {
                lemma_arg_fault_stays(urns, extra_args@, a + 1, group.cap_urn@);
            }
            return Err(
                ExecutionError::HostError(
                    "cap '".to_owned().concat(group.cap_urn.as_str()).concat(
                        "' receives two input streams with the same arg URN '",
                    ).concat(label).concat(
                        "'; each input must carry a distinct arg URN — a cap has one main input, and convergence args have distinct URNs",
                    ),
                ),
            );
        }
        let ghost before = added@;
        let ghost u = urn@;
        added.push(urn);
        assert(urns + tag_views(added@) =~= (urns + tag_views(before)).push(u));
        a = a + 1;
    }
    assert(extra_args@.take(a as int) =~= extra_args@);
    proof {
        streams_have_their_data(group.edges@, *ctx);
        assert forall|i: int| 0 <= i < streams@.len() implies has_data(
            (#[trigger] streams@[i])@,
            *ctx,
        ) by {
            assert(stream_views(streams@)[i] == streams@[i]@);
        }
    }
    Ok(streams)
}

/// The stream found by its URN has it, and none is missed.
proof fn lemma_stream_index(streams: Seq<StreamView>, urn: urn::TagMap, from: int)
    requires
        0 <= from <= streams.len(),
    ensures
        from <= stream_index(streams, urn, from) <= streams.len(),
        stream_index(streams, urn, from) < streams.len() ==> streams[stream_index(
            streams,
            urn,
            from,
        )].urn == urn && stream_urns(streams).contains(urn),
        stream_index(streams, urn, from) == streams.len() ==> forall|i: int|
            from <= i < streams.len() ==> #[trigger] stream_urns(streams)[i] != urn,
    decreases streams.len() - from,
{
    if from < streams.len() {
        if streams[from].urn == urn {
            assert(stream_urns(streams)[from] == urn);
        } else {
            lemma_stream_index(streams, urn, from + 1);
        }
    }
}

proof fn lemma_contains_either(a: Seq<urn::TagMap>, b: Seq<urn::TagMap>, x: urn::TagMap)
    ensures
        (a + b).contains(x) == (a.contains(x) || b.contains(x)),
{
    if a.contains(x) {
        let i = choose|i: int| 0 <= i < a.len() && a[i] == x;
        assert((a + b)[i] == x);
    }
    if b.contains(x) {
        let i = choose|i: int| 0 <= i < b.len() && b[i] == x;
        assert((a + b)[a.len() + i] == x);
    }
}

proof fn lemma_edge_fault_stays(edges: Seq<ResolvedEdge>, k: int, ctx: ExecutionContext)
    requires
        0 <= k <= edges.len(),
        edge_streams(edges.take(k), ctx) is Err,
    ensures
        edge_streams(edges, ctx) == edge_streams(edges.take(k), ctx),
    decreases edges.len() - k,
{
    if k < edges.len() {
        assert(edges.take(k + 1).drop_last() =~= edges.take(k));
        lemma_edge_fault_stays(edges, k + 1, ctx);
    } else {
        assert(edges.take(k) =~= edges);
    }
}

proof fn lemma_arg_fault_stays(
    seen: Seq<urn::TagMap>,
    args: Seq<(String, Vec<u8>)>,
    k: int,
    cap_urn: Seq<char>,
)
    requires
        0 <= k <= args.len(),
        urns_with_args(seen, args.take(k), cap_urn) is Err,
    ensures
        urns_with_args(seen, args, cap_urn) == urns_with_args(seen, args.take(k), cap_urn),
    decreases args.len() - k,
{
    if k < args.len() {
        assert(args.take(k + 1).drop_last() =~= args.take(k));
        lemma_arg_fault_stays(seen, args, k + 1, cap_urn);
    } else {
        assert(args.take(k) =~= args);
    }
}

/// No two streams of an invocation carry the same URN, and none is empty.
pub proof fn one_stream_per_urn(edges: Seq<ResolvedEdge>, ctx: ExecutionContext)
    requires
        edge_streams(edges, ctx) is Ok,
    ensures
        stream_urns(edge_streams(edges, ctx)->Ok_0).no_duplicates(),
        forall|i: int|
            0 <= i < edge_streams(edges, ctx)->Ok_0.len() ==> (#[trigger] edge_streams(
                edges,
                ctx,
            )->Ok_0[i]).members.len() > 0,
    decreases edges.len(),
{
    if edges.len() > 0 {
        let before = edge_streams(edges.drop_last(), ctx)->Ok_0;
        let after = edge_streams(edges, ctx)->Ok_0;
        let e = edges.last();
        one_stream_per_urn(edges.drop_last(), ctx);
        let label = if ctx.node_live_reference@.contains_key(e.from@) {
            ctx.node_live_reference@[e.from@]@
        } else {
            e.in_media@
        };
        let tags = urn::media_parsed(label)->Ok_0;
        lemma_stream_index(before, tags, 0);
        if stream_index(before, tags, 0) < before.len() {
            assert(stream_urns(after) =~= stream_urns(before));
        } else {
            assert(stream_urns(after) =~= stream_urns(before).push(tags));
        }
    }
}

/// An extra argument never shares the URN of an input stream or of another
/// extra argument.
pub proof fn extra_arguments_are_distinct(
    seen: Seq<urn::TagMap>,
    args: Seq<(String, Vec<u8>)>,
    cap_urn: Seq<char>,
)
    requires
        seen.no_duplicates(),
        urns_with_args(seen, args, cap_urn) is Ok,
    ensures
        urns_with_args(seen, args, cap_urn)->Ok_0.no_duplicates(),
        urns_with_args(seen, args, cap_urn)->Ok_0.len() == seen.len() + args.len(),
    decreases args.len(),
{
    if args.len() > 0 {
        extra_arguments_are_distinct(seen, args.drop_last(), cap_urn);
    }
}

/// Whether a payload is where its member says.
pub open spec fn available(m: MemberView, ctx: ExecutionContext) -> bool {
    if m.1 {
        ctx.node_spool@.contains_key(m.0)
    } else {
        ctx.node_data@.contains_key(m.0)
    }
}

/// Whether all payloads of a stream are there.
pub open spec fn has_data(stream: StreamView, ctx: ExecutionContext) -> bool {
    forall|j: int| 0 <= j < stream.members.len() ==> available(#[trigger] stream.members[j], ctx)
}

/// Every payload of every stream is there.
pub proof fn streams_have_their_data(edges: Seq<ResolvedEdge>, ctx: ExecutionContext)
    requires
        edge_streams(edges, ctx) is Ok,
    ensures
        forall|i: int|
            0 <= i < edge_streams(edges, ctx)->Ok_0.len() ==> has_data(
                #[trigger] edge_streams(edges, ctx)->Ok_0[i],
                ctx,
            ),
    decreases edges.len(),
{
    if edges.len() > 0 {
        let before = edge_streams(edges.drop_last(), ctx)->Ok_0;
        let after = edge_streams(edges, ctx)->Ok_0;
        let node = edges.last().from@;
        let member = (
            node,
            ctx.node_spool@.contains_key(node),
            ctx.node_is_sequence@[node],
        );
        streams_have_their_data(edges.drop_last(), ctx);
        lemma_stream_index(before, urn::media_parsed(edges.last().in_media@)->Ok_0, 0);
        assert(available(member, ctx));
        assert forall|i: int| 0 <= i < after.len() implies has_data(#[trigger] after[i], ctx) by {
            if i < before.len() {
                assert(has_data(before[i], ctx));
                assert forall|j: int| 0 <= j < after[i].members.len() implies available(
                    #[trigger] after[i].members[j],
                    ctx,
                ) by {
                    if j < before[i].members.len() {
                        assert(available(before[i].members[j], ctx));
                        assert(after[i].members[j] == before[i].members[j]);
                    } else {
                        assert(after[i].members[j] == member);
                    }
                }
            }
        }
    }
}

/// How many payloads the streams carry.
pub open spec fn member_count(streams: Seq<StreamView>) -> nat
    decreases streams.len(),
{
    if streams.len() == 0 {
        0
    } else {
        member_count(streams.drop_last()) + streams.last().members.len()
    }
}

proof fn lemma_member_count_update(streams: Seq<StreamView>, i: int, m: MemberView)
    requires
        0 <= i < streams.len(),
    ensures
        member_count(streams.update(i, with_member(streams[i], m))) == member_count(streams) + 1,
    decreases streams.len(),
{
    let after = streams.update(i, with_member(streams[i], m));
    if i == streams.len() - 1 {
        assert(after.drop_last() =~= streams.drop_last());
    } else {
        lemma_member_count_update(streams.drop_last(), i, m);
        assert(after.drop_last() =~= streams.drop_last().update(
            i,
            with_member(streams.drop_last()[i], m),
        ));
    }
}

/// No edge's payload is dropped or doubled: the streams carry as many payloads
/// as the invocation has edges.
pub proof fn every_edge_is_sent_once(edges: Seq<ResolvedEdge>, ctx: ExecutionContext)
    requires
        edge_streams(edges, ctx) is Ok,
    ensures
        member_count(edge_streams(edges, ctx)->Ok_0) == edges.len(),
    decreases edges.len(),
{
    if edges.len() > 0 {
        let before = edge_streams(edges.drop_last(), ctx)->Ok_0;
        let after = edge_streams(edges, ctx)->Ok_0;
        let e = edges.last();
        every_edge_is_sent_once(edges.drop_last(), ctx);
        let node = e.from@;
        let live = ctx.node_live_reference@.contains_key(node);
        let tags = urn::media_parsed(e.in_media@)->Ok_0;
        let i = stream_index(before, tags, 0);
        lemma_stream_index(before, tags, 0);
        if !live && i < before.len() {
            let m = (node, ctx.node_spool@.contains_key(node), ctx.node_is_sequence@[node]);
            lemma_member_count_update(before, i, m);
        } else {
            assert(after.drop_last() =~= before);
        }
    }
}

// ---------------------------------------------------------------------------
// Delivery of one stream
// ---------------------------------------------------------------------------
/// How one input stream goes out.
#[derive(Debug, Clone, Copy, PartialEq, Eq, Structural)]
pub enum StreamDelivery {
    /// The one payload, as it is.
    Single,
    /// All payloads, gathered into one sequence.
    Gather,
}

/// Whether an argument's stream carries the given URN.
pub open spec fn arg_takes(arg: crate::cap::CapArg, urn: urn::TagMap) -> bool {
    urn::media_parsed(crate::cap::stream_urn_of(arg)) == Ok::<urn::TagMap, urn::UrnFault>(urn)
}

/// The first argument at or after `from` whose stream carries the URN, or the
/// number of arguments where there is none.
pub open spec fn taking_arg(args: Seq<crate::cap::CapArg>, urn: urn::TagMap, from: int) -> int
    decreases args.len() - from,
{
    if from >= args.len() {
        args.len() as int
    } else if arg_takes(args[from], urn) {
        from
    } else {
        taking_arg(args, urn, from + 1)
    }
}

/// How a stream goes out, or why it may not: only a sequence argument gathers.
pub open spec fn delivery(stream: StreamView, cap_urn: Seq<char>, cap: Cap) -> Result<
    StreamDelivery,
    Seq<char>,
> {
    let n = stream.members.len();
    let i = taking_arg(cap.args@, stream.urn, 0);
    if n == 1 {
        Ok(StreamDelivery::Single)
    } else if i >= cap.args@.len() {
        Err(undeclared_gather_text(cap_urn, n, stream.label))
    } else if !cap.args@[i].is_sequence {
        Err(scalar_gather_text(cap_urn, n, stream.label))
    } else {
        Ok(StreamDelivery::Gather)
    }
}

/// What a member contributes to a gather.
pub open spec fn gathers(g: GatherMember, m: MemberView, ctx: ExecutionContext) -> bool {
    match g {
        GatherMember::Spooled { path, is_sequence } => m.1 && path@ == ctx.node_spool@[m.0]@
            && is_sequence == m.2,
        GatherMember::Memory { data, is_sequence } => !m.1 && data@ == ctx.node_data@[m.0]@
            && is_sequence == m.2,
    }
}

impl InputStream {
    /// How the stream goes out. Several payloads are legal only on an argument
    /// that declares a sequence: a scalar argument receiving two streams (the
    /// illegal "two stdins" case) is a malformed graph — fail hard, never
    /// silently double-send.
    pub fn delivery(&self, cap_urn: &str, cap: &Cap) -> (r: Result<
        StreamDelivery,
        ExecutionError,
    >)
        ensures
            match delivery(self@, cap_urn@, *cap) {
                Ok(d) => r is Ok && r->Ok_0 == d,
                Err(text) => r is Err && spool::host_error(r->Err_0, text),
            },
    {
        let n: usize = self.members.len();
        if n == 1 {
            return Ok(StreamDelivery::Single);
        }
        let mut i: usize = 0;
        while i < cap.args.len()
            invariant
                i <= cap.args@.len(),
                n == self.members@.len(),
                n != 1,
                taking_arg(cap.args@, self.urn@, 0) == taking_arg(cap.args@, self.urn@, i as int),
            decreases cap.args@.len() - i,
        {
            if denotes(cap.args[i].stream_urn(), &self.urn) {
                if cap.args[i].is_sequence {
                    return Ok(StreamDelivery::Gather);
                }
                return Err(
                    ExecutionError::HostError(
                        "cap '".to_owned().concat(cap_urn).concat("' receives ").concat(
                            decimal_usize(n).as_str(),
                        ).concat(" input streams with the same arg URN '").concat(
                            self.label.as_str(),
                        ).concat(
                            "', but that arg is not a sequence arg; each scalar input must carry a distinct arg URN — a cap has one main input, and convergence args have distinct URNs",
                        ),
                    ),
                );
            }
            i = i + 1;
        }
        Err(
            ExecutionError::HostError(
                "cap '".to_owned().concat(cap_urn).concat("' receives ").concat(
                    decimal_usize(n).as_str(),
                ).concat(" input streams on arg URN '").concat(self.label.as_str()).concat(
                    "', but no cap arg declares that stream URN — malformed graph",
                ),
            ),
        )
    }

    /// The payloads to gather, in edge order: a spooled one by its path — a
    /// gather never re-buffers an unbounded stream into memory — and any other
    /// by its bytes.
    pub fn gather_members(&self, ctx: &ExecutionContext) -> (r: Vec<GatherMember>)
        requires
            has_data(self@, *ctx),
        ensures
            r@.len() == self.members@.len(),
            forall|i: int|
                0 <= i < r@.len() ==> gathers(#[trigger] r@[i], self.members@[i]@, *ctx),
    {
        let mut r: Vec<GatherMember> = Vec::new();
        let mut i: usize = 0;
        while i < self.members.len()
            invariant
                i <= self.members@.len(),
                r@.len() == i,
                forall|j: int|
                    0 <= j < i ==> gathers(#[trigger] r@[j], self.members@[j]@, *ctx),
                has_data(self@, *ctx),
            decreases self.members@.len() - i,
        {
            assert(available(self@.members[i as int], *ctx));
            let m = &self.members[i];
            if m.spooled {
                if let Some(path) = ctx.node_spool.get(m.node.as_str()) {
                    r.push(
                        GatherMember::Spooled { path: path.clone(), is_sequence: m.is_sequence },
                    );
                }
            } else if let Some(data) = ctx.node_data.get(m.node.as_str()) {
                r.push(
                    GatherMember::Memory { data: clone_bytes(data), is_sequence: m.is_sequence },
                );
            }
            i = i + 1;
        }
        r
    }
}

// ---------------------------------------------------------------------------
// Delivery of an invocation's whole input
// ---------------------------------------------------------------------------
/// One input stream, ready to be sent.
pub enum PreparedStream {
    /// Data in memory, as one stream.
    Memory { label: String, data: Vec<u8>, meta: Option<StreamMeta>, is_sequence: bool },
    /// A spooled file, as one stream.
    Spool { label: String, path: String, meta: Option<StreamMeta>, is_sequence: bool },
    /// Several payloads, as one sequence stream.
    Gather { label: String, members: Vec<GatherMember> },
}

/// The streams to send, in order, and the failure behind them, if there is one:
/// END follows where there is none.
pub struct PreparedInput {
    pub streams: Vec<PreparedStream>,
    pub failure: Option<ExecutionError>,
}

/// The provenance metadata of a node.
pub open spec fn meta_at(ctx: ExecutionContext, node: Seq<char>) -> Option<Seq<u8>> {
    if ctx.node_meta@.contains_key(node) {
        Some(ctx.node_meta@[node]@)
    } else {
        None
    }
}

/// Whether `p` sends the payloads of a stream: a single one as it is, with its
/// node's metadata, several gathered in edge order.
pub open spec fn prepared_as(p: PreparedStream, s: StreamView, ctx: ExecutionContext) -> bool {
    let (node, spooled, sequence) = s.members[0];
    match p {
        PreparedStream::Memory { label, data, meta, is_sequence } => {
            &&& s.members.len() == 1
            &&& !spooled
            &&& label@ == s.label
            &&& data@ == ctx.node_data@[node]@
            &&& frame::meta_view(meta) == meta_at(ctx, node)
            &&& is_sequence == sequence
        },
        PreparedStream::Spool { label, path, meta, is_sequence } => {
            &&& s.members.len() == 1
            &&& spooled
            &&& label@ == s.label
            &&& path@ == ctx.node_spool@[node]@
            &&& frame::meta_view(meta) == meta_at(ctx, node)
            &&& is_sequence == sequence
        },
        PreparedStream::Gather { label, members } => {
            &&& s.members.len() != 1
            &&& label@ == s.label
            &&& members@.len() == s.members.len()
            &&& forall|i: int|
                0 <= i < members@.len() ==> gathers(#[trigger] members@[i], s.members[i], ctx)
        },
    }
}

/// Whether `p` sends an extra argument: its bytes, as one scalar stream.
pub open spec fn sends_argument(p: PreparedStream, arg: (String, Vec<u8>)) -> bool {
    p matches PreparedStream::Memory { label, data, meta, is_sequence } && label@ == arg.0@
        && data@ == arg.1@ && meta is None && !is_sequence
}

/// The first stream at or after `from` that may not go out, or the number of
/// streams where all may.
pub open spec fn first_refused(
    streams: Seq<StreamView>,
    cap_urn: Seq<char>,
    cap: Cap,
    from: int,
) -> int
    decreases streams.len() - from,
{
    if from >= streams.len() {
        streams.len() as int
    } else if delivery(streams[from], cap_urn, cap) is Err {
        from
    } else {
        first_refused(streams, cap_urn, cap, from + 1)
    }
}

/// Whether an input is prepared: the streams of the edges up to one that may
/// not go out, or all of them and then the extra arguments.
pub open spec fn input_prepared(
    p: PreparedInput,
    streams: Seq<StreamView>,
    group: EdgeGroup,
    args: Seq<(String, Vec<u8>)>,
    ctx: ExecutionContext,
) -> bool {
    let cap = group.edges@[0].cap;
    let k = first_refused(streams, group.cap_urn@, cap, 0);
    &&& forall|i: int|
        0 <= i < k && i < streams.len() ==> prepared_as(#[trigger] p.streams@[i], streams[i], ctx)
    &&& if k < streams.len() {
        &&& p.streams@.len() == k
        &&& p.failure is Some
        &&& delivery(streams[k], group.cap_urn@, cap) is Err
        &&& spool::host_error(
            p.failure->Some_0,
            delivery(streams[k], group.cap_urn@, cap)->Err_0,
        )
    } else {
        &&& p.streams@.len() == streams.len() + args.len()
        &&& p.failure is None
        &&& forall|j: int|
            0 <= j < args.len() ==> sends_argument(
                #[trigger] p.streams@[streams.len() + j],
                args[j],
            )
    }
}

fn prepare_stream(stream: InputStream, how: StreamDelivery, ctx: &ExecutionContext) -> (p:
    PreparedStream)
    requires
        has_data(stream@, *ctx),
        how is Single <==> stream.members@.len() == 1,
    ensures
        prepared_as(p, stream@, *ctx),
{
    let members = match how {
        StreamDelivery::Gather => stream.gather_members(ctx),
        StreamDelivery::Single => Vec::new(),
    };
    match how {
        StreamDelivery::Gather => {
            assert forall|i: int| 0 <= i < members@.len() implies gathers(
                #[trigger] members@[i],
                stream@.members[i],
                *ctx,
            ) by {
                assert(gathers(members@[i], stream.members@[i]@, *ctx));
            }
            PreparedStream::Gather { label: stream.label, members }
        },
        StreamDelivery::Single => {
            assert(available(stream@.members[0], *ctx));
            let m = &stream.members[0];
            let meta = match ctx.node_meta.get(m.node.as_str()) {
                Some(x) => Some(StreamMeta { encoded: clone_bytes(&x.encoded) }),
                None => None,
            };
            let is_sequence: bool = m.is_sequence;
            if m.spooled {
                let path = match ctx.node_spool.get(m.node.as_str()) {
                    Some(p) => p.clone(),
                    None => String::new(),
                };
                PreparedStream::Spool { label: stream.label.clone(), path, meta, is_sequence }
            } else {
                let data = match ctx.node_data.get(m.node.as_str()) {
                    Some(d) => clone_bytes(d),
                    None => Vec::new(),
                };
                PreparedStream::Memory { label: stream.label.clone(), data, meta, is_sequence }
            }
        },
    }
}

/// Prepare everything that an invocation is fed from the node data: one stream
/// per distinct URN of its edges, then the extra argument streams. A stream
/// that may not go out fails behind those before it.
pub fn prepare_group_input(
    group: &EdgeGroup,
    extra_args: &Vec<(String, Vec<u8>)>,
    ctx: &ExecutionContext,
) -> (r: Result<PreparedInput, ExecutionError>)
    requires
        group.edges@.len() > 0,
    ensures
        match input_streams(*group, extra_args@, *ctx) {
            Ok(streams) => r is Ok && input_prepared(
                r->Ok_0,
                streams,
                *group,
                extra_args@,
                *ctx,
            ),
            Err(text) => r is Err && spool::host_error(r->Err_0, text),
        },
{
    let planned = match plan_group_input(group, extra_args, ctx) {
        Ok(s) => s,
        Err(e) => {
            return Err(e);
        },
    };
    let cap = &group.edges[0].cap;
    let cap_urn = group.cap_urn.as_str();
    let ghost views = stream_views(planned@);
    let n: usize = planned.len();
    let mut rest = planned;
    let mut streams: Vec<PreparedStream> = Vec::new();
    let ghost mut k: int = 0;
    proof {
        assert(stream_views(rest@) =~= views.skip(0));
    }
    while rest.len() > 0
        invariant
            0 <= k <= views.len(),
            views.len() == n,
            stream_views(rest@) == views.skip(k),
            input_streams(*group, extra_args@, *ctx) == Ok::<Seq<StreamView>, Seq<char>>(views),
            group.edges@.len() > 0,
            *cap == group.edges@[0].cap,
            cap_urn@ == group.cap_urn@,
            first_refused(views, group.cap_urn@, *cap, 0) == first_refused(
                views,
                group.cap_urn@,
                *cap,
                k,
            ),
            streams@.len() == k,
            forall|i: int|
                0 <= i < k ==> prepared_as(#[trigger] streams@[i], views[i], *ctx),
            forall|i: int| 0 <= i < rest@.len() ==> has_data((#[trigger] rest@[i])@, *ctx),
        decreases rest@.len(),
    {
        let ghost ahead = rest@;
        let stream = rest.remove(0);
        proof {
            let all = stream_views(ahead);
            assert(all == views.skip(k));
            assert(all.len() == ahead.len());
            assert(all[0] == ahead[0]@);
            assert(views[k] == stream@);
            assert(has_data(ahead[0]@, *ctx));
            assert forall|j: int| 0 <= j < rest@.len() implies #[trigger] stream_views(rest@)[j]
                == views.skip(k + 1)[j] by {
                assert(rest@[j] == ahead[j + 1]);
                assert(all[j + 1] == views.skip(k)[j + 1]);
            }
            assert(stream_views(rest@) =~= views.skip(k + 1));
            assert forall|j: int| 0 <= j < rest@.len() implies has_data(
                (#[trigger] rest@[j])@,
                *ctx,
            ) by {
                assert(rest@[j] == ahead[j + 1]);
                assert(has_data(ahead[j + 1]@, *ctx));
            }
        }
        let how = match stream.delivery(cap_urn, cap) {
            Ok(d) => d,
            Err(e) => {
                assert(first_refused(views, group.cap_urn@, *cap, k) == k);
                return Ok(PreparedInput { streams, failure: Some(e) });
            },
        };
        let ghost before = streams@;
        streams.push(prepare_stream(stream, how, ctx));
        proof {
            assert forall|i: int| 0 <= i < k + 1 implies prepared_as(
                #[trigger] streams@[i],
                views[i],
                *ctx,
            ) by {
                if i < k {
                    assert(streams@[i] == before[i]);
                }
            }
            k = k + 1;
        }
    }
    assert(k == views.len()) by {
        assert(views.skip(k).len() == 0);
    }
    let mut a: usize = 0;
    let ghost fed = streams@;
    while a < extra_args.len()
        invariant
            a <= extra_args@.len(),
            fed.len() == views.len(),
            streams@.len() == fed.len() + a,
            forall|i: int| 0 <= i < fed.len() ==> #[trigger] streams@[i] == fed[i],
            forall|j: int|
                0 <= j < a ==> sends_argument(
                    #[trigger] streams@[views.len() + j],
                    extra_args@[j],
                ),
        decreases extra_args@.len() - a,
    {
        let ghost before = streams@;
        streams.push(
            PreparedStream::Memory {
                label: extra_args[a].0.clone(),
                data: clone_bytes(&extra_args[a].1),
                meta: None,
                is_sequence: false,
            },
        );
        proof {
            assert forall|j: int| 0 <= j < a + 1 implies sends_argument(
                #[trigger] streams@[views.len() + j],
                extra_args@[j],
            ) by {
                if j < a {
                    assert(streams@[views.len() + j] == before[views.len() + j]);
                }
            }
            assert forall|i: int| 0 <= i < fed.len() implies #[trigger] streams@[i] == fed[i] by {
                assert(streams@[i] == before[i]);
            }
        }
        a = a + 1;
    }
    Ok(PreparedInput { streams, failure: None })
}

// ---------------------------------------------------------------------------
// Which edges a stream gathers
// ---------------------------------------------------------------------------
/// What an edge sends under a URN, if it does: its node, whether that is spooled,
/// and whether it is a sequence. An edge from a live source is sent under the
/// source's reference, as a scalar; any other under its input URN.
pub open spec fn sent_under(e: ResolvedEdge, ctx: ExecutionContext, u: urn::TagMap) -> Option<
    MemberView,
> {
    let live = ctx.node_live_reference@.contains_key(e.from@);
    let label = if live {
        ctx.node_live_reference@[e.from@]@
    } else {
        e.in_media@
    };
    if urn::media_parsed(label) == Ok::<urn::TagMap, urn::UrnFault>(u) {
        Some(
            (
                e.from@,
                ctx.node_spool@.contains_key(e.from@),
                !live && ctx.node_is_sequence@[e.from@],
            ),
        )
    } else {
        None
    }
}

/// A stream carries every edge that is sent under its URN, in edge order, and no
/// other; a URN that some edge is sent under has a stream.
pub proof fn a_stream_carries_the_edges_of_its_urn(
    edges: Seq<ResolvedEdge>,
    ctx: ExecutionContext,
    u: urn::TagMap,
)
    requires
        edge_streams(edges, ctx) is Ok,
    ensures
        ({
            let streams = edge_streams(edges, ctx)->Ok_0;
            let sent = edges.filter_map(|e: ResolvedEdge| sent_under(e, ctx, u));
            &&& forall|i: int|
                0 <= i < streams.len() && (#[trigger] streams[i]).urn == u ==> streams[i].members
                    == sent
            &&& sent.len() > 0 <==> exists|i: int|
                0 <= i < streams.len() && (#[trigger] streams[i]).urn == u
        }),
    decreases edges.len(),
{
    let sends = |e: ResolvedEdge| sent_under(e, ctx, u);
    one_stream_per_urn(edges, ctx);
    let streams = edge_streams(edges, ctx)->Ok_0;
    if edges.len() > 0 {
        let short = edges.drop_last();
        let before = edge_streams(short, ctx)->Ok_0;
        let e = edges.last();
        one_stream_per_urn(short, ctx);
        a_stream_carries_the_edges_of_its_urn(short, ctx, u);
        let had = short.filter_map(sends);
        let sent = edges.filter_map(sends);
        let live = ctx.node_live_reference@.contains_key(e.from@);
        let label = if live {
            ctx.node_live_reference@[e.from@]@
        } else {
            e.in_media@
        };
        let tags = urn::media_parsed(label)->Ok_0;
        let at = stream_index(before, tags, 0);
        lemma_stream_index(before, tags, 0);
        lemma_no_stream_before(before, tags, 0);
        assert forall|i: int|
            0 <= i < streams.len() && (#[trigger] streams[i]).urn == u implies streams[i].members
            == sent by {
            assert(stream_urns(streams)[i] == u);
            if i < before.len() {
                assert(before[i].urn == u);
                assert(before[i].members == had);
                if tags == u {
                    assert(stream_urns(before)[i] == tags);
                    assert(stream_urns(before)[at] == tags);
                    assert(at == i);
                    assert(streams[i].members =~= sent);
                }
            } else {
                assert(had.len() == 0) by {
                    if had.len() > 0 {
                        let x = choose|x: int| 0 <= x < before.len() && (#[trigger] before[x]).urn
                            == u;
                        assert(before[x].urn != tags);
                    }
                }
                assert(streams[i].members =~= sent);
            }
        }
        if sent.len() > 0 {
            if tags == u {
                let i = if at < before.len() {
                    at
                } else {
                    before.len() as int
                };
                assert(streams[i].urn == u);
            } else {
                let x = choose|x: int| 0 <= x < before.len() && (#[trigger] before[x]).urn == u;
                assert(streams[x].urn == u);
            }
        }
        if exists|i: int| 0 <= i < streams.len() && (#[trigger] streams[i]).urn == u {
            let i = choose|i: int| 0 <= i < streams.len() && (#[trigger] streams[i]).urn == u;
            assert(streams[i].members.len() > 0);
        }
    }
}

proof fn lemma_no_stream_before(streams: Seq<StreamView>, u: urn::TagMap, from: int)
    requires
        0 <= from <= streams.len(),
    ensures
        forall|x: int|
            from <= x < stream_index(streams, u, from) ==> (#[trigger] streams[x]).urn != u,
    decreases streams.len() - from,
{
    if from < streams.len() && streams[from].urn != u {
        lemma_no_stream_before(streams, u, from + 1);
    }
}

/// Several nodes are gathered into one argument only where the first argument
/// that is streamed under that URN takes a sequence; one node alone is always
/// delivered as it is.
pub proof fn only_a_sequence_argument_gathers(
    stream: StreamView,
    cap_urn: Seq<char>,
    cap: Cap,
    i: int,
)
    requires
        0 <= i <= cap.args@.len(),
        i < cap.args@.len() ==> urn::media_parsed(crate::cap::stream_urn_of(cap.args@[i])) == Ok::<
            urn::TagMap,
            urn::UrnFault,
        >(stream.urn),
        forall|j: int|
            0 <= j < i ==> urn::media_parsed(
                crate::cap::stream_urn_of(#[trigger] cap.args@[j]),
            ) != Ok::<urn::TagMap, urn::UrnFault>(stream.urn),
    ensures
        delivery(stream, cap_urn, cap) == Ok::<StreamDelivery, Seq<char>>(StreamDelivery::Single)
            <==> stream.members.len() == 1,
        stream.members.len() != 1 ==> (delivery(stream, cap_urn, cap) == Ok::<
            StreamDelivery,
            Seq<char>,
        >(StreamDelivery::Gather) <==> i < cap.args@.len() && cap.args@[i].is_sequence),
        stream.members.len() != 1 && (i == cap.args@.len() || !cap.args@[i].is_sequence)
            ==> delivery(stream, cap_urn, cap) is Err,
{
    lemma_taking_arg_is(cap.args@, stream.urn, 0, i);
}

proof fn lemma_taking_arg_is(
    args: Seq<crate::cap::CapArg>,
    u: urn::TagMap,
    from: int,
    i: int,
)
    requires
        0 <= from <= i <= args.len(),
        i < args.len() ==> arg_takes(args[i], u),
        forall|j: int| from <= j < i ==> !arg_takes(#[trigger] args[j], u),
    ensures
        taking_arg(args, u, from) == i,
    decreases i - from,
{
    if from < i {
        assert(!arg_takes(args[from], u));
        lemma_taking_arg_is(args, u, from + 1, i);
    }
}

/// Extra arguments are told apart from the edges' streams and from each other by
/// their tags: a label is refused exactly if it is no media URN, or one that is
/// already taken.
pub proof fn extra_arguments_are_listed(
    seen: Seq<urn::TagMap>,
    args: Seq<(String, Vec<u8>)>,
    cap_urn: Seq<char>,
    i: int,
)
    requires
        urns_with_args(seen, args, cap_urn) is Ok,
        0 <= i < args.len(),
    ensures
        urn::media_parsed(args[i].0@) == Ok::<urn::TagMap, urn::UrnFault>(
            urns_with_args(seen, args, cap_urn)->Ok_0[seen.len() + i],
        ),
        urns_with_args(seen, args, cap_urn)->Ok_0.len() == seen.len() + args.len(),
        urns_with_args(seen, args, cap_urn)->Ok_0.take(seen.len() as int) == seen,
    decreases args.len(),
{
    let short = args.drop_last();
    let all = urns_with_args(seen, args, cap_urn)->Ok_0;
    let before = urns_with_args(seen, short, cap_urn)->Ok_0;
    assert(all.drop_last() =~= before);
    if short.len() > 0 {
        let j = if i < short.len() {
            i
        } else {
            0
        };
        extra_arguments_are_listed(seen, short, cap_urn, j);
        assert(all.take(seen.len() as int) =~= before.take(seen.len() as int));
    } else {
        assert(before == seen);
        assert(all.take(seen.len() as int) =~= seen);
    }
}

/// A stream with one member is sent as that node's data or spool, under its
/// label, metadata and cardinality; one with several gathers every member, in
/// order, each from where its data is.
pub proof fn a_prepared_stream_has_its_nodes_data(
    p: PreparedStream,
    s: StreamView,
    ctx: ExecutionContext,
    i: int,
)
    requires
        prepared_as(p, s, ctx),
        0 <= i < s.members.len(),
    ensures
        p is Gather <==> s.members.len() != 1,
        s.members.len() == 1 && !s.members[0].1 ==> p is Memory && p->Memory_label@ == s.label
            && p->Memory_data@ == ctx.node_data@[s.members[0].0]@ && p->Memory_is_sequence
            == s.members[0].2,
        s.members.len() == 1 && s.members[0].1 ==> p is Spool && p->Spool_label@ == s.label
            && p->Spool_path@ == ctx.node_spool@[s.members[0].0]@ && p->Spool_is_sequence
            == s.members[0].2,
        s.members.len() != 1 ==> p->Gather_label@ == s.label && p->Gather_members@.len()
            == s.members.len() && (if s.members[i].1 {
            p->Gather_members@[i] is Spooled && p->Gather_members@[i]->path@
                == ctx.node_spool@[s.members[i].0]@ && p->Gather_members@[i]->Spooled_is_sequence
                == s.members[i].2
        } else {
            p->Gather_members@[i] is Memory && p->Gather_members@[i]->data@
                == ctx.node_data@[s.members[i].0]@ && p->Gather_members@[i]->Memory_is_sequence
                == s.members[i].2
        }),
{
    if s.members.len() != 1 {
        assert(gathers(p->Gather_members@[i], s.members[i], ctx));
    }
}

} // verus!
