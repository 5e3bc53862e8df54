//! Edge groups: the cap invocations of a resolved graph, their order and their
//! decomposition into live chains.
//!
//! Edges that share the same destination and cap URN are ONE invocation with
//! several input streams (fan-in). Groups are ordered topologically and cut
//! into maximal linear chains: frames stream cap-to-cap inside a chain, and
//! every non-linear junction is materialised between chains.

use crate::cap::Cap;
use crate::executor_error::ExecutionError;
use crate::failure::AttributionClass;
use crate::plan::StepToken;
use crate::table::Table;
use crate::text;
use crate::text::{parse_u64_bounded, same};
use vstd::prelude::*;
use vstd::string::*;

verus! {

/// One edge of a resolved graph: a node's data feeds an argument of the cap
/// that produces another node.
pub struct ResolvedEdge {
    pub token_id: StepToken,
    pub from: String,
    pub to: String,
    pub cap_urn: String,
    pub cap: Cap,
    /// The URN that the consuming argument's stream is labeled with.
    pub in_media: String,
    pub out_media: String,
}

/// A resolved graph: the media of its nodes and its edges.
pub struct ResolvedGraph {
    pub nodes: Table<String>,
    pub edges: Vec<ResolvedEdge>,
    pub graph_name: Option<String>,
}

/// A group of edges that share the same `(to, cap_urn)`.
///
/// Single-edge groups are standard single-input cap invocations.
/// Multi-edge groups are fan-in: all edges' inputs are sent as separate streams
/// in ONE cap invocation so the handler can consume them together.
pub struct EdgeGroup {
    /// Destination node (same for all edges in the group)
    pub to: String,
    /// Cap URN (same for all edges in the group)
    pub cap_urn: String,
    /// Stable per-step identity of this cap invocation.
    pub token_id: StepToken,
    /// All edges in this group (one or more)
    pub edges: Vec<ResolvedEdge>,
}

// ---------------------------------------------------------------------------
// Grouping
// ---------------------------------------------------------------------------
/// What makes edges one invocation: destination and cap URN.
pub type GroupKey = (Seq<char>, Seq<char>);

pub open spec fn edge_key(e: ResolvedEdge) -> GroupKey {
    (e.to@, e.cap_urn@)
}

pub open spec fn group_key(g: EdgeGroup) -> GroupKey {
    (g.to@, g.cap_urn@)
}

pub open spec fn group_keys(groups: Seq<EdgeGroup>) -> Seq<GroupKey> {
    Seq::new(groups.len(), |i: int| group_key(groups[i]))
}

/// The keys of edges, each at its first occurrence.
pub open spec fn first_keys(edges: Seq<ResolvedEdge>) -> Seq<GroupKey>
    decreases edges.len(),
{
    if edges.len() == 0 {
        Seq::empty()
    } else {
        let before = first_keys(edges.drop_last());
        if before.contains(edge_key(edges.last())) {
            before
        } else {
            before.push(edge_key(edges.last()))
        }
    }
}

/// The edges with a given key, in order.
pub open spec fn edges_with(edges: Seq<ResolvedEdge>, key: GroupKey) -> Seq<ResolvedEdge>
    decreases edges.len(),
{
    if edges.len() == 0 {
        Seq::empty()
    } else {
        let before = edges_with(edges.drop_last(), key);
        if edge_key(edges.last()) == key {
            before.push(edges.last())
        } else {
            before
        }
    }
}

/// Whether `groups` are the invocations of `edges`: one per key, in the order
/// of first occurrence, each with the edges of its key in their order and the
/// identity of the first of them.
pub open spec fn grouped(edges: Seq<ResolvedEdge>, groups: Seq<EdgeGroup>) -> bool {
    &&& group_keys(groups) == first_keys(edges)
    &&& forall|i: int|
        0 <= i < groups.len() ==> {
            &&& (#[trigger] groups[i]).edges@ == edges_with(edges, group_key(groups[i]))
            &&& groups[i].edges@.len() > 0
            &&& groups[i].token_id == groups[i].edges@[0].token_id
        }
}

fn find_group(groups: &Vec<EdgeGroup>, to: &String, cap_urn: &String) -> (r: usize)
    ensures
        r <= groups@.len(),
        r < groups@.len() ==> group_key(groups@[r as int]) == (to@, cap_urn@),
        r == groups@.len() ==> !group_keys(groups@).contains((to@, cap_urn@)),
{
    let mut i: usize = 0;
    while i < groups.len()
        invariant
            i <= groups.len(),
            forall|j: int| 0 <= j < i ==> #[trigger] group_keys(groups@)[j] != (to@, cap_urn@),
        decreases groups.len() - i,
    {
        if same(groups[i].to.as_str(), to.as_str()) && same(
            groups[i].cap_urn.as_str(),
            cap_urn.as_str(),
        ) {
            return i;
        }
        i = i + 1;
    }
    i
}

/// Group DAG edges by `(to, cap_urn)`.
///
/// Edges that share the same destination node and cap URN form a fan-in group
/// and will be sent as multiple streams in a single cap invocation.
pub fn build_edge_groups(edges: Vec<ResolvedEdge>) -> (groups: Vec<EdgeGroup>)
    ensures
        grouped(edges@, groups@),
{
    let ghost all = edges@;
    let mut rest = edges;
    let mut groups: Vec<EdgeGroup> = Vec::new();
    let ghost mut k: int = 0;
    proof {
        assert(all.skip(0) =~= all);
        assert(all.take(0) =~= Seq::<ResolvedEdge>::empty());
        assert(group_keys(groups@) =~= first_keys(all.take(0)));
    }
    while rest.len() > 0
        invariant
            0 <= k <= all.len(),
            rest@ == all.skip(k),
            grouped(all.take(k), groups@),
        decreases rest.len(),
    {
        let ghost seen = all.take(k);
        let ghost more = all.take(k + 1);
        let edge = rest.remove(0);
        proof {
            assert(edge == all[k]);
            assert(rest@ =~= all.skip(k + 1));
            assert(more.drop_last() =~= seen);
            assert(more.last() == edge);
        }
        let ghost before = groups@;
        let at: usize = find_group(&groups, &edge.to, &edge.cap_urn);
        if at < groups.len() {
            groups[at].edges.push(edge);
            proof {
                assert(groups@ =~= before.update(at as int, groups@[at as int]));
                assert(group_keys(groups@) =~= group_keys(before));
                assert(group_keys(before)[at as int] == edge_key(edge));
                assert forall|i: int| 0 <= i < groups@.len() implies ({
                    &&& (#[trigger] groups@[i]).edges@ == edges_with(more, group_key(groups@[i]))
                    &&& groups@[i].edges@.len() > 0
                    &&& groups@[i].token_id == groups@[i].edges@[0].token_id
                }) by {
                    assert(before[i].edges@ == edges_with(seen, group_key(before[i])));
                    if i != at {
                        lemma_first_keys_distinct(seen);
                        assert(group_keys(before)[i] != group_keys(before)[at as int]);
                    }
                }
            }
        } else {
            let group = EdgeGroup {
                to: edge.to.clone(),
                cap_urn: edge.cap_urn.clone(),
                token_id: edge.token_id.clone(),
                edges: Vec::new(),
            };
            groups.push(group);
            groups[at].edges.push(edge);
            proof {
                assert(groups@.len() == before.len() + 1);
                assert(group_keys(groups@) =~= group_keys(before).push(edge_key(edge)));
                lemma_no_edges_without_key(seen, edge_key(edge));
                assert forall|i: int| 0 <= i < groups@.len() implies ({
                    &&& (#[trigger] groups@[i]).edges@ == edges_with(more, group_key(groups@[i]))
                    &&& groups@[i].edges@.len() > 0
                    &&& groups@[i].token_id == groups@[i].edges@[0].token_id
                }) by {
                    if i < before.len() {
                        assert(groups@[i] == before[i]);
                        assert(before[i].edges@ == edges_with(seen, group_key(before[i])));
                        assert(group_keys(before)[i] != edge_key(edge)) by {
                            if group_keys(before)[i] == edge_key(edge) {
                                assert(group_keys(before).contains(edge_key(edge)));
                            }
                        }
                    } else {
                        assert(groups@[i].edges@ =~= seq![edge]);
                        assert(edges_with(more, edge_key(edge)) =~= seq![edge]);
                    }
                }
            }
        }
        proof {
            k = k + 1;
        }
    }
    assert(all.take(k) =~= all);
    groups
}

proof fn lemma_first_keys_distinct(edges: Seq<ResolvedEdge>)
    ensures
        first_keys(edges).no_duplicates(),
    decreases edges.len(),
{
    if edges.len() > 0 {
        lemma_first_keys_distinct(edges.drop_last());
    }
}

proof fn lemma_no_edges_without_key(edges: Seq<ResolvedEdge>, key: GroupKey)
    requires
        !first_keys(edges).contains(key),
    ensures
        edges_with(edges, key).len() == 0,
    decreases edges.len(),
{
    if edges.len() > 0 {
        let before = first_keys(edges.drop_last());
        assert(!before.contains(key)) by {
            if before.contains(key) {
                let i = choose|i: int| 0 <= i < before.len() && before[i] == key;
                assert(first_keys(edges)[i] == key);
            }
        }
        lemma_no_edges_without_key(edges.drop_last(), key);
        assert(edge_key(edges.last()) != key) by {
            if edge_key(edges.last()) == key {
                assert(first_keys(edges).last() == key);
            }
        }
    }
}

/// Every edge belongs to exactly one group: the groups' keys are distinct, and
/// the key of every edge is the key of a group.
pub proof fn every_edge_is_in_one_group(edges: Seq<ResolvedEdge>, groups: Seq<EdgeGroup>, i: int)
    requires
        grouped(edges, groups),
        0 <= i < edges.len(),
    ensures
        group_keys(groups).no_duplicates(),
        group_keys(groups).contains(edge_key(edges[i])),
{
    lemma_first_keys_distinct(edges);
    lemma_key_is_kept(edges, i);
}

proof fn lemma_key_is_kept(edges: Seq<ResolvedEdge>, i: int)
    requires
        0 <= i < edges.len(),
    ensures
        first_keys(edges).contains(edge_key(edges[i])),
    decreases edges.len(),
{
    let keys = first_keys(edges);
    let before = first_keys(edges.drop_last());
    if i == edges.len() - 1 {
        if !before.contains(edge_key(edges.last())) {
            assert(keys[before.len() as int] == edge_key(edges.last()));
        }
    } else {
        lemma_key_is_kept(edges.drop_last(), i);
        assert(edges.drop_last()[i] == edges[i]);
        let j = choose|j: int| 0 <= j < before.len() && before[j] == edge_key(edges[i]);
        assert(keys[j] == edge_key(edges[i]));
    }
}

// ---------------------------------------------------------------------------
// Dependencies
// ---------------------------------------------------------------------------
/// Whether edge `e` of group `i` takes what group `d` produces.
pub open spec fn fed_by(groups: Seq<EdgeGroup>, i: int, e: int, d: int) -> bool {
    groups[i].edges@[e].from@ == groups[d].to@
}

/// Whether group `i` can only run once group `d` has: `d` is one of the groups
/// that produce the nodes which `i` takes its input from.
pub open spec fn depends(groups: Seq<EdgeGroup>, i: int, d: int) -> bool {
    &&& 0 <= i < groups.len()
    &&& 0 <= d < groups.len()
    &&& d != i
    &&& exists|e: int| 0 <= e < groups[i].edges@.len() && #[trigger] fed_by(groups, i, e, d)
}

/// Whether group `i` depends on group `d`.
fn does_depend(groups: &Vec<EdgeGroup>, i: usize, d: usize) -> (r: bool)
    requires
        i < groups@.len(),
        d < groups@.len(),
    ensures
        r == depends(groups@, i as int, d as int),
{
    if d == i {
        return false;
    }
    let mut e: usize = 0;
    while e < groups[i].edges.len()
        invariant
            i < groups@.len(),
            d < groups@.len(),
            d != i,
            e <= groups@[i as int].edges@.len(),
            forall|x: int| 0 <= x < e ==> !#[trigger] fed_by(groups@, i as int, x, d as int),
        decreases groups@[i as int].edges@.len() - e,
    {
        if same(groups[i].edges[e].from.as_str(), groups[d].to.as_str()) {
            assert(fed_by(groups@, i as int, e as int, d as int));
            assert(depends(groups@, i as int, d as int));
            return true;
        }
        e = e + 1;
    }
    false
}

/// The groups that group `i` depends on, each once.
fn dependencies(groups: &Vec<EdgeGroup>, i: usize) -> (r: Vec<usize>)
    requires
        i < groups@.len(),
    ensures
        r@.no_duplicates(),
        forall|d: usize| #[trigger] r@.contains(d) <==> depends(groups@, i as int, d as int),
        forall|j: int| 0 <= j < r@.len() ==> #[trigger] r@[j] < groups@.len(),
{
    let n: usize = groups.len();
    let mut r: Vec<usize> = Vec::new();
    let mut k: usize = 0;
    while k < n
        invariant
            n == groups@.len(),
            i < n,
            k <= n,
            r@.no_duplicates(),
            forall|j: int| 0 <= j < r@.len() ==> #[trigger] r@[j] < k,
            forall|d: usize| #[trigger]
                r@.contains(d) <==> d < k && depends(groups@, i as int, d as int),
        decreases n - k,
    {
        let ghost before = r@;
        if does_depend(groups, i, k) {
            r.push(k);
            assert(r@[before.len() as int] == k);
        }
        proof {
            assert forall|d: usize| #[trigger] r@.contains(d) <==> d < k + 1 && depends(
                groups@,
                i as int,
                d as int,
            ) by {
                if before.contains(d) {
                    let j = choose|j: int| 0 <= j < before.len() && before[j] == d;
                    assert(r@[j] == d);
                }
                if r@.contains(d) && d != k {
                    let j = choose|j: int| 0 <= j < r@.len() && r@[j] == d;
                    assert(before[j] == d);
                }
                if d == k && before.contains(d) {
                    let j = choose|j: int| 0 <= j < before.len() && before[j] == d;
                    assert(before[j] < k);
                }
            }
        }
        k = k + 1;
    }
    r
}

/// Whether a list of indices holds one.
pub fn contains(v: &Vec<usize>, x: usize) -> (r: bool)
    ensures
        r == v@.contains(x),
{
    let mut i: usize = 0;
    while i < v.len()
        invariant
            i <= v.len(),
            forall|j: int| 0 <= j < i ==> #[trigger] v@[j] != x,
        decreases v.len() - i,
    {
        if v[i] == x {
            assert(v@[i as int] == x);
            return true;
        }
        i = i + 1;
    }
    false
}

// ---------------------------------------------------------------------------
// Topological order
// ---------------------------------------------------------------------------
/// Whether `order` lists every group once and each behind all that it depends
/// on.
pub open spec fn topological(groups: Seq<EdgeGroup>, order: Seq<usize>) -> bool {
    &&& order.no_duplicates()
    &&& forall|k: int| 0 <= k < order.len() ==> #[trigger] order[k] < groups.len()
    &&& forall|i: usize| i < groups.len() ==> #[trigger] order.contains(i)
    &&& forall|a: int, b: int|
        #![trigger order[a], order[b]]
        0 <= a < order.len() && 0 <= b < order.len() && depends(
            groups,
            order[a] as int,
            order[b] as int,
        ) ==> b < a
}

/// A group runs behind ALL groups that produce a node which it takes its input
/// from.
pub proof fn every_producer_runs_first(
    groups: Seq<EdgeGroup>,
    order: Seq<usize>,
    a: int,
    b: int,
    e: int,
)
    requires
        topological(groups, order),
        0 <= a < order.len(),
        0 <= b < order.len(),
        a != b,
        0 <= e < groups[order[a] as int].edges@.len(),
        groups[order[a] as int].edges@[e].from@ == groups[order[b] as int].to@,
    ensures
        b < a,
{
    assert(fed_by(groups, order[a] as int, e, order[b] as int));
    assert(depends(groups, order[a] as int, order[b] as int));
}

/// How many groups are not placed yet.
spec fn open_count(placed: Seq<bool>) -> nat
    decreases placed.len(),
{
    if placed.len() == 0 {
        0
    } else {
        open_count(placed.drop_last()) + (if placed.last() {
            0nat
        } else {
            1nat
        })
    }
}

proof fn lemma_open_count_place(placed: Seq<bool>, i: int)
    requires
        0 <= i < placed.len(),
        !placed[i],
    ensures
        open_count(placed.update(i, true)) + 1 == open_count(placed),
    decreases placed.len(),
{
    let after = placed.update(i, true);
    if i == placed.len() - 1 {
        assert(after.drop_last() =~= placed.drop_last());
    } else {
        lemma_open_count_place(placed.drop_last(), i);
        assert(after.drop_last() =~= placed.drop_last().update(i, true));
    }
}

/// Whether every dependency of group `i` is placed.
spec fn ready(groups: Seq<EdgeGroup>, placed: Seq<bool>, i: int) -> bool {
    forall|d: usize| #[trigger] depends(groups, i, d as int) ==> placed[d as int]
}

proof fn lemma_order_places_all(
    groups: Seq<EdgeGroup>,
    order: Seq<usize>,
    placed: Seq<bool>,
    p: int,
)
    requires
        topological(groups, order),
        placed.len() == groups.len(),
        -1 <= p < order.len(),
        forall|i: int|
            0 <= i < groups.len() && !(#[trigger] placed[i]) ==> !ready(groups, placed, i),
    ensures
        forall|q: int| 0 <= q <= p ==> placed[#[trigger] order[q] as int],
    decreases p + 1,
{
    if p >= 0 {
        lemma_order_places_all(groups, order, placed, p - 1);
        let g = order[p] as int;
        if !placed[g] {
            assert(!ready(groups, placed, g));
            let d = choose|d: usize| #[trigger]
                depends(groups, g, d as int) && !placed[d as int];
            assert(order.contains(d));
            let q = choose|q: int| 0 <= q < order.len() && order[q] == d;
            assert(depends(groups, order[p] as int, order[q] as int));
            assert(placed[order[q] as int]);
        }
    }
}

/// The failure of a cyclic graph: a planner bug, so it is ours.
pub open spec fn cycle_error(e: ExecutionError) -> bool {
    e matches ExecutionError::CartridgeExecutionFailed { cap_urn, code, class, details, arg_urn }
        && cap_urn@.len() == 0 && code is None && class == AttributionClass::Internal && details@
        == "Cycle detected in graph"@ && arg_urn is None
}

/// Whether every dependency of group `i` is placed.
fn is_ready(groups: &Vec<EdgeGroup>, placed: &Vec<bool>, i: usize) -> (r: bool)
    requires
        i < groups@.len(),
        placed@.len() == groups@.len(),
    ensures
        r == ready(groups@, placed@, i as int),
{
    let deps = dependencies(groups, i);
    let mut j: usize = 0;
    while j < deps.len()
        invariant
            j <= deps.len(),
            i < groups@.len(),
            placed@.len() == groups@.len(),
            forall|x: int| 0 <= x < deps@.len() ==> #[trigger] deps@[x] < groups@.len(),
            forall|d: usize| #[trigger]
                deps@.contains(d) <==> depends(groups@, i as int, d as int),
            forall|x: int| 0 <= x < j ==> placed@[#[trigger] deps@[x] as int],
        decreases deps.len() - j,
    {
        if !placed[deps[j]] {
            proof {
                let d = deps@[j as int];
                assert(deps@.contains(d));
                assert(depends(groups@, i as int, d as int));
            }
            return false;
        }
        j = j + 1;
    }
    proof {
        assert forall|d: usize| #[trigger]
            depends(groups@, i as int, d as int) implies placed@[d as int] by {
            assert(deps@.contains(d));
            let x = choose|x: int| 0 <= x < deps@.len() && deps@[x] == d;
            assert(placed@[deps@[x] as int]);
        }
    }
    true
}

/// Adds to the queue every group that is ready, not placed and not queued.
fn enqueue_ready(groups: &Vec<EdgeGroup>, placed: &Vec<bool>, queue: &mut Vec<usize>)
    requires
        placed@.len() == groups@.len(),
        old(queue)@.no_duplicates(),
        forall|x: usize| #[trigger]
            old(queue)@.contains(x) ==> x < groups@.len() && !placed@[x as int] && ready(
                groups@,
                placed@,
                x as int,
            ),
    ensures
        final(queue)@.no_duplicates(),
        forall|x: usize| #[trigger]
            final(queue)@.contains(x) <==> x < groups@.len() && !placed@[x as int] && ready(
                groups@,
                placed@,
                x as int,
            ),
{
    let n: usize = groups.len();
    let mut j: usize = 0;
    while j < n
        invariant
            j <= n,
            n == groups@.len(),
            placed@.len() == groups@.len(),
            queue@.no_duplicates(),
            forall|x: usize| #[trigger]
                queue@.contains(x) ==> x < groups@.len() && !placed@[x as int] && ready(
                    groups@,
                    placed@,
                    x as int,
                ),
            forall|x: usize|
                x < j && !placed@[x as int] && ready(groups@, placed@, x as int)
                    ==> #[trigger] queue@.contains(x),
        decreases n - j,
    {
        let ghost before = queue@;
        if !placed[j] && !contains(queue, j) && is_ready(groups, placed, j) {
            queue.push(j);
            proof {
                assert(queue@[before.len() as int] == j);
                assert forall|x: usize| #[trigger] queue@.contains(x) implies before.contains(x)
                    || x == j by {
                    let k = choose|k: int| 0 <= k < queue@.len() && queue@[k] == x;
                    if k < before.len() {
                        assert(before[k] == x);
                    }
                }
                assert forall|x: usize| before.contains(x) implies #[trigger] queue@.contains(
                    x,
                ) by {
                    let k = choose|k: int| 0 <= k < before.len() && before[k] == x;
                    assert(queue@[k] == x);
                }
            }
        }
        j = j + 1;
    }
}

/// Topological sort of edge groups.
///
/// A group can execute when all groups that produce its `from` nodes have
/// completed. Returns group indices in execution order; fails exactly where no
/// such order exists. Of several groups that can execute, the one that became
/// ready last comes first.
pub fn topological_sort_groups(groups: &Vec<EdgeGroup>) -> (r: Result<Vec<usize>, ExecutionError>)
    ensures
        match r {
            Ok(order) => topological(groups@, order@),
            Err(e) => cycle_error(e) && (forall|order: Seq<usize>| !#[trigger] topological(
                groups@,
                order,
            )),
        },
{
    let n: usize = groups.len();
    let mut placed: Vec<bool> = Vec::new();
    while placed.len() < n
        invariant
            placed.len() <= n,
            forall|i: int| 0 <= i < placed@.len() ==> !#[trigger] placed@[i],
        decreases n - placed.len(),
    {
        placed.push(false);
    }
    let mut order: Vec<usize> = Vec::new();
    let mut queue: Vec<usize> = Vec::new();
    enqueue_ready(groups, &placed, &mut queue);
    while queue.len() > 0
        invariant
            n == groups@.len(),
            placed@.len() == n,
            queue@.no_duplicates(),
            forall|x: usize| #[trigger]
                queue@.contains(x) <==> x < groups@.len() && !placed@[x as int] && ready(
                    groups@,
                    placed@,
                    x as int,
                ),
            order@.no_duplicates(),
            forall|k: int| 0 <= k < order@.len() ==> #[trigger] order@[k] < n,
            forall|i: usize| i < n ==> (#[trigger] order@.contains(i) <==> placed@[i as int]),
            forall|a: int, d: usize|
                #![trigger depends(groups@, order@[a] as int, d as int)]
                0 <= a < order@.len() && depends(groups@, order@[a] as int, d as int) ==> exists|
                    b: int,
                |
                    0 <= b < a && order@[b] == d,
        decreases open_count(placed@),
    {
        let ghost queued = queue@;
        let i: usize = queue[queue.len() - 1];
        proof {
            assert(queued.contains(i));
            lemma_open_count_place(placed@, i as int);
        }
        queue.truncate(queue.len() - 1);
        let ghost before = order@;
        let ghost was = placed@;
        order.push(i);
        placed.set(i, true);
        proof {
            assert(!before.contains(i));
            assert forall|x: usize| x < n implies (#[trigger] order@.contains(x)
                <==> placed@[x as int]) by {
                if before.contains(x) {
                    let k = choose|k: int| 0 <= k < before.len() && before[k] == x;
                    assert(order@[k] == x);
                }
                if x == i {
                    assert(order@[before.len() as int] == x);
                }
                if order@.contains(x) && x != i {
                    let k = choose|k: int| 0 <= k < order@.len() && order@[k] == x;
                    assert(before[k] == x);
                }
            }
            assert forall|a: int, d: usize|
                #![trigger depends(groups@, order@[a] as int, d as int)]
                0 <= a < order@.len() && depends(
                    groups@,
                    order@[a] as int,
                    d as int,
                ) implies exists|b: int| 0 <= b < a && order@[b] == d by {
                if a < before.len() {
                    assert(order@[a] == before[a]);
                    assert(depends(groups@, before[a] as int, d as int));
                    let b = choose|b: int| 0 <= b < a && before[b] == d;
                    assert(order@[b] == d);
                } else {
                    assert(was[d as int]);
                    assert(before.contains(d));
                    let b = choose|b: int| 0 <= b < before.len() && before[b] == d;
                    assert(order@[b] == d);
                }
            }
            assert forall|x: usize| #[trigger] queue@.contains(x) implies x < groups@.len()
                && !placed@[x as int] && ready(groups@, placed@, x as int) by {
                let k = choose|k: int| 0 <= k < queue@.len() && queue@[k] == x;
                assert(queued[k] == x);
                assert(queued.contains(x));
                assert(queued[queued.len() - 1] != queued[k]);
                assert(ready(groups@, was, x as int));
                assert forall|d: usize| #[trigger]
                    depends(groups@, x as int, d as int) implies placed@[d as int] by {
                    assert(was[d as int]);
                }
            }
        }
        enqueue_ready(groups, &placed, &mut queue);
    }
    let mut i: usize = 0;
    proof {
        assert forall|x: int| 0 <= x < n && !(#[trigger] placed@[x]) implies !ready(
            groups@,
            placed@,
            x,
        ) by {
            assert(!queue@.contains(x as usize));
        }
    }
    while i < n
        invariant
            i <= n,
            n == groups@.len(),
            placed@.len() == n,
            forall|x: int| 0 <= x < i ==> #[trigger] placed@[x],
            forall|x: int|
                0 <= x < n && !(#[trigger] placed@[x]) ==> !ready(groups@, placed@, x),
        decreases n - i,
    {
        if !placed[i] {
            proof {
                assert forall|candidate: Seq<usize>| !#[trigger] topological(
                    groups@,
                    candidate,
                ) by {
                    if topological(groups@, candidate) {
                        lemma_order_places_all(groups@, candidate, placed@, candidate.len() - 1);
                        assert(candidate.contains(i));
                        let q = choose|q: int| 0 <= q < candidate.len() && candidate[q] == i;
                        assert(placed@[candidate[q] as int]);
                    }
                }
            }
            // A cyclic graph reached execution — planner bug, ours: Internal.
            return Err(
                ExecutionError::CartridgeExecutionFailed {
                    cap_urn: String::new(),
                    code: None,
                    class: AttributionClass::Internal,
                    details: "Cycle detected in graph".to_owned(),
                    arg_urn: None,
                },
            );
        }
        i = i + 1;
    }
    proof {
        assert forall|x: usize| x < groups@.len() implies #[trigger] order@.contains(x) by {
            assert(placed@[x as int]);
        }
        assert forall|a: int, b: int|
            #![trigger order@[a], order@[b]]
            0 <= a < order@.len() && 0 <= b < order@.len() && depends(
                groups@,
                order@[a] as int,
                order@[b] as int,
            ) implies b < a by {
            let d = order@[b];
            assert(depends(groups@, order@[a] as int, d as int));
            let c = choose|c: int| 0 <= c < a && order@[c] == d;
            assert(order@[c] == order@[b]);
        }
    }
    Ok(order)
}

// ---------------------------------------------------------------------------
// Live chains
// ---------------------------------------------------------------------------
/// Whether group `i` takes its input from group `d` and no other.
pub open spec fn sole_producer(groups: Seq<EdgeGroup>, i: int, d: int) -> bool {
    depends(groups, i, d) && forall|x: int| #[trigger] depends(groups, i, x) ==> x == d
}

/// Whether group `d` feeds no group but `i`.
pub open spec fn only_consumer(groups: Seq<EdgeGroup>, d: int, i: int) -> bool {
    forall|j: int| #[trigger] depends(groups, j, d) ==> j == i
}

/// Whether group `i` is the linear continuation of group `d`: a single-edge
/// group whose only producer is `d`, which feeds only it.
#[verifier::opaque]
pub open spec fn follows(groups: Seq<EdgeGroup>, i: int, d: int) -> bool {
    &&& groups[i].edges@.len() == 1
    &&& sole_producer(groups, i, d)
    &&& only_consumer(groups, d, i)
}

/// What a linear continuation is fed by, and what else it could be.
pub proof fn lemma_follows(groups: Seq<EdgeGroup>, i: int, d: int)
    requires
        follows(groups, i, d),
    ensures
        groups[i].edges@.len() == 1,
        depends(groups, i, d),
        forall|x: int| #[trigger] depends(groups, i, x) ==> x == d,
        forall|j: int| #[trigger] depends(groups, j, d) ==> j == i,
{
    reveal(follows);
}

/// A group continues one group at most, and one group at most continues it.
proof fn lemma_links_are_unique(groups: Seq<EdgeGroup>, i: int, d: int, j: int, e: int)
    requires
        follows(groups, i, d),
        follows(groups, j, e),
    ensures
        i == j <==> d == e,
{
    lemma_follows(groups, i, d);
    lemma_follows(groups, j, e);
}

/// What only consumes a group's output continues it.
proof fn lemma_consumer_is_the_link(groups: Seq<EdgeGroup>, i: int, d: int, j: int)
    requires
        follows(groups, i, d),
        depends(groups, j, d),
    ensures
        i == j,
{
    lemma_follows(groups, i, d);
}

/// Whether a group continues its producer's chain.
pub open spec fn continues_producer(groups: Seq<EdgeGroup>, i: int) -> bool {
    exists|d: int| #[trigger] follows(groups, i, d)
}

/// The first group from index `from` on that continues group `d`.
pub open spec fn next_from(groups: Seq<EdgeGroup>, d: int, from: int) -> Option<int>
    decreases groups.len() - from,
{
    if from >= groups.len() {
        None
    } else if follows(groups, from, d) {
        Some(from)
    } else {
        next_from(groups, d, from + 1)
    }
}

/// The maximal linear chain that starts at `head`, of at most `fuel` further
/// groups.
pub open spec fn chain_from(groups: Seq<EdgeGroup>, head: usize, fuel: nat) -> Seq<usize>
    decreases fuel,
{
    if fuel == 0 {
        seq![head]
    } else {
        match next_from(groups, head as int, 0) {
            Some(i) => seq![head] + chain_from(groups, i as usize, (fuel - 1) as nat),
            None => seq![head],
        }
    }
}

/// The groups of `order` that head a chain, in that order.
pub open spec fn chain_heads(groups: Seq<EdgeGroup>, order: Seq<usize>) -> Seq<usize>
    decreases order.len(),
{
    if order.len() == 0 {
        Seq::empty()
    } else {
        let before = chain_heads(groups, order.drop_last());
        if continues_producer(groups, order.last() as int) || before.contains(order.last()) {
            before
        } else {
            before.push(order.last())
        }
    }
}

/// The chains of an order, as sequences.
pub open spec fn chain_views(chains: Seq<Vec<usize>>) -> Seq<Seq<usize>> {
    Seq::new(chains.len(), |c: int| chains[c]@)
}

pub open spec fn chains_of(groups: Seq<EdgeGroup>, order: Seq<usize>) -> Seq<Seq<usize>> {
    let heads = chain_heads(groups, order);
    Seq::new(heads.len(), |c: int| chain_from(groups, heads[c], groups.len()))
}

/// Whether group `i` is the linear continuation of group `d`.
fn is_continuation(groups: &Vec<EdgeGroup>, i: usize, d: usize) -> (r: bool)
    requires
        i < groups@.len(),
    ensures
        r == follows(groups@, i as int, d as int),
{
    proof {
        reveal(follows);
    }
    if groups[i].edges.len() != 1 {
        return false;
    }
    let n: usize = groups.len();
    let producers = dependencies(groups, i);
    if producers.len() != 1 || producers[0] != d {
        proof {
            if follows(groups@, i as int, d as int) {
                assert(producers@.contains(d));
                assert forall|k: int| 0 <= k < producers@.len() implies producers@[k] == d by {
                    assert(producers@.contains(producers@[k]));
                    assert(depends(groups@, i as int, producers@[k] as int));
                }
                if producers@.len() > 1 {
                    assert(producers@[0] == producers@[1]);
                }
            }
        }
        return false;
    }
    proof {
        assert(producers@.contains(d));
        assert forall|x: int| #[trigger] depends(groups@, i as int, x) implies x == d by {
            assert(x < n);
            let u = x as usize;
            assert(depends(groups@, i as int, u as int));
            assert(producers@.contains(u));
            let k = choose|k: int| 0 <= k < producers@.len() && producers@[k] == u;
            assert(k == 0);
        }
    }
    let mut j: usize = 0;
    while j < n
        invariant
            n == groups@.len(),
            j <= n,
            forall|x: int| 0 <= x < j && #[trigger] depends(groups@, x, d as int) ==> x == i,
        decreases n - j,
    {
        let deps = dependencies(groups, j);
        if j != i && contains(&deps, d) {
            assert(depends(groups@, j as int, d as int));
            proof {
                reveal(follows);
            }
            return false;
        }
        assert(!deps@.contains(d) || j == i);
        j = j + 1;
    }
    true
}

fn continues(groups: &Vec<EdgeGroup>, i: usize) -> (r: bool)
    requires
        i < groups@.len(),
    ensures
        r == continues_producer(groups@, i as int),
{
    let n: usize = groups.len();
    let producers = dependencies(groups, i);
    if producers.len() == 0 {
        proof {
            assert forall|d: int| !#[trigger] follows(groups@, i as int, d) by {
                if follows(groups@, i as int, d) {
                    lemma_follows(groups@, i as int, d);
                    assert(d < n);
                    assert(producers@.contains(d as usize));
                }
            }
        }
        return false;
    }
    let first: usize = producers[0];
    let r = is_continuation(groups, i, first);
    proof {
        assert(producers@.contains(first));
        assert(depends(groups@, i as int, first as int));
        if continues_producer(groups@, i as int) {
            let d = choose|d: int| #[trigger] follows(groups@, i as int, d);
            lemma_follows(groups@, i as int, d);
            assert(first as int == d);
        }
    }
    r
}

fn find_next(groups: &Vec<EdgeGroup>, d: usize) -> (r: Option<usize>)
    ensures
        match r {
            Some(i) => next_from(groups@, d as int, 0) == Some(i as int) && i < groups@.len(),
            None => next_from(groups@, d as int, 0) is None,
        },
{
    let mut i: usize = 0;
    while i < groups.len()
        invariant
            i <= groups@.len(),
            next_from(groups@, d as int, 0) == next_from(groups@, d as int, i as int),
        decreases groups@.len() - i,
    {
        if is_continuation(groups, i, d) {
            return Some(i);
        }
        i = i + 1;
    }
    None
}

/// Decompose topologically-ordered cap groups into maximal linear chains (lists
/// of indices into `groups`).
///
/// A group folds into its producer's chain iff it is a SINGLE-edge group with
/// exactly one producer group, and that producer feeds ONLY it; otherwise it
/// heads a new chain. A multi-edge group (fan-in: several args, or a gather of
/// several producers into one sequence arg) always heads a chain — mid-chain
/// streaming forwards exactly one producer stream, so a multi-input invocation
/// must be fed from materialised node data. Chains are returned in the order
/// of their heads.
pub fn decompose_group_chains(groups: &Vec<EdgeGroup>, group_order: &Vec<usize>) -> (chains: Vec<
    Vec<usize>,
>)
    requires
        forall|k: int| 0 <= k < group_order@.len() ==> #[trigger] group_order@[k] < groups@.len(),
    ensures
        chain_views(chains@) == chains_of(groups@, group_order@),
{
    let mut chains: Vec<Vec<usize>> = Vec::new();
    let mut heads: Vec<usize> = Vec::new();
    let mut k: usize = 0;
    proof {
        assert(group_order@.take(0) =~= Seq::<usize>::empty());
    }
    while k < group_order.len()
        invariant
            k <= group_order@.len(),
            forall|x: int|
                0 <= x < group_order@.len() ==> #[trigger] group_order@[x] < groups@.len(),
            heads@ == chain_heads(groups@, group_order@.take(k as int)),
            chain_views(chains@) == chains_of(groups@, group_order@.take(k as int)),
        decreases group_order@.len() - k,
    {
        let start: usize = group_order[k];
        proof {
            assert(group_order@.take(k + 1).drop_last() =~= group_order@.take(k as int));
            assert(group_order@.take(k + 1).last() == start);
        }
        if !continues(groups, start) && !contains(&heads, start) {
            let mut chain: Vec<usize> = Vec::new();
            let mut tail: usize = start;
            let mut fuel: usize = groups.len();
            let mut going: bool = true;
            proof {
                assert(chain@ + chain_from(groups@, tail, fuel as nat) =~= chain_from(
                    groups@,
                    start,
                    groups@.len(),
                ));
            }
            while going
                invariant
                    fuel <= groups@.len(),
                    going ==> chain@ + chain_from(groups@, tail, fuel as nat) == chain_from(
                        groups@,
                        start,
                        groups@.len(),
                    ),
                    !going ==> chain@ == chain_from(groups@, start, groups@.len()),
                decreases fuel, if going { 1int } else { 0int },
            {
                let ghost had = chain@;
                let ghost at = tail;
                chain.push(tail);
                if fuel == 0 {
                    going = false;
                    assert(had + seq![at] =~= chain@);
                } else {
                    match find_next(groups, tail) {
                        Some(next) => {
                            fuel = fuel - 1;
                            tail = next;
                            proof {
                                let rest = chain_from(groups@, next, fuel as nat);
                                assert(had + (seq![at] + rest) =~= chain@ + rest);
                            }
                        },
                        None => {
                            going = false;
                            assert(had + seq![at] =~= chain@);
                        },
                    }
                }
            }
            let ghost before = chains@;
            let ghost heads_before = heads@;
            heads.push(start);
            chains.push(chain);
            proof {
                let after = group_order@.take(k + 1);
                assert(heads@ == chain_heads(groups@, after));
                assert(chain_views(before).len() == chains_of(
                    groups@,
                    group_order@.take(k as int),
                ).len());
                assert(before.len() == heads_before.len());
                assert forall|c: int| 0 <= c < chains@.len() implies #[trigger] chain_views(
                    chains@,
                )[c] == chains_of(groups@, after)[c] by {
                    if c < before.len() {
                        assert(chain_views(before)[c] == chains_of(
                            groups@,
                            group_order@.take(k as int),
                        )[c]);
                        assert(heads@[c] == heads_before[c]);
                    }
                }
                assert(chain_views(chains@) =~= chains_of(groups@, after));
            }
        }
        k = k + 1;
    }
    assert(group_order@.take(k as int) =~= group_order@);
    chains
}

// ---------------------------------------------------------------------------
// What the chains guarantee
// ---------------------------------------------------------------------------
proof fn lemma_next_from(groups: Seq<EdgeGroup>, d: int, from: int)
    requires
        0 <= from,
    ensures
        match next_from(groups, d, from) {
            Some(i) => from <= i < groups.len() && follows(groups, i, d),
            None => forall|i: int| from <= i < groups.len() ==> !#[trigger] follows(groups, i, d),
        },
    decreases groups.len() - from,
{
    if from < groups.len() && !follows(groups, from, d) {
        lemma_next_from(groups, d, from + 1);
    }
}

/// What links a chain: every group behind the head continues the one before
/// it, and the chain only ends where nothing continues its last group or the
/// bound is reached.
proof fn lemma_chain(groups: Seq<EdgeGroup>, head: usize, fuel: nat)
    requires
        head < groups.len() <= usize::MAX,
    ensures
        ({
            let chain = chain_from(groups, head, fuel);
            &&& chain.len() >= 1
            &&& chain[0] == head
            &&& forall|p: int| 0 <= p < chain.len() ==> #[trigger] chain[p] < groups.len()
            &&& forall|p: int|
                1 <= p < chain.len() ==> follows(
                    groups,
                    #[trigger] chain[p] as int,
                    chain[p - 1] as int,
                )
            &&& chain.len() > fuel || forall|i: int|
                0 <= i < groups.len() ==> !#[trigger] follows(groups, i, chain.last() as int)
        }),
    decreases fuel,
{
    lemma_next_from(groups, head as int, 0);
    let chain = chain_from(groups, head, fuel);
    if fuel > 0 {
        match next_from(groups, head as int, 0) {
            Some(i) => {
                let rest = chain_from(groups, i as usize, (fuel - 1) as nat);
                lemma_chain(groups, i as usize, (fuel - 1) as nat);
                assert(chain.len() == rest.len() + 1);
                assert forall|p: int| 0 <= p < chain.len() implies #[trigger] chain[p]
                    < groups.len() by {
                    if p > 0 {
                        assert(chain[p] == rest[p - 1]);
                    }
                }
                assert forall|p: int| 1 <= p < chain.len() implies follows(
                    groups,
                    #[trigger] chain[p] as int,
                    chain[p - 1] as int,
                ) by {
                    assert(chain[p] == rest[p - 1]);
                    if p > 1 {
                        assert(chain[p - 1] == rest[p - 2]);
                    }
                }
                assert(chain.last() == rest.last());
            },
            None => {},
        }
    }
}

proof fn lemma_heads(groups: Seq<EdgeGroup>, order: Seq<usize>)
    ensures
        chain_heads(groups, order).no_duplicates(),
        forall|c: int|
            0 <= c < chain_heads(groups, order).len() ==> order.contains(
                #[trigger] chain_heads(groups, order)[c],
            ) && !continues_producer(groups, chain_heads(groups, order)[c] as int),
        forall|k: int|
            0 <= k < order.len() && !continues_producer(groups, #[trigger] order[k] as int)
                ==> chain_heads(groups, order).contains(order[k]),
    decreases order.len(),
{
    if order.len() > 0 {
        let shorter = order.drop_last();
        let before = chain_heads(groups, shorter);
        let heads = chain_heads(groups, order);
        lemma_heads(groups, shorter);
        assert forall|c: int| 0 <= c < heads.len() implies order.contains(#[trigger] heads[c])
            && !continues_producer(groups, heads[c] as int) by {
            if c < before.len() {
                assert(heads[c] == before[c]);
                let k = choose|k: int| 0 <= k < shorter.len() && shorter[k] == before[c];
                assert(order[k] == before[c]);
            } else {
                assert(order[order.len() - 1] == heads[c]);
            }
        }
        assert forall|k: int|
            0 <= k < order.len() && !continues_producer(
                groups,
                #[trigger] order[k] as int,
            ) implies heads.contains(order[k]) by {
            if k < shorter.len() {
                assert(shorter[k] == order[k]);
                let c = choose|c: int| 0 <= c < before.len() && before[c] == order[k];
                assert(heads[c] == order[k]);
            } else if before.contains(order.last()) {
                assert(heads == before);
            } else {
                assert(heads[before.len() as int] == order[k]);
            }
        }
    }
}

/// A chain goes on behind a group that another continues.
proof fn lemma_chain_goes_on(groups: Seq<EdgeGroup>, head: usize, p: int, next: usize)
    requires
        head < groups.len() <= usize::MAX,
        0 <= p < chain_from(groups, head, groups.len()).len(),
        p < groups.len(),
        next < groups.len(),
        follows(groups, next as int, chain_from(groups, head, groups.len())[p] as int),
    ensures
        p + 1 < chain_from(groups, head, groups.len()).len(),
        chain_from(groups, head, groups.len())[p + 1] == next,
{
    let chain = chain_from(groups, head, groups.len());
    lemma_chain(groups, head, groups.len());
    if p + 1 < chain.len() {
        assert(follows(groups, chain[p + 1] as int, chain[p] as int));
        lemma_links_are_unique(
            groups,
            chain[p + 1] as int,
            chain[p] as int,
            next as int,
            chain[p] as int,
        );
    } else {
        assert(chain.last() == chain[p]);
    }
}

/// The group at position `k` of a topological order stands in a chain whose
/// head comes no later in that order.
proof fn lemma_in_a_chain(groups: Seq<EdgeGroup>, order: Seq<usize>, k: int) -> (r: (
    int,
    int,
    int,
))
    requires
        topological(groups, order),
        groups.len() <= usize::MAX,
        order.len() <= groups.len(),
        0 <= k < order.len(),
    ensures
        ({
            let chains = chains_of(groups, order);
            let (c, p, h) = r;
            &&& 0 <= c < chains.len()
            &&& 0 <= p < chains[c].len()
            &&& p <= k
            &&& chains[c][p] == order[k]
            &&& 0 <= h <= k
            &&& order[h] == chain_heads(groups, order)[c]
        }),
    decreases k,
{
    let heads = chain_heads(groups, order);
    let chains = chains_of(groups, order);
    let g = order[k] as int;
    lemma_heads(groups, order);
    if !continues_producer(groups, g) {
        assert(heads.contains(order[k]));
        let c = choose|c: int| 0 <= c < heads.len() && heads[c] == order[k];
        lemma_chain(groups, heads[c], groups.len());
        assert(chains[c][0] == order[k]);
        (c, 0, k)
    } else {
        let d = choose|d: int| #[trigger] follows(groups, g, d);
        assert(depends(groups, g, d)) by {
            lemma_follows(groups, g, d);
        }
        assert(order.contains(d as usize));
        let q = choose|q: int| 0 <= q < order.len() && order[q] == d as usize;
        assert(depends(groups, order[k] as int, order[q] as int));
        assert(q < k);
        let (c, p, h) = lemma_in_a_chain(groups, order, q);
        lemma_order_heads_in_range(groups, order, c);
        lemma_chain_goes_on(groups, heads[c], p, order[k]);
        (c, p + 1, h)
    }
}

/// A position in the chains of an order.
pub open spec fn at_chain(
    groups: Seq<EdgeGroup>,
    order: Seq<usize>,
    c: int,
    p: int,
    group: usize,
) -> bool {
    let chains = chains_of(groups, order);
    0 <= c < chains.len() && 0 <= p < chains[c].len() && chains[c][p] == group
}

/// Every group of a topological order runs in some chain: decomposing drops no
/// invocation.
pub proof fn every_group_is_in_a_chain(groups: Seq<EdgeGroup>, order: Seq<usize>, group: usize)
    requires
        topological(groups, order),
        groups.len() <= usize::MAX,
        group < groups.len(),
    ensures
        exists|c: int, p: int| #[trigger] at_chain(groups, order, c, p, group),
{
    lemma_order_length(groups, order);
    assert(order.contains(group));
    let k = choose|k: int| 0 <= k < order.len() && order[k] == group;
    let (c, p, h) = lemma_in_a_chain(groups, order, k);
    assert(at_chain(groups, order, c, p, group));
}

/// A topological order is no longer than there are groups.
proof fn lemma_order_length(groups: Seq<EdgeGroup>, order: Seq<usize>)
    requires
        topological(groups, order),
    ensures
        order.len() <= groups.len(),
{
    let ints = order.map_values(|i: usize| i as int);
    assert(ints.no_duplicates());
    ints.unique_seq_to_set();
    let range = vstd::set_lib::set_int_range(0, groups.len() as int);
    vstd::set_lib::lemma_int_range(0, groups.len() as int);
    assert(ints.to_set().subset_of(range)) by {
        assert forall|x: int| ints.to_set().contains(x) implies range.contains(x) by {
            let k = choose|k: int| 0 <= k < ints.len() && ints[k] == x;
            assert(order[k] < groups.len());
        }
    }
    vstd::set_lib::lemma_len_subset(ints.to_set(), range);
}

/// No group runs twice: a group stands at one place of one chain.
pub proof fn no_group_is_in_two_chains(
    groups: Seq<EdgeGroup>,
    order: Seq<usize>,
    c: int,
    p: int,
    c2: int,
    p2: int,
    group: usize,
)
    requires
        topological(groups, order),
        groups.len() <= usize::MAX,
        at_chain(groups, order, c, p, group),
        at_chain(groups, order, c2, p2, group),
    ensures
        c == c2 && p == p2,
    decreases p,
{
    let heads = chain_heads(groups, order);
    let chains = chains_of(groups, order);
    lemma_heads(groups, order);
    lemma_order_heads_in_range(groups, order, c);
    lemma_order_heads_in_range(groups, order, c2);
    lemma_chain(groups, heads[c], groups.len());
    lemma_chain(groups, heads[c2], groups.len());
    if p == 0 {
        assert(!continues_producer(groups, group as int));
        if p2 > 0 {
            assert(follows(groups, chains[c2][p2] as int, chains[c2][p2 - 1] as int));
            assert(false);
        }
        assert(heads[c] == heads[c2]);
    } else {
        assert(follows(groups, chains[c][p] as int, chains[c][p - 1] as int));
        if p2 == 0 {
            assert(!continues_producer(groups, group as int));
            assert(false);
        }
        assert(follows(groups, chains[c2][p2] as int, chains[c2][p2 - 1] as int));
        lemma_links_are_unique(
            groups,
            group as int,
            chains[c][p - 1] as int,
            group as int,
            chains[c2][p2 - 1] as int,
        );
        assert(at_chain(groups, order, c, p - 1, chains[c][p - 1]));
        assert(at_chain(groups, order, c2, p2 - 1, chains[c][p - 1]));
        no_group_is_in_two_chains(groups, order, c, p - 1, c2, p2 - 1, chains[c][p - 1]);
    }
}

proof fn lemma_order_heads_in_range(groups: Seq<EdgeGroup>, order: Seq<usize>, c: int)
    requires
        topological(groups, order),
        0 <= c < chain_heads(groups, order).len(),
    ensures
        chain_heads(groups, order)[c] < groups.len(),
{
    let heads = chain_heads(groups, order);
    lemma_heads(groups, order);
    assert(order.contains(heads[c]));
    let k = choose|k: int| 0 <= k < order.len() && order[k] == heads[c];
    assert(order[k] < groups.len());
}

/// What a chain lists are groups.
pub proof fn lemma_chain_members(groups: Seq<EdgeGroup>, order: Seq<usize>, c: int, p: int)
    requires
        topological(groups, order),
        groups.len() <= usize::MAX,
        0 <= c < chains_of(groups, order).len(),
        0 <= p < chains_of(groups, order)[c].len(),
    ensures
        chains_of(groups, order)[c][p] < groups.len(),
{
    lemma_order_heads_in_range(groups, order, c);
    lemma_chain(groups, chain_heads(groups, order)[c], groups.len());
}

/// A group with several input edges always heads its chain.
pub proof fn a_multi_edge_group_heads_its_chain(
    groups: Seq<EdgeGroup>,
    order: Seq<usize>,
    c: int,
    p: int,
    group: usize,
)
    requires
        topological(groups, order),
        groups.len() <= usize::MAX,
        at_chain(groups, order, c, p, group),
        groups[group as int].edges@.len() != 1,
    ensures
        p == 0,
{
    let heads = chain_heads(groups, order);
    let chains = chains_of(groups, order);
    lemma_order_heads_in_range(groups, order, c);
    lemma_chain(groups, heads[c], groups.len());
    if p > 0 {
        assert(follows(groups, chains[c][p] as int, chains[c][p - 1] as int));
        lemma_follows(groups, chains[c][p] as int, chains[c][p - 1] as int);
    }
}

proof fn lemma_heads_keep_order(groups: Seq<EdgeGroup>, order: Seq<usize>, a: int, b: int)
    requires
        order.no_duplicates(),
        0 <= a < chain_heads(groups, order).len(),
        0 <= b < chain_heads(groups, order).len(),
        a < b,
    ensures
        exists|i: int, j: int|
            0 <= i < j < order.len() && #[trigger] order[i] == chain_heads(groups, order)[a]
                && #[trigger] order[j] == chain_heads(groups, order)[b],
    decreases order.len(),
{
    let shorter = order.drop_last();
    let before = chain_heads(groups, shorter);
    let heads = chain_heads(groups, order);
    if b < before.len() {
        lemma_heads_keep_order(groups, shorter, a, b);
        let (i, j) = choose|i: int, j: int|
            0 <= i < j < shorter.len() && #[trigger] shorter[i] == before[a] && #[trigger] shorter[j]
                == before[b];
        assert(order[i] == heads[a] && order[j] == heads[b]);
    } else {
        lemma_heads(groups, shorter);
        assert(shorter.contains(before[a]));
        let i = choose|i: int| 0 <= i < shorter.len() && shorter[i] == before[a];
        assert(order[i] == heads[a] && order[order.len() - 1] == heads[b]);
    }
}

/// What a chain's head consumes is materialised before the chain runs: every
/// group that the head depends on is the last of an earlier chain.
pub proof fn head_inputs_come_from_earlier_sinks(
    groups: Seq<EdgeGroup>,
    order: Seq<usize>,
    c: int,
    d: int,
)
    requires
        topological(groups, order),
        groups.len() <= usize::MAX,
        0 <= c < chains_of(groups, order).len(),
        depends(groups, chains_of(groups, order)[c][0] as int, d),
    ensures
        exists|b: int|
            0 <= b < c && #[trigger] chains_of(groups, order)[b].last() as int == d,
{
    let heads = chain_heads(groups, order);
    let chains = chains_of(groups, order);
    lemma_order_length(groups, order);
    lemma_heads(groups, order);
    lemma_order_heads_in_range(groups, order, c);
    lemma_chain(groups, heads[c], groups.len());
    let head = heads[c];
    assert(chains[c][0] == head);
    assert(order.contains(d as usize));
    let q = choose|q: int| 0 <= q < order.len() && order[q] == d as usize;
    assert(order.contains(head));
    let k = choose|k: int| 0 <= k < order.len() && order[k] == head;
    assert(depends(groups, order[k] as int, order[q] as int));
    assert(q < k);
    let (b, p, h) = lemma_in_a_chain(groups, order, q);
    // The chain of the producer starts before this one.
    assert(b < c) by {
        if c < b {
            lemma_heads_keep_order(groups, order, c, b);
            let (i, j) = choose|i: int, j: int|
                0 <= i < j < order.len() && #[trigger] order[i] == heads[c] && #[trigger] order[j]
                    == heads[b];
            assert(order[i] == order[k] && order[j] == order[h]);
        }
        if c == b {
            assert(order[h] == order[k]);
        }
    }
    // The producer is the last of it: what continued it would be its only
    // consumer, and the head of another chain consumes it.
    lemma_order_heads_in_range(groups, order, b);
    lemma_chain(groups, heads[b], groups.len());
    if p + 1 < chains[b].len() {
        let next = chains[b][p + 1] as int;
        assert(follows(groups, next, chains[b][p] as int));
        lemma_consumer_is_the_link(groups, next, d, head as int);
        assert(continues_producer(groups, head as int));
        assert(false);
    }
    assert(chains[b].last() as int == d);
}

// ---------------------------------------------------------------------------
// Bounded pools
// ---------------------------------------------------------------------------
/// The admission pools of an invocation, with the capacity of each (0:
/// unbounded).
pub type PoolChain = Vec<(String, usize)>;

/// Whether two pools are the same one, with a bound on either side.
pub open spec fn contends(a: (String, usize), b: (String, usize)) -> bool {
    a.0@ == b.0@ && (a.1 > 0 || b.1 > 0)
}

/// Whether two invocations share a capacity-bounded pool.
pub open spec fn shares_bounded_pool(a: Seq<(String, usize)>, b: Seq<(String, usize)>) -> bool {
    exists|x: int, y: int|
        0 <= x < a.len() && 0 <= y < b.len() && #[trigger] contends(a[x], b[y])
}

/// One chain cut between every two adjacent groups that share a bounded pool.
pub open spec fn segments_of(chain: Seq<usize>, pools: Seq<PoolChain>) -> Seq<Seq<usize>>
    decreases chain.len(),
{
    if chain.len() == 0 {
        Seq::empty()
    } else if chain.len() == 1 {
        seq![chain]
    } else {
        let before = segments_of(chain.drop_last(), pools);
        if shares_bounded_pool(
            pools[chain[chain.len() - 2] as int]@,
            pools[chain.last() as int]@,
        ) {
            before.push(seq![chain.last()])
        } else {
            before.drop_last().push(before.last().push(chain.last()))
        }
    }
}

/// All chains cut, in their order.
pub open spec fn all_segments(chains: Seq<Seq<usize>>, pools: Seq<PoolChain>) -> Seq<Seq<usize>>
    decreases chains.len(),
{
    if chains.len() == 0 {
        Seq::empty()
    } else {
        all_segments(chains.drop_last(), pools) + segments_of(chains.last(), pools)
    }
}

fn deadlock_boundary(a: &PoolChain, b: &PoolChain) -> (r: bool)
    ensures
        r == shares_bounded_pool(a@, b@),
{
    let mut x: usize = 0;
    while x < a.len()
        invariant
            x <= a@.len(),
            forall|i: int, j: int|
                0 <= i < x && 0 <= j < b@.len() ==> !#[trigger] contends(a@[i], b@[j]),
        decreases a@.len() - x,
    {
        let mut y: usize = 0;
        while y < b.len()
            invariant
                x < a@.len(),
                y <= b@.len(),
                forall|j: int| 0 <= j < y ==> !#[trigger] contends(a@[x as int], b@[j]),
            decreases b@.len() - y,
        {
            if same(a[x].0.as_str(), b[y].0.as_str()) && (a[x].1 > 0 || b[y].1 > 0) {
                assert(contends(a@[x as int], b@[y as int]));
                return true;
            }
            y = y + 1;
        }
        x = x + 1;
    }
    false
}

proof fn lemma_segments_not_empty(chain: Seq<usize>, pools: Seq<PoolChain>)
    ensures
        chain.len() > 0 ==> segments_of(chain, pools).len() > 0,
    decreases chain.len(),
{
    if chain.len() > 1 {
        lemma_segments_not_empty(chain.drop_last(), pools);
    }
}

/// Split each linear chain at the permit-deadlock boundary: between two
/// ADJACENT groups whose admission chains share a capacity-BOUNDED pool
/// (opening both invocations up front would have the second wait on the pool
/// slot the first holds while neither has input).
///
/// A bounded invocation owns a concrete pool slot from its request through its
/// terminal response, so it must receive its input and finish before a
/// dependent invocation contending for the same pool is acquired. Groups
/// sharing no bounded pool share no permit and keep streaming in one live
/// chain.
pub fn split_chains_at_shared_bounded_pool(
    chains: Vec<Vec<usize>>,
    group_chain: &Vec<PoolChain>,
) -> (split: Vec<Vec<usize>>)
    requires
        forall|c: int, p: int|
            0 <= c < chains@.len() && 0 <= p < chains@[c]@.len() ==> #[trigger] chains@[c]@[p]
                < group_chain@.len(),
    ensures
        chain_views(split@) == all_segments(chain_views(chains@), group_chain@),
{
    let mut split: Vec<Vec<usize>> = Vec::new();
    let mut c: usize = 0;
    proof {
        assert(chain_views(chains@).take(0) =~= Seq::<Seq<usize>>::empty());
        assert(chain_views(split@) =~= Seq::<Seq<usize>>::empty());
    }
    while c < chains.len()
        invariant
            c <= chains@.len(),
            forall|x: int, p: int|
                0 <= x < chains@.len() && 0 <= p < chains@[x]@.len() ==> #[trigger] chains@[x]@[p]
                    < group_chain@.len(),
            chain_views(split@) == all_segments(chain_views(chains@).take(c as int), group_chain@),
        decreases chains@.len() - c,
    {
        let ghost done = chain_views(split@);
        let ghost chain = chains@[c as int]@;
        let mut segment: Vec<usize> = Vec::new();
        let mut p: usize = 0;
        while p < chains[c].len()
            invariant
                c < chains@.len(),
                chain == chains@[c as int]@,
                p <= chain.len(),
                forall|x: int, q: int|
                    0 <= x < chains@.len() && 0 <= q < chains@[x]@.len()
                        ==> #[trigger] chains@[x]@[q] < group_chain@.len(),
                p == 0 ==> segment@.len() == 0 && chain_views(split@) == done,
                p > 0 ==> segment@.len() > 0 && segment@.last() == chain[p - 1] && chain_views(
                    split@,
                ).push(segment@) == done + segments_of(chain.take(p as int), group_chain@),
            decreases chain.len() - p,
        {
            let group_idx: usize = chains[c][p];
            let ghost taken = chain.take(p as int);
            let ghost next = chain.take(p + 1);
            proof {
                assert(next.drop_last() =~= taken);
                assert(next.last() == group_idx);
                assert(chains@[c as int]@[p as int] < group_chain@.len());
                if p > 0 {
                    assert(next[next.len() - 2] == chain[p - 1]);
                    assert(chains@[c as int]@[p - 1] < group_chain@.len());
                    lemma_segments_not_empty(taken, group_chain@);
                } else {
                    assert(next =~= seq![group_idx]);
                }
            }
            let boundary = segment.len() > 0 && deadlock_boundary(
                &group_chain[segment[segment.len() - 1]],
                &group_chain[group_idx],
            );
            let ghost split_before = chain_views(split@);
            let ghost segment_before = segment@;
            if boundary {
                let mut full: Vec<usize> = Vec::new();
                core::mem::swap(&mut full, &mut segment);
                split.push(full);
                proof {
                    assert(chain_views(split@) =~= split_before.push(segment_before));
                }
            }
            segment.push(group_idx);
            proof {
                let before = segments_of(taken, group_chain@);
                if p == 0 {
                    assert(segment@ =~= next);
                    assert(split_before.push(segment@) =~= done + seq![next]);
                } else if boundary {
                    assert(segment@ =~= seq![group_idx]);
                    assert((done + before).push(segment@) =~= done + before.push(segment@));
                } else {
                    assert((done + before).last() == before.last());
                    assert(split_before.push(segment_before).last() == segment_before);
                    assert(split_before =~= (done + before).drop_last()) by {
                        assert(split_before.push(segment_before).drop_last() =~= split_before);
                    }
                    assert((done + before).drop_last() =~= done + before.drop_last());
                    assert((done + before.drop_last()).push(segment@) =~= done
                        + before.drop_last().push(segment@));
                }
            }
            p = p + 1;
        }
        proof {
            assert(chain.take(p as int) =~= chain);
            let views = chain_views(chains@);
            assert(views.take(c + 1).drop_last() =~= views.take(c as int));
            assert(views.take(c + 1).last() == chain);
        }
        let ghost split_before = chain_views(split@);
        let ghost segment_before = segment@;
        if segment.len() > 0 {
            split.push(segment);
            proof {
                assert(chain_views(split@) =~= split_before.push(segment_before));
            }
        } else {
            assert(done + Seq::<Seq<usize>>::empty() =~= done);
        }
        c = c + 1;
    }
    assert(chain_views(chains@).take(c as int) =~= chain_views(chains@));
    split
}

/// Splitting keeps every invocation and its place: the segments of a chain,
/// one behind the other, are the chain.
pub proof fn splitting_keeps_the_chain(chain: Seq<usize>, pools: Seq<PoolChain>)
    ensures
        segments_of(chain, pools).flatten() == chain,
    decreases chain.len(),
{
    broadcast use vstd::seq_lib::group_seq_properties;

    let segments = segments_of(chain, pools);
    if chain.len() == 0 {
        assert(segments.flatten() =~= chain);
    } else if chain.len() == 1 {
        seq![chain].lemma_flatten_one_element();
    } else {
        let before = segments_of(chain.drop_last(), pools);
        splitting_keeps_the_chain(chain.drop_last(), pools);
        lemma_segments_not_empty(chain.drop_last(), pools);
        if shares_bounded_pool(
            pools[chain[chain.len() - 2] as int]@,
            pools[chain.last() as int]@,
        ) {
            lemma_flatten_push(before, seq![chain.last()]);
        } else {
            lemma_flatten_push(before.drop_last(), before.last());
            assert(before.drop_last().push(before.last()) =~= before);
            lemma_flatten_push(before.drop_last(), before.last().push(chain.last()));
        }
        assert(chain.drop_last().push(chain.last()) =~= chain);
        assert(segments.flatten() =~= chain);
    }
}

proof fn lemma_flatten_push(s: Seq<Seq<usize>>, x: Seq<usize>)
    ensures
        s.push(x).flatten() == s.flatten() + x,
    decreases s.len(),
{
    if s.len() == 0 {
        assert(s.push(x) =~= seq![x]);
        seq![x].lemma_flatten_one_element();
        assert(s.flatten() + x =~= x);
    } else {
        lemma_flatten_push(s.drop_first(), x);
        assert(s.push(x).drop_first() =~= s.drop_first().push(x));
        assert(s.push(x).first() == s.first());
        assert(s.first() + (s.drop_first().flatten() + x) =~= s.flatten() + x);
    }
}

/// No segment holds a permit deadlock: adjacent groups of one segment share no
/// capacity-bounded pool.
pub proof fn a_segment_shares_no_bounded_pool(
    chain: Seq<usize>,
    pools: Seq<PoolChain>,
    s: int,
    p: int,
)
    requires
        0 <= s < segments_of(chain, pools).len(),
        1 <= p < segments_of(chain, pools)[s].len(),
    ensures
        !shares_bounded_pool(
            pools[segments_of(chain, pools)[s][p - 1] as int]@,
            pools[segments_of(chain, pools)[s][p] as int]@,
        ),
    decreases chain.len(),
{
    if chain.len() > 1 {
        let before = segments_of(chain.drop_last(), pools);
        lemma_segments_not_empty(chain.drop_last(), pools);
        lemma_last_segment(chain.drop_last(), pools);
        let bounded = shares_bounded_pool(
            pools[chain[chain.len() - 2] as int]@,
            pools[chain.last() as int]@,
        );
        if !bounded && s == before.len() - 1 {
            if p < before.last().len() {
                a_segment_shares_no_bounded_pool(chain.drop_last(), pools, s, p);
            }
        } else if s < before.len() {
            a_segment_shares_no_bounded_pool(chain.drop_last(), pools, s, p);
        }
    }
}

proof fn lemma_last_segment(chain: Seq<usize>, pools: Seq<PoolChain>)
    requires
        chain.len() > 0,
    ensures
        segments_of(chain, pools).len() > 0,
        segments_of(chain, pools).last().len() > 0,
        segments_of(chain, pools).last().last() == chain.last(),
    decreases chain.len(),
{
    if chain.len() > 1 {
        lemma_last_segment(chain.drop_last(), pools);
    }
}

// ---------------------------------------------------------------------------
// Activity timeout
// ---------------------------------------------------------------------------
/// Default activity timeout in seconds — no frames for this long means the cap
/// is considered stuck.
pub const DEFAULT_ACTIVITY_TIMEOUT_SECS: u64 = 120;

/// The metadata key that declares a cap's activity timeout.
pub open spec fn activity_timeout_metadata_key() -> Seq<char> {
    "activity_timeout_secs"@
}

/// The activity timeout that a cap's metadata declares: a positive number of
/// seconds, else the default.
pub open spec fn activity_timeout(metadata: Map<Seq<char>, String>) -> int {
    if metadata.dom().contains(activity_timeout_metadata_key()) {
        match text::parse_unsigned(metadata[activity_timeout_metadata_key()]@, u64::MAX as nat) {
            Some(secs) if secs > 0 => secs as int,
            _ => DEFAULT_ACTIVITY_TIMEOUT_SECS as int,
        }
    } else {
        DEFAULT_ACTIVITY_TIMEOUT_SECS as int
    }
}

/// Whether an edge takes its input from `node`.
pub open spec fn consumes(e: ResolvedEdge, node: Seq<char>) -> bool {
    e.from@ == node
}

/// Whether no edge consumes what edge `e` produces: its cap is terminal.
pub open spec fn is_terminal(edges: Seq<ResolvedEdge>, e: int) -> bool {
    forall|x: int| 0 <= x < edges.len() ==> !consumes(#[trigger] edges[x], edges[e].to@)
}

/// The last terminal edge among the first `n`.
pub open spec fn terminal_among(edges: Seq<ResolvedEdge>, n: nat) -> Option<int>
    decreases n,
{
    if n == 0 {
        None
    } else if is_terminal(edges, n - 1) {
        Some(n - 1)
    } else {
        terminal_among(edges, (n - 1) as nat)
    }
}

/// The activity timeout of a segment.
pub open spec fn segment_timeout(edges: Seq<ResolvedEdge>) -> int {
    match terminal_among(edges, edges.len()) {
        Some(e) => activity_timeout(edges[e].cap.metadata@),
        None => DEFAULT_ACTIVITY_TIMEOUT_SECS as int,
    }
}

fn find_terminal(edges: &Vec<ResolvedEdge>) -> (r: Option<usize>)
    ensures
        match r {
            Some(e) => e < edges@.len() && terminal_among(edges@, edges@.len()) == Some(e as int),
            None => terminal_among(edges@, edges@.len()) is None,
        },
{
    let mut n: usize = edges.len();
    while n > 0
        invariant
            n <= edges@.len(),
            terminal_among(edges@, edges@.len()) == terminal_among(edges@, n as nat),
        decreases n,
    {
        let mut x: usize = 0;
        while x < edges.len() && !same(edges[x].from.as_str(), edges[n - 1].to.as_str())
            invariant
                0 < n <= edges@.len(),
                x <= edges@.len(),
                forall|i: int|
                    0 <= i < x ==> !consumes(#[trigger] edges@[i], edges@[n - 1].to@),
            decreases edges@.len() - x,
        {
            x = x + 1;
        }
        if x == edges.len() {
            return Some(n - 1);
        }
        assert(consumes(edges@[x as int], edges@[n - 1].to@));
        n = n - 1;
    }
    None
}

/// The per-item activity timeout for a segment, read from the metadata of the
/// segment's terminal cap, falling to the default only when the key is absent
/// or malformed, or the segment has no terminal cap.
pub fn segment_activity_timeout(graph: &ResolvedGraph) -> (secs: u64)
    ensures
        secs == segment_timeout(graph.edges@),
{
    match find_terminal(&graph.edges) {
        Some(e) => match graph.edges[e].cap.metadata.get("activity_timeout_secs") {
            Some(value) => match parse_u64_bounded(value.as_str(), u64::MAX) {
                Some(secs) => if secs > 0 {
                    secs
                } else {
                    DEFAULT_ACTIVITY_TIMEOUT_SECS
                },
                None => DEFAULT_ACTIVITY_TIMEOUT_SECS,
            },
            None => DEFAULT_ACTIVITY_TIMEOUT_SECS,
        },
        None => DEFAULT_ACTIVITY_TIMEOUT_SECS,
    }
}

// ---------------------------------------------------------------------------
// Further laws
// ---------------------------------------------------------------------------
proof fn lemma_edges_with(edges: Seq<ResolvedEdge>, key: GroupKey)
    ensures
        edges_with(edges, key) == edges.filter(
            |e: ResolvedEdge| e.to@ == key.0 && e.cap_urn@ == key.1,
        ),
    decreases edges.len(),
{
    let belongs = |e: ResolvedEdge| e.to@ == key.0 && e.cap_urn@ == key.1;
    reveal(Seq::filter);
    if edges.len() > 0 {
        lemma_edges_with(edges.drop_last(), key);
        assert(edges_with(edges, key) =~= edges.filter(belongs));
    } else {
        assert(edges_with(edges, key) =~= edges.filter(belongs));
    }
}

/// A group is one invocation: it holds exactly the edges with its target and its
/// cap, in their order, under the identity of the first of them; and no other
/// group has that target and cap.
pub proof fn a_group_holds_the_edges_of_its_invocation(
    edges: Seq<ResolvedEdge>,
    groups: Seq<EdgeGroup>,
    i: int,
    j: int,
)
    requires
        grouped(edges, groups),
        0 <= i < groups.len(),
        0 <= j < groups.len(),
    ensures
        ({
            let to = groups[i].to@;
            let cap_urn = groups[i].cap_urn@;
            groups[i].edges@ == edges.filter(
                |e: ResolvedEdge| e.to@ == to && e.cap_urn@ == cap_urn,
            )
        }),
        groups[i].edges@.len() > 0,
        groups[i].token_id == groups[i].edges@[0].token_id,
        groups[i].to@ == groups[j].to@ && groups[i].cap_urn@ == groups[j].cap_urn@ ==> i == j,
{
    let key = group_key(groups[i]);
    lemma_edges_with(edges, key);
    let to = groups[i].to@;
    let cap_urn = groups[i].cap_urn@;
    let keyed = |e: ResolvedEdge| e.to@ == key.0 && e.cap_urn@ == key.1;
    let named = |e: ResolvedEdge| e.to@ == to && e.cap_urn@ == cap_urn;
    assert(keyed =~= named);
    lemma_first_keys_distinct(edges);
    assert(group_keys(groups)[i] == group_key(groups[i]));
    assert(group_keys(groups)[j] == group_key(groups[j]));
}

/// Behind its head a chain runs along single links: each group has one input
/// edge, which takes what the group before it produces, and no other group
/// takes that.
pub proof fn a_chain_runs_along_single_links(
    groups: Seq<EdgeGroup>,
    order: Seq<usize>,
    c: int,
    p: int,
)
    requires
        topological(groups, order),
        groups.len() <= usize::MAX,
        0 <= c < chains_of(groups, order).len(),
        1 <= p < chains_of(groups, order)[c].len(),
    ensures
        ({
            let i = chains_of(groups, order)[c][p] as int;
            let d = chains_of(groups, order)[c][p - 1] as int;
            &&& groups[i].edges@.len() == 1
            &&& groups[i].edges@[0].from@ == groups[d].to@
            &&& forall|j: int, e: int|
                #![trigger groups[j].edges@[e]]
                0 <= j < groups.len() && j != d && 0 <= e < groups[j].edges@.len()
                    && groups[j].edges@[e].from@ == groups[d].to@ ==> j == i
            &&& forall|x: int|
                #![trigger groups[x]]
                0 <= x < groups.len() && x != i && groups[i].edges@[0].from@ == groups[x].to@ ==> x
                    == d
        }),
{
    let chain = chains_of(groups, order)[c];
    lemma_order_heads_in_range(groups, order, c);
    lemma_chain(groups, chain_heads(groups, order)[c], groups.len());
    let i = chain[p] as int;
    let d = chain[p - 1] as int;
    assert(follows(groups, chain[p] as int, chain[p - 1] as int));
    lemma_follows(groups, i, d);
    let e = choose|e: int| 0 <= e < groups[i].edges@.len() && #[trigger] fed_by(groups, i, e, d);
    assert(e == 0);
    assert forall|j: int, e: int|
        #![trigger groups[j].edges@[e]]
        0 <= j < groups.len() && j != d && 0 <= e < groups[j].edges@.len()
            && groups[j].edges@[e].from@ == groups[d].to@ implies j == i by {
        assert(fed_by(groups, j, e, d));
        assert(depends(groups, j, d));
    }
    assert forall|x: int|
        #![trigger groups[x]]
        0 <= x < groups.len() && x != i && groups[i].edges@[0].from@ == groups[x].to@ implies x
        == d by {
        assert(fed_by(groups, i, 0, x));
        assert(depends(groups, i, x));
    }
}

/// A chain is as long as its links go: a group with one input edge whose only
/// producer feeds nothing else stands right behind that producer.
pub proof fn a_single_link_is_never_broken(
    groups: Seq<EdgeGroup>,
    order: Seq<usize>,
    i: usize,
    d: usize,
) -> (at: (int, int))
    requires
        topological(groups, order),
        groups.len() <= usize::MAX,
        i < groups.len(),
        d < groups.len(),
        i != d,
        groups[i as int].edges@.len() == 1,
        groups[i as int].edges@[0].from@ == groups[d as int].to@,
        forall|x: int|
            #![trigger groups[x]]
            0 <= x < groups.len() && x != i && groups[i as int].edges@[0].from@ == groups[x].to@
                ==> x == d,
        forall|j: int, e: int|
            #![trigger groups[j].edges@[e]]
            0 <= j < groups.len() && j != d && 0 <= e < groups[j].edges@.len()
                && groups[j].edges@[e].from@ == groups[d as int].to@ ==> j == i,
    ensures
        at_chain(groups, order, at.0, at.1, d),
        at_chain(groups, order, at.0, at.1 + 1, i),
{
    lemma_single_link(groups, i as int, d as int);
    lemma_link_in_chain(groups, order, i, d)
}

proof fn lemma_single_link(groups: Seq<EdgeGroup>, i: int, d: int)
    requires
        0 <= i < groups.len(),
        0 <= d < groups.len(),
        i != d,
        groups[i].edges@.len() == 1,
        groups[i].edges@[0].from@ == groups[d].to@,
        forall|x: int|
            #![trigger groups[x]]
            0 <= x < groups.len() && x != i && groups[i].edges@[0].from@ == groups[x].to@ ==> x
                == d,
        forall|j: int, e: int|
            #![trigger groups[j].edges@[e]]
            0 <= j < groups.len() && j != d && 0 <= e < groups[j].edges@.len()
                && groups[j].edges@[e].from@ == groups[d].to@ ==> j == i,
    ensures
        follows(groups, i, d),
{
    reveal(follows);
    assert(fed_by(groups, i, 0, d));
    assert(depends(groups, i, d));
    assert forall|x: int| #[trigger] depends(groups, i, x) implies x == d by {
        let e = choose|e: int| 0 <= e < groups[i].edges@.len() && #[trigger] fed_by(groups, i, e, x);
        assert(e == 0);
    }
    assert forall|j: int| #[trigger] depends(groups, j, d) implies j == i by {
        let e = choose|e: int| 0 <= e < groups[j].edges@.len() && #[trigger] fed_by(groups, j, e, d);
        assert(groups[j].edges@[e].from@ == groups[d].to@);
    }
}

proof fn lemma_link_in_chain(
    groups: Seq<EdgeGroup>,
    order: Seq<usize>,
    i: usize,
    d: usize,
) -> (at: (int, int))
    requires
        topological(groups, order),
        groups.len() <= usize::MAX,
        i < groups.len(),
        d < groups.len(),
        follows(groups, i as int, d as int),
    ensures
        at_chain(groups, order, at.0, at.1, d),
        at_chain(groups, order, at.0, at.1 + 1, i),
{
    every_group_is_in_a_chain(groups, order, d);
    let (c, p) = choose|c: int, p: int| #[trigger] at_chain(groups, order, c, p, d);
    let chain = chains_of(groups, order)[c];
    lemma_order_heads_in_range(groups, order, c);
    lemma_chain(groups, chain_heads(groups, order)[c], groups.len());
    lemma_chain_is_short(groups, order, c);
    if p + 1 < chain.len() {
        assert(follows(groups, chain[p + 1] as int, chain[p + 1 - 1] as int));
        lemma_links_are_unique(groups, i as int, d as int, chain[p + 1] as int, chain[p] as int);
    } else {
        assert(chain.last() == d);
        assert(!follows(groups, i as int, chain.last() as int));
    }
    (c, p)
}

proof fn lemma_chain_is_short(groups: Seq<EdgeGroup>, order: Seq<usize>, c: int)
    requires
        topological(groups, order),
        groups.len() <= usize::MAX,
        0 <= c < chains_of(groups, order).len(),
    ensures
        chains_of(groups, order)[c].len() <= groups.len(),
{
    let chain = chains_of(groups, order)[c];
    let ints = chain.map_values(|i: usize| i as int);
    assert forall|a: int, b: int|
        0 <= a < ints.len() && 0 <= b < ints.len() && a != b implies ints[a] != ints[b] by {
        if chain[a] == chain[b] {
            assert(at_chain(groups, order, c, a, chain[a]));
            assert(at_chain(groups, order, c, b, chain[a]));
            no_group_is_in_two_chains(groups, order, c, a, c, b, chain[a]);
        }
    }
    assert(ints.no_duplicates());
    let range = vstd::set_lib::set_int_range(0, groups.len() as int);
    assert(ints.to_set().subset_of(range)) by {
        assert forall|x: int| ints.to_set().contains(x) implies range.contains(x) by {
            let k = choose|k: int| 0 <= k < ints.len() && ints[k] == x;
            lemma_chain_members(groups, order, c, k);
        }
    }
    vstd::set_lib::lemma_int_range(0, groups.len() as int);
    vstd::set_lib::lemma_len_subset(ints.to_set(), range);
    ints.unique_seq_to_set();
}

/// A chain is cut only where it must be: the groups on both sides of a cut share
/// a pool by name that one of them bounds.
pub proof fn a_cut_is_at_a_shared_bounded_pool(
    chain: Seq<usize>,
    pools: Seq<PoolChain>,
    s: int,
) -> (at: (int, int))
    requires
        1 <= s < segments_of(chain, pools).len(),
    ensures
        segments_of(chain, pools)[s - 1].len() > 0,
        segments_of(chain, pools)[s].len() > 0,
        ({
            let a = pools[segments_of(chain, pools)[s - 1].last() as int]@;
            let b = pools[segments_of(chain, pools)[s][0] as int]@;
            &&& 0 <= at.0 < a.len()
            &&& 0 <= at.1 < b.len()
            &&& a[at.0].0@ == b[at.1].0@
            &&& a[at.0].1 > 0 || b[at.1].1 > 0
        }),
    decreases chain.len(),
{
    let short = chain.drop_last();
    let before = segments_of(short, pools);
    let segs = segments_of(chain, pools);
    lemma_last_segment(short, pools);
    if s < before.len() {
        let at = a_cut_is_at_a_shared_bounded_pool(short, pools, s);
        assert(segs[s - 1] == before[s - 1]);
        assert(segs[s][0] == before[s][0]);
        at
    } else {
        let a = pools[chain[chain.len() - 2] as int]@;
        let b = pools[chain.last() as int]@;
        assert(shares_bounded_pool(a, b));
        assert(segs[s - 1] == before.last());
        assert(segs[s] == seq![chain.last()]);
        assert(short.last() == chain[chain.len() - 2]);
        let (x, y) = choose|x: int, y: int|
            0 <= x < a.len() && 0 <= y < b.len() && #[trigger] contends(a[x], b[y]);
        (x, y)
    }
}

/// Groups that share a pool which one of them bounds never stand next to each
/// other in one segment.
pub proof fn neighbours_share_no_bounded_pool(
    chain: Seq<usize>,
    pools: Seq<PoolChain>,
    s: int,
    p: int,
    x: int,
    y: int,
)
    requires
        0 <= s < segments_of(chain, pools).len(),
        1 <= p < segments_of(chain, pools)[s].len(),
        ({
            let a = pools[segments_of(chain, pools)[s][p - 1] as int]@;
            let b = pools[segments_of(chain, pools)[s][p] as int]@;
            0 <= x < a.len() && 0 <= y < b.len()
        }),
    ensures
        ({
            let a = pools[segments_of(chain, pools)[s][p - 1] as int]@;
            let b = pools[segments_of(chain, pools)[s][p] as int]@;
            a[x].0@ != b[y].0@ || (a[x].1 == 0 && b[y].1 == 0)
        }),
{
    a_segment_shares_no_bounded_pool(chain, pools, s, p);
    let a = pools[segments_of(chain, pools)[s][p - 1] as int]@;
    let b = pools[segments_of(chain, pools)[s][p] as int]@;
    assert(!contends(a[x], b[y]));
}

/// The segments of several chains are those of each, chain by chain.
pub proof fn every_chain_keeps_its_segments(chains: Seq<Seq<usize>>, pools: Seq<PoolChain>)
    ensures
        all_segments(chains, pools) == Seq::new(
            chains.len(),
            |c: int| segments_of(chains[c], pools),
        ).flatten(),
    decreases chains.len(),
{
    let each = Seq::new(chains.len(), |c: int| segments_of(chains[c], pools));
    each.lemma_flatten_and_flatten_alt_are_equivalent();
    if chains.len() > 0 {
        let short = chains.drop_last();
        every_chain_keeps_its_segments(short, pools);
        let before = Seq::new(short.len(), |c: int| segments_of(short[c], pools));
        before.lemma_flatten_and_flatten_alt_are_equivalent();
        assert(each.drop_last() =~= before);
    }
}

/// A timeout that a cap declares as a positive number of seconds is taken; where
/// it declares none, or something that is no such number, it is 120 seconds.
pub proof fn a_declared_timeout_is_taken(metadata: Map<Seq<char>, String>, n: nat)
    ensures
        metadata.contains_key("activity_timeout_secs"@) && metadata["activity_timeout_secs"@]@
            == text::decimal(n) && 0 < n <= u64::MAX ==> activity_timeout(metadata) == n,
        metadata.contains_key("activity_timeout_secs"@) && metadata["activity_timeout_secs"@]@
            == text::decimal(n) && (n == 0 || n > u64::MAX) ==> activity_timeout(metadata) == 120,
        !metadata.contains_key("activity_timeout_secs"@) ==> activity_timeout(metadata) == 120,
{
    text::decimals_are_read_back(n, u64::MAX as nat);
}

proof fn lemma_terminal_among(edges: Seq<ResolvedEdge>, n: nat, e: int)
    requires
        n <= edges.len(),
        0 <= e < n,
        is_terminal(edges, e),
        forall|x: int| e < x < n ==> !#[trigger] is_terminal(edges, x),
    ensures
        terminal_among(edges, n) == Some(e),
    decreases n,
{
    if e < n - 1 {
        assert(!is_terminal(edges, n - 1));
        lemma_terminal_among(edges, (n - 1) as nat, e);
    }
}

/// A segment's timeout is that of its terminal cap: of the edges whose output no
/// edge takes, the last one's.
pub proof fn the_terminal_cap_sets_the_timeout(edges: Seq<ResolvedEdge>, e: int)
    requires
        0 <= e < edges.len(),
        forall|x: int| 0 <= x < edges.len() ==> (#[trigger] edges[x]).from@ != edges[e].to@,
        forall|y: int|
            e < y < edges.len() ==> exists|x: int|
                0 <= x < edges.len() && (#[trigger] edges[x]).from@ == (#[trigger] edges[y]).to@,
    ensures
        segment_timeout(edges) == activity_timeout(edges[e].cap.metadata@),
{
    assert(is_terminal(edges, e));
    assert forall|y: int| e < y < edges.len() implies !#[trigger] is_terminal(edges, y) by {
        assert(edges[y].to@ == edges[y].to@);
        let x = choose|x: int|
            0 <= x < edges.len() && (#[trigger] edges[x]).from@ == edges[y].to@;
        assert(consumes(edges[x], edges[y].to@));
    }
    lemma_terminal_among(edges, edges.len(), e);
}

} // verus!
