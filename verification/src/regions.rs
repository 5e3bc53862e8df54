//! How a branching plan is cut into segments: the trunk that runs first, the
//! bodies of its ForEach regions, and what runs on the regions' collected
//! output.

use crate::cap;
use crate::cap::Cap;
use crate::executor_error::ExecutionError;
use crate::plan;
use crate::plan::{
    EdgeType, ExecutionNodeType, InputCardinality, MachineNode, MachinePlan, MachinePlanEdge,
    StepToken,
};
use crate::spool;
use crate::table::Table;
use crate::text;
use crate::text::{lists, same, sort};
use vstd::prelude::*;
use vstd::string::*;

verus! {

// ---------------------------------------------------------------------------
// Reachability
// ---------------------------------------------------------------------------
/// A step relation between nodes.
pub type Step = spec_fn(Seq<char>, Seq<char>) -> bool;

/// Whether a sequence of nodes goes step by step.
pub open spec fn walk(step: Step, w: Seq<Seq<char>>) -> bool {
    w.len() > 0 && forall|i: int| 0 <= i < w.len() - 1 ==> step(#[trigger] w[i], w[i + 1])
}

/// Whether a walk leads from one of the sources to `x`.
pub open spec fn reachable(step: Step, sources: Set<Seq<char>>, x: Seq<char>) -> bool {
    exists|w: Seq<Seq<char>>| #[trigger]
        walk(step, w) && sources.contains(w[0]) && w.last() == x
}

proof fn lemma_source_reachable(step: Step, sources: Set<Seq<char>>, x: Seq<char>)
    requires
        sources.contains(x),
    ensures
        reachable(step, sources, x),
{
    let w = seq![x];
    assert(walk(step, w));
}

proof fn lemma_step_reachable(step: Step, sources: Set<Seq<char>>, a: Seq<char>, b: Seq<char>)
    requires
        reachable(step, sources, a),
        step(a, b),
    ensures
        reachable(step, sources, b),
{
    let w = choose|w: Seq<Seq<char>>| #[trigger]
        walk(step, w) && sources.contains(w[0]) && w.last() == a;
    let longer = w.push(b);
    assert forall|i: int| 0 <= i < longer.len() - 1 implies step(
        #[trigger] longer[i],
        longer[i + 1],
    ) by {
        if i < w.len() - 1 {
            assert(longer[i] == w[i] && longer[i + 1] == w[i + 1]);
        }
    }
    assert(walk(step, longer));
}

/// A set that holds the sources and is closed under steps holds all that is
/// reachable.
proof fn lemma_closed_holds_reachable(
    step: Step,
    sources: Set<Seq<char>>,
    closed: Set<Seq<char>>,
    x: Seq<char>,
)
    requires
        sources.subset_of(closed),
        forall|a: Seq<char>, b: Seq<char>|
            closed.contains(a) && #[trigger] step(a, b) ==> closed.contains(b),
        reachable(step, sources, x),
    ensures
        closed.contains(x),
{
    let w = choose|w: Seq<Seq<char>>| #[trigger]
        walk(step, w) && sources.contains(w[0]) && w.last() == x;
    lemma_walk_stays(step, closed, w, w.len() - 1);
}

proof fn lemma_walk_stays(step: Step, closed: Set<Seq<char>>, w: Seq<Seq<char>>, i: int)
    requires
        walk(step, w),
        closed.contains(w[0]),
        forall|a: Seq<char>, b: Seq<char>|
            closed.contains(a) && #[trigger] step(a, b) ==> closed.contains(b),
        0 <= i < w.len(),
    ensures
        closed.contains(w[i]),
    decreases i,
{
    if i > 0 {
        lemma_walk_stays(step, closed, w, i - 1);
        assert(step(w[i - 1], w[i - 1 + 1]));
    }
}

/// What a longer list holds.
pub proof fn lemma_push(s: Seq<Seq<char>>, x: Seq<char>)
    ensures
        forall|y: Seq<char>| #[trigger] s.push(x).contains(y) <==> s.contains(y) || y == x,
        s.no_duplicates() && !s.contains(x) ==> s.push(x).no_duplicates(),
{
    let longer = s.push(x);
    assert forall|y: Seq<char>| #[trigger] longer.contains(y) <==> s.contains(y) || y == x by {
        if s.contains(y) {
            let j = choose|j: int| 0 <= j < s.len() && s[j] == y;
            assert(longer[j] == y);
        }
        if y == x {
            assert(longer[s.len() as int] == x);
        }
        if longer.contains(y) {
            let j = choose|j: int| 0 <= j < longer.len() && longer[j] == y;
            if j < s.len() {
                assert(s[j] == y);
            }
        }
    }
}

/// What one more element of a list brings.
pub proof fn lemma_take_more(s: Seq<Seq<char>>, i: int)
    requires
        0 <= i < s.len(),
    ensures
        forall|y: Seq<char>| #[trigger]
            s.take(i + 1).contains(y) <==> s.take(i).contains(y) || y == s[i],
        s.no_duplicates() ==> !s.take(i).contains(s[i]),
{
    assert(s.take(i + 1) =~= s.take(i).push(s[i]));
    lemma_push(s.take(i), s[i]);
    if s.no_duplicates() && s.take(i).contains(s[i]) {
        let short = s.take(i);
        let j = choose|j: int| 0 <= j < short.len() && short[j] == s[i];
        assert(s[j] == s[i]);
    }
}

/// How many edges lead to a node that is not listed.
spec fn unseen(edges: Seq<MachinePlanEdge>, seen: Seq<Seq<char>>) -> nat
    decreases edges.len(),
{
    if edges.len() == 0 {
        0
    } else {
        unseen(edges.drop_last(), seen) + (if seen.contains(edges.last().to_node@) {
            0nat
        } else {
            1nat
        })
    }
}

proof fn lemma_unseen_push(edges: Seq<MachinePlanEdge>, seen: Seq<Seq<char>>, x: Seq<char>)
    ensures
        unseen(edges, seen.push(x)) <= unseen(edges, seen),
        !seen.contains(x) && (exists|e: int|
            0 <= e < edges.len() && #[trigger] edges[e].to_node@ == x) ==> unseen(
            edges,
            seen.push(x),
        ) < unseen(edges, seen),
    decreases edges.len(),
{
    if edges.len() > 0 {
        let rest = edges.drop_last();
        lemma_unseen_push(rest, seen, x);
        let longer = seen.push(x);
        if seen.contains(edges.last().to_node@) {
            let i = choose|i: int| 0 <= i < seen.len() && seen[i] == edges.last().to_node@;
            assert(longer[i] == edges.last().to_node@);
        }
        if !seen.contains(x) && (exists|e: int|
            0 <= e < edges.len() && #[trigger] edges[e].to_node@ == x) {
            let e = choose|e: int| 0 <= e < edges.len() && #[trigger] edges[e].to_node@ == x;
            if e < rest.len() {
                assert(rest[e].to_node@ == x);
            } else {
                assert(longer[seen.len() as int] == x);
            }
        }
    }
}

// ---------------------------------------------------------------------------
// What runs after the regions
// ---------------------------------------------------------------------------
/// Whether an edge carries data between caps.
pub open spec fn carries_data(t: EdgeType) -> bool {
    t is Direct || t is Arg || t is Collection
}

/// Whether edge `e` carries data from `a` to `b`.
pub open spec fn flow_edge(e: MachinePlanEdge, a: Seq<char>, b: Seq<char>) -> bool {
    carries_data(e.edge_type) && e.from_node@ == a && e.to_node@ == b
}

/// Whether data flows from `a` to `b`.
pub open spec fn flows(edges: Seq<MachinePlanEdge>, a: Seq<char>, b: Seq<char>) -> bool {
    exists|e: int| 0 <= e < edges.len() && #[trigger] flow_edge(edges[e], a, b)
}

pub open spec fn flow_step(edges: Seq<MachinePlanEdge>) -> Step {
    |a: Seq<char>, b: Seq<char>| flows(edges, a, b)
}

/// Whether a node does work on data: a cap or a gather.
pub open spec fn works(nodes: Map<Seq<char>, MachineNode>, id: Seq<char>) -> bool {
    nodes.contains_key(id) && (nodes[id].node_type is Cap || nodes[id].node_type is Collect)
}

/// Whether a node depends, transitively over data-flow edges, on a region's
/// output and lies outside the regions.
pub open spec fn is_post_region(plan: MachinePlan, region_nodes: Seq<Seq<char>>, id: Seq<char>) -> bool {
    &&& works(plan.nodes@, id)
    &&& !region_nodes.contains(id)
    &&& reachable(flow_step(plan.edges@), region_nodes.to_set(), id)
}

fn is_flow(e: &MachinePlanEdge) -> (r: bool)
    ensures
        r == carries_data(e.edge_type),
{
    match &e.edge_type {
        EdgeType::Direct => true,
        EdgeType::Arg { .. } => true,
        EdgeType::Collection => true,
        EdgeType::Iteration => false,
    }
}

/// All nodes that data reaches from the sources, the sources included.
fn flow_closure(edges: &Vec<MachinePlanEdge>, sources: &Vec<String>) -> (seen: Vec<String>)
    ensures
        forall|x: Seq<char>| #[trigger]
            text::views(seen@).contains(x) <==> reachable(
                flow_step(edges@),
                text::views(sources@).to_set(),
                x,
            ),
        text::views(seen@).no_duplicates(),
{
    let ghost from = text::views(sources@).to_set();
    let ghost step = flow_step(edges@);
    let mut seen: Vec<String> = Vec::new();
    let mut s: usize = 0;
    while s < sources.len()
        invariant
            s <= sources@.len(),
            text::views(seen@).no_duplicates(),
            forall|x: Seq<char>| #[trigger]
                text::views(seen@).contains(x) <==> text::views(sources@).take(s as int).contains(
                    x,
                ),
        decreases sources@.len() - s,
    {
        proof {
            lemma_take_more(text::views(sources@), s as int);
        }
        if !lists(&seen, sources[s].as_str()) {
            proof {
                lemma_push(text::views(seen@), sources@[s as int]@);
            }
            let ghost before = text::views(seen@);
            seen.push(sources[s].clone());
            assert(text::views(seen@) =~= before.push(sources@[s as int]@));
        }
        s = s + 1;
    }
    proof {
        assert(text::views(sources@).take(s as int) =~= text::views(sources@));
        assert forall|x: Seq<char>| #[trigger] text::views(seen@).contains(x) implies reachable(
            step,
            from,
            x,
        ) by {
            lemma_source_reachable(step, from, x);
        }
        assert(from.subset_of(text::views(seen@).to_set())) by {
            assert forall|x: Seq<char>| from.contains(x) implies text::views(
                seen@,
            ).to_set().contains(x) by {
                assert(text::views(seen@).contains(x));
            }
        }
    }
    let mut i: usize = 0;
    while i < seen.len()
        invariant
            i <= seen@.len(),
            step == flow_step(edges@),
            from.subset_of(text::views(seen@).to_set()),
            text::views(seen@).no_duplicates(),
            forall|x: Seq<char>| #[trigger]
                text::views(seen@).contains(x) ==> reachable(step, from, x),
            forall|j: int, b: Seq<char>|
                0 <= j < i && #[trigger] flows(edges@, text::views(seen@)[j], b) ==> text::views(
                    seen@,
                ).contains(b),
        decreases unseen(edges@, text::views(seen@)), seen@.len() - i,
    {
        let ghost start = text::views(seen@);
        let mut e: usize = 0;
        while e < edges.len()
            invariant
                i < seen@.len(),
                e <= edges@.len(),
                step == flow_step(edges@),
                from.subset_of(text::views(seen@).to_set()),
                text::views(seen@).no_duplicates(),
                forall|x: Seq<char>| #[trigger]
                    text::views(seen@).contains(x) ==> reachable(step, from, x),
                forall|j: int, b: Seq<char>|
                    0 <= j < i && #[trigger] flows(edges@, text::views(seen@)[j], b)
                        ==> text::views(seen@).contains(b),
                forall|x: int, b: Seq<char>|
                    0 <= x < e && #[trigger] flow_edge(edges@[x], text::views(seen@)[i as int], b)
                        ==> text::views(seen@).contains(b),
                start.len() <= seen@.len(),
                seen@.len() == start.len() ==> text::views(seen@) == start,
                seen@.len() > start.len() ==> unseen(edges@, text::views(seen@)) < unseen(
                    edges@,
                    start,
                ),
            decreases edges@.len() - e,
        {
            let ghost before = text::views(seen@);
            if is_flow(&edges[e]) && same(edges[e].from_node.as_str(), seen[i].as_str())
                && !lists(&seen, edges[e].to_node.as_str()) {
                let ghost to = edges@[e as int].to_node@;
                proof {
                    assert(flow_edge(edges@[e as int], before[i as int], to));
                    assert(flows(edges@, before[i as int], to));
                    assert(before.contains(before[i as int]));
                    assert(step(before[i as int], to));
                    lemma_step_reachable(step, from, before[i as int], to);
                    assert(edges@[e as int].to_node@ == to);
                    lemma_unseen_push(edges@, before, to);
                }
                seen.push(edges[e].to_node.clone());
                proof {
                    let after = text::views(seen@);
                    assert(after =~= before.push(to));
                    lemma_push(before, to);
                    assert forall|x: Seq<char>| #[trigger] after.contains(x) implies reachable(
                        step,
                        from,
                        x,
                    ) by {
                        if x != to {
                            assert(before.contains(x));
                        }
                    }
                    assert forall|j: int, b: Seq<char>|
                        0 <= j < i && #[trigger] flows(edges@, after[j], b) implies after.contains(
                        b,
                    ) by {
                        assert(after[j] == before[j]);
                        assert(before.contains(b));
                    }
                    assert forall|x: int, b: Seq<char>|
                        0 <= x < e && #[trigger] flow_edge(
                            edges@[x],
                            after[i as int],
                            b,
                        ) implies after.contains(b) by {
                        assert(flow_edge(edges@[x], before[i as int], b));
                        assert(before.contains(b));
                    }
                    assert(from.subset_of(after.to_set())) by {
                        assert forall|x: Seq<char>| from.contains(x) implies after.to_set().contains(
                            x,
                        ) by {
                            assert(before.to_set().contains(x));
                            assert(before.contains(x));
                        }
                    }
                }
            }
            e = e + 1;
        }
        proof {
            assert forall|j: int, b: Seq<char>|
                0 <= j < i + 1 && #[trigger] flows(
                    edges@,
                    text::views(seen@)[j],
                    b,
                ) implies text::views(seen@).contains(b) by {
                if j == i {
                    let x = choose|x: int|
                        0 <= x < edges@.len() && #[trigger] flow_edge(
                            edges@[x],
                            text::views(seen@)[j],
                            b,
                        );
                    assert(flow_edge(edges@[x], text::views(seen@)[i as int], b));
                }
            }
        }
        i = i + 1;
    }
    proof {
        let closed = text::views(seen@).to_set();
        assert forall|a: Seq<char>, b: Seq<char>|
            closed.contains(a) && #[trigger] step(a, b) implies closed.contains(b) by {
            let all = text::views(seen@);
            assert(all.contains(a));
            let j = choose|j: int| 0 <= j < all.len() && all[j] == a;
            assert(flows(edges@, all[j], b));
        }
        assert forall|x: Seq<char>| reachable(step, from, x) implies #[trigger] text::views(
            seen@,
        ).contains(x) by {
            lemma_closed_holds_reachable(step, from, closed, x);
        }
    }
    seen
}

fn does_work(plan: &MachinePlan, id: &str) -> (r: bool)
    ensures
        r == works(plan.nodes@, id@),
{
    match plan.nodes.get(id) {
        Some(n) => match &n.node_type {
            ExecutionNodeType::Cap { .. } => true,
            ExecutionNodeType::Collect { .. } => true,
            _ => false,
        },
        None => false,
    }
}

/// The trunk caps that depend — transitively, over data-flow edges — on a
/// ForEach region's output: they can only run AFTER the regions (a fold cap
/// consuming the collected per-item sequence, and everything downstream of it).
/// Includes gather `Collect` nodes on the post side.
pub fn compute_post_region_caps(plan: &MachinePlan, region_nodes: &Vec<String>) -> (post: Vec<
    String,
>)
    ensures
        text::views(post@).no_duplicates(),
        forall|id: Seq<char>| #[trigger]
            text::views(post@).contains(id) <==> is_post_region(
                *plan,
                text::views(region_nodes@),
                id,
            ),
{
    let seen = flow_closure(&plan.edges, region_nodes);
    let mut post: Vec<String> = Vec::new();
    let mut i: usize = 0;
    while i < seen.len()
        invariant
            i <= seen@.len(),
            text::views(seen@).no_duplicates(),
            text::views(post@).no_duplicates(),
            forall|id: Seq<char>| #[trigger]
                text::views(post@).contains(id) <==> text::views(seen@).take(i as int).contains(id)
                    && works(plan.nodes@, id) && !text::views(region_nodes@).contains(id),
        decreases seen@.len() - i,
    {
        let ghost was = text::views(post@);
        let ghost x = seen@[i as int]@;
        proof {
            lemma_take_more(text::views(seen@), i as int);
        }
        if does_work(plan, seen[i].as_str()) && !lists(region_nodes, seen[i].as_str()) {
            post.push(seen[i].clone());
            proof {
                assert(text::views(post@) =~= was.push(x));
                assert(!was.contains(x));
                lemma_push(was, x);
            }
        }
        i = i + 1;
    }
    assert(text::views(seen@).take(i as int) =~= text::views(seen@));
    post
}

// ---------------------------------------------------------------------------
// Sub-plans
// ---------------------------------------------------------------------------
/// The nodes that a list of ids selects, each under its own id.
pub open spec fn picked(nodes: Map<Seq<char>, MachineNode>, ids: Seq<Seq<char>>) -> Map<
    Seq<char>,
    MachineNode,
>
    decreases ids.len(),
{
    if ids.len() == 0 {
        Map::empty()
    } else {
        let before = picked(nodes, ids.drop_last());
        if nodes.contains_key(ids.last()) {
            before.insert(nodes[ids.last()].id@, nodes[ids.last()])
        } else {
            before
        }
    }
}

/// Whether every node of a plan stands under its own id.
pub open spec fn keyed_by_id(nodes: Map<Seq<char>, MachineNode>) -> bool {
    forall|k: Seq<char>| #[trigger] nodes.contains_key(k) ==> nodes[k].id@ == k
}

/// Where every node stands under its own id, selecting ids selects exactly
/// their nodes.
pub proof fn selection_keeps_the_nodes(nodes: Map<Seq<char>, MachineNode>, ids: Seq<Seq<char>>)
    requires
        keyed_by_id(nodes),
    ensures
        picked(nodes, ids) == nodes.restrict(ids.to_set()),
    decreases ids.len(),
{
    if ids.len() == 0 {
        assert(picked(nodes, ids) =~= nodes.restrict(ids.to_set()));
    } else {
        let short = ids.drop_last();
        selection_keeps_the_nodes(nodes, short);
        assert(short.push(ids.last()) =~= ids);
        lemma_push(short, ids.last());
        assert forall|k: Seq<char>| ids.to_set().contains(k) <==> short.to_set().contains(k) || k
            == ids.last() by {
            assert(ids.contains(k) <==> short.contains(k) || k == ids.last());
        }
        assert(picked(nodes, ids) =~= nodes.restrict(ids.to_set()));
    }
}

/// Add the selected nodes of a plan to a sub-plan.
fn add_picked(sub: &mut MachinePlan, plan: &MachinePlan, ids: &Vec<String>)
    ensures
        final(sub).nodes@ == old(sub).nodes@.union_prefer_right(
            picked(plan.nodes@, text::views(ids@)),
        ),
        old(sub).nodes@ == Map::<Seq<char>, MachineNode>::empty() ==> final(sub).nodes@ == picked(
            plan.nodes@,
            text::views(ids@),
        ),
        final(sub).name == old(sub).name,
        final(sub).edges == old(sub).edges,
{
    let ghost all = text::views(ids@);
    let mut i: usize = 0;
    assert(all.take(0) =~= Seq::<Seq<char>>::empty());
    let ghost name = sub.name;
    let ghost edges = sub.edges;
    let ghost base = sub.nodes@;
    assert(base =~= base.union_prefer_right(picked(plan.nodes@, all.take(0))));
    while i < ids.len()
        invariant
            i <= ids@.len(),
            all == text::views(ids@),
            sub.name == name,
            sub.edges == edges,
            sub.nodes@ == base.union_prefer_right(picked(plan.nodes@, all.take(i as int))),
        decreases ids@.len() - i,
    {
        proof {
            assert(all.take(i + 1).drop_last() =~= all.take(i as int));
            assert(all.take(i + 1).last() == ids@[i as int]@);
        }
        if let Some(node) = plan.nodes.get(ids[i].as_str()) {
            sub.add_node(node.clone());
        }
        assert(sub.nodes@ =~= base.union_prefer_right(picked(plan.nodes@, all.take(i + 1))));
        i = i + 1;
    }
    assert(all.take(i as int) =~= all);
    assert(Map::<Seq<char>, MachineNode>::empty().union_prefer_right(picked(plan.nodes@, all))
        =~= picked(plan.nodes@, all));
}

/// Which edges a sub-plan keeps.
pub ghost enum EdgeRule {
    /// Data-flow edges into the listed nodes: external producers stay as root
    /// references.
    Into(Seq<Seq<char>>),
    /// Data-flow edges among the listed nodes.
    Among(Seq<Seq<char>>),
    /// The main and argument inputs among the listed nodes.
    Inputs(Seq<Seq<char>>),
}

/// Whether a sub-plan keeps an edge.
pub open spec fn keeps(rule: EdgeRule, e: MachinePlanEdge) -> bool {
    match rule {
        EdgeRule::Into(ids) => carries_data(e.edge_type) && ids.contains(e.to_node@),
        EdgeRule::Among(ids) => carries_data(e.edge_type) && ids.contains(e.from_node@)
            && ids.contains(e.to_node@),
        EdgeRule::Inputs(ids) => (e.edge_type is Direct || e.edge_type is Arg) && ids.contains(
            e.from_node@,
        ) && ids.contains(e.to_node@),
    }
}

/// The edges that a rule keeps, in their order.
pub open spec fn kept(rule: EdgeRule, edges: Seq<MachinePlanEdge>) -> Seq<MachinePlanEdge>
    decreases edges.len(),
{
    if edges.len() == 0 {
        Seq::empty()
    } else if keeps(rule, edges.last()) {
        kept(rule, edges.drop_last()).push(edges.last())
    } else {
        kept(rule, edges.drop_last())
    }
}

/// The post-region sub-plan: the post caps/Collects with every data-flow edge
/// INTO them (external producers stay as root references — their materialized
/// data seeds the segment's node table).
pub fn build_post_subplan(plan: &MachinePlan, post_ids: &Vec<String>) -> (post: MachinePlan)
    ensures
        post.name@ == plan.name@ + " [post-region]"@,
        post.nodes@ == picked(plan.nodes@, text::views(post_ids@)),
        post.edges@ == kept(EdgeRule::Into(text::views(post_ids@)), plan.edges@),
{
    let name = plan.name.clone().concat(" [post-region]");
    let mut post = MachinePlan::new(name.as_str());
    add_picked(&mut post, plan, post_ids);
    let ghost rule = EdgeRule::Into(text::views(post_ids@));
    let ghost all = plan.edges@;
    let mut e: usize = 0;
    assert(all.take(0) =~= Seq::<MachinePlanEdge>::empty());
    while e < plan.edges.len()
        invariant
            e <= plan.edges@.len(),
            all == plan.edges@,
            rule == EdgeRule::Into(text::views(post_ids@)),
            post.name@ == plan.name@ + " [post-region]"@,
            post.nodes@ == picked(plan.nodes@, text::views(post_ids@)),
            post.edges@ == kept(rule, all.take(e as int)),
        decreases plan.edges@.len() - e,
    {
        proof {
            assert(all.take(e + 1).drop_last() =~= all.take(e as int));
            assert(all.take(e + 1).last() == all[e as int]);
        }
        if is_flow(&plan.edges[e]) && lists(post_ids, plan.edges[e].to_node.as_str()) {
            post.add_edge(plan.edges[e].clone());
        }
        e = e + 1;
    }
    assert(all.take(e as int) =~= all);
    post
}

/// Whether a node belongs to the trunk: input slots, caps outside the excluded
/// ones, and gathers — plan conversion resolves these through into per-producer
/// edges, and the segment executor gathers at the consuming argument.
pub open spec fn in_trunk(
    nodes: Map<Seq<char>, MachineNode>,
    excluded: Seq<Seq<char>>,
    id: Seq<char>,
) -> bool {
    nodes.contains_key(id) && match nodes[id].node_type {
        ExecutionNodeType::InputSlot { .. } => true,
        ExecutionNodeType::Cap { .. } => !excluded.contains(id),
        ExecutionNodeType::Collect { output_media_urn } => output_media_urn is Some,
        _ => false,
    }
}

/// The ids of the trunk, in the plan's order.
pub open spec fn trunk_ids(
    nodes: Map<Seq<char>, MachineNode>,
    order: Seq<Seq<char>>,
    excluded: Seq<Seq<char>>,
) -> Seq<Seq<char>>
    decreases order.len(),
{
    if order.len() == 0 {
        Seq::empty()
    } else if in_trunk(nodes, excluded, order.last()) {
        trunk_ids(nodes, order.drop_last(), excluded).push(order.last())
    } else {
        trunk_ids(nodes, order.drop_last(), excluded)
    }
}

fn is_trunk_node(node: &MachineNode, excluded: &Vec<String>, id: &str) -> (r: bool)
    ensures
        r == match node.node_type {
            ExecutionNodeType::InputSlot { .. } => true,
            ExecutionNodeType::Cap { .. } => !text::views(excluded@).contains(id@),
            ExecutionNodeType::Collect { output_media_urn } => output_media_urn is Some,
            _ => false,
        },
{
    match &node.node_type {
        ExecutionNodeType::InputSlot { .. } => true,
        ExecutionNodeType::Cap { .. } => !lists(excluded, id),
        ExecutionNodeType::Collect { output_media_urn } => output_media_urn.is_some(),
        _ => false,
    }
}

/// The trunk sub-plan: input slots + every cap NOT excluded, with the data-flow
/// edges among them: the main input, any convergence input, and gather wiring.
/// ForEach nodes, excluded caps, and `Output` nodes are dropped — the resulting
/// graph is ForEach-free and fan-out-capable.
pub fn build_trunk_subplan(plan: &MachinePlan, excluded: &Vec<String>) -> (trunk: MachinePlan)
    ensures
        trunk.name@ == plan.name@ + " [trunk]"@,
        trunk.nodes@ == picked(
            plan.nodes@,
            trunk_ids(plan.nodes@, plan.nodes.order(), text::views(excluded@)),
        ),
        trunk.edges@ == kept(
            EdgeRule::Among(trunk_ids(plan.nodes@, plan.nodes.order(), text::views(excluded@))),
            plan.edges@,
        ),
{
    let name = plan.name.clone().concat(" [trunk]");
    let mut trunk = MachinePlan::new(name.as_str());
    let ghost order = plan.nodes.order();
    let ghost out = text::views(excluded@);
    let n: usize = plan.nodes.len();
    let mut ids: Vec<String> = Vec::new();
    let mut i: usize = 0;
    proof {
        assert(order.take(0) =~= Seq::<Seq<char>>::empty());
        assert(text::views(ids@) =~= Seq::<Seq<char>>::empty());
    }
    while i < n
        invariant
            n == order.len(),
            order == plan.nodes.order(),
            out == text::views(excluded@),
            i <= n,
            text::views(ids@) == trunk_ids(plan.nodes@, order.take(i as int), out),
        decreases n - i,
    {
        let ghost before = text::views(ids@);
        let id = plan.nodes.key_at(i);
        proof {
            assert(order.take(i + 1).drop_last() =~= order.take(i as int));
            assert(order.take(i + 1).last() == id@);
        }
        if is_trunk_node(plan.nodes.value_at(i), excluded, id.as_str()) {
            ids.push(id.clone());
            assert(text::views(ids@) =~= before.push(id@));
        }
        i = i + 1;
    }
    assert(order.take(i as int) =~= order);
    add_picked(&mut trunk, plan, &ids);
    let ghost rule = EdgeRule::Among(text::views(ids@));
    let ghost all = plan.edges@;
    let ghost nodes = trunk.nodes;
    let mut e: usize = 0;
    assert(all.take(0) =~= Seq::<MachinePlanEdge>::empty());
    while e < plan.edges.len()
        invariant
            e <= plan.edges@.len(),
            all == plan.edges@,
            rule == EdgeRule::Among(text::views(ids@)),
            trunk.name@ == plan.name@ + " [trunk]"@,
            trunk.nodes == nodes,
            trunk.edges@ == kept(rule, all.take(e as int)),
        decreases plan.edges@.len() - e,
    {
        proof {
            assert(all.take(e + 1).drop_last() =~= all.take(e as int));
            assert(all.take(e + 1).last() == all[e as int]);
        }
        if is_flow(&plan.edges[e]) && lists(&ids, plan.edges[e].from_node.as_str()) && lists(
            &ids,
            plan.edges[e].to_node.as_str(),
        ) {
            trunk.add_edge(plan.edges[e].clone());
        }
        e = e + 1;
    }
    assert(all.take(e as int) =~= all);
    trunk
}

proof fn lemma_trunk_ids(
    nodes: Map<Seq<char>, MachineNode>,
    order: Seq<Seq<char>>,
    excluded: Seq<Seq<char>>,
)
    ensures
        forall|id: Seq<char>| #[trigger]
            trunk_ids(nodes, order, excluded).contains(id) <==> order.contains(id) && in_trunk(
                nodes,
                excluded,
                id,
            ),
    decreases order.len(),
{
    if order.len() > 0 {
        let short = order.drop_last();
        lemma_trunk_ids(nodes, short, excluded);
        assert(short.push(order.last()) =~= order);
        lemma_push(short, order.last());
        lemma_push(trunk_ids(nodes, short, excluded), order.last());
    }
}

/// Every cap runs in exactly one place: inside a region, in the post-region
/// segment, or — where region and post caps are excluded from it — in the
/// trunk.
pub proof fn every_cap_runs_in_one_segment(
    plan: MachinePlan,
    region_nodes: Seq<Seq<char>>,
    excluded: Seq<Seq<char>>,
    id: Seq<char>,
)
    requires
        plan::is_cap_node(plan.nodes@, id),
        plan.nodes.order().contains(id),
        forall|x: Seq<char>| #[trigger]
            excluded.contains(x) <==> region_nodes.contains(x) || is_post_region(
                plan,
                region_nodes,
                x,
            ),
    ensures
        trunk_ids(plan.nodes@, plan.nodes.order(), excluded).contains(id) <==> !(
        region_nodes.contains(id) || is_post_region(plan, region_nodes, id)),
        !(region_nodes.contains(id) && is_post_region(plan, region_nodes, id)),
{
    lemma_trunk_ids(plan.nodes@, plan.nodes.order(), excluded);
}

/// The trunk never waits for a region: no data flows from a region or a
/// post-region node into a cap of the trunk.
pub proof fn the_trunk_needs_no_region(
    plan: MachinePlan,
    region_nodes: Seq<Seq<char>>,
    a: Seq<char>,
    b: Seq<char>,
)
    requires
        region_nodes.contains(a) || is_post_region(plan, region_nodes, a),
        flows(plan.edges@, a, b),
        plan::is_cap_node(plan.nodes@, b),
    ensures
        region_nodes.contains(b) || is_post_region(plan, region_nodes, b),
{
    let step = flow_step(plan.edges@);
    if region_nodes.contains(a) {
        lemma_source_reachable(step, region_nodes.to_set(), a);
    }
    assert(step(a, b));
    lemma_step_reachable(step, region_nodes.to_set(), a, b);
}

// ---------------------------------------------------------------------------
// Regions
// ---------------------------------------------------------------------------
/// One ForEach region: the per-item body subgraph mapped over `input_node`'s
/// sequence.
#[derive(Debug)]
pub struct Region {
    pub fe_id: String,
    /// Stable identity of the originating ForEach strand step. `fe_id` is only
    /// the planner-local node key and must never cross the run-state boundary.
    pub step_token_id: StepToken,
    /// The producer node whose sequence output this region iterates.
    pub input_node: String,
    /// The body's per-item entry cap (fed the single item).
    pub body_entry: String,
    /// Synthetic input-slot id for the body sub-plan.
    pub body_input_id: String,
    /// The item's media URN (the element type of the input sequence).
    pub item_media: String,
    /// Every cap node inside the body (in-body fan-out included).
    pub body_nodes: Vec<String>,
    /// Cap URNs of the body, for outcome reporting.
    pub body_cap_urns: Vec<String>,
}

/// The cap URN of a cap node.
pub open spec fn cap_urn_at(nodes: Map<Seq<char>, MachineNode>, id: Seq<char>) -> Seq<char> {
    nodes[id].node_type->cap_urn@
}

/// Whether a node belongs into a body that reaches it: the body's entry cap, or
/// a cap that takes single items. A cap whose input is a SEQUENCE closes the
/// region: it consumes the region's collected per-item output as one sequence.
pub open spec fn joins_body(
    plan: MachinePlan,
    caps: Map<Seq<char>, Cap>,
    entry: Seq<char>,
    id: Seq<char>,
) -> bool {
    &&& plan::is_cap_node(plan.nodes@, id)
    &&& id == entry || (caps.contains_key(cap_urn_at(plan.nodes@, id)) && !cap::input_is_sequence(
        caps[cap_urn_at(plan.nodes@, id)],
    ))
}

/// Whether edge `e` hands `a`'s output to `b` as its main input.
pub open spec fn direct_edge(e: MachinePlanEdge, a: Seq<char>, b: Seq<char>) -> bool {
    e.edge_type is Direct && e.from_node@ == a && e.to_node@ == b
}

pub open spec fn direct(edges: Seq<MachinePlanEdge>, a: Seq<char>, b: Seq<char>) -> bool {
    exists|e: int| 0 <= e < edges.len() && #[trigger] direct_edge(edges[e], a, b)
}

/// How a body is walked: from a node that joins it, along a main input.
pub open spec fn body_step(plan: MachinePlan, caps: Map<Seq<char>, Cap>, entry: Seq<char>) -> Step {
    |a: Seq<char>, b: Seq<char>| joins_body(plan, caps, entry, a) && direct(plan.edges@, a, b)
}

/// Whether the walk of a body comes to a node.
pub open spec fn visited(
    plan: MachinePlan,
    caps: Map<Seq<char>, Cap>,
    entry: Seq<char>,
    id: Seq<char>,
) -> bool {
    reachable(body_step(plan, caps, entry), set![entry], id)
}

/// Whether a node is part of the body.
pub open spec fn in_body(
    plan: MachinePlan,
    caps: Map<Seq<char>, Cap>,
    entry: Seq<char>,
    id: Seq<char>,
) -> bool {
    visited(plan, caps, entry, id) && joins_body(plan, caps, entry, id)
}

/// What is wrong with a node that the walk of a body comes to: a nested
/// ForEach, or a cap of unknown shape.
pub open spec fn body_fault(
    plan: MachinePlan,
    caps: Map<Seq<char>, Cap>,
    fe_id: Seq<char>,
    entry: Seq<char>,
    id: Seq<char>,
) -> Option<Seq<char>> {
    if !plan.nodes@.contains_key(id) {
        None
    } else {
        match plan.nodes@[id].node_type {
            ExecutionNodeType::ForEach { .. } => Some(
                "nested ForEach reached from body of '"@ + fe_id + "' at '"@ + id
                    + "' — unsupported"@,
            ),
            ExecutionNodeType::Cap { cap_urn } => if id != entry && !caps.contains_key(cap_urn@) {
                Some("cap '"@ + cap_urn@ + "' at '"@ + id + "' is not in the registry cache"@)
            } else {
                None
            },
            _ => None,
        }
    }
}

/// The body of a region, or what is wrong with a node of it.
fn walk_body(plan: &MachinePlan, caps: &Table<Cap>, fe_id: &str, entry: &String) -> (r: Result<
    Vec<String>,
    ExecutionError,
>)
    ensures
        match r {
            Ok(body) => {
                &&& text::views(body@).no_duplicates()
                &&& forall|id: Seq<char>| #[trigger]
                    text::views(body@).contains(id) <==> in_body(*plan, caps@, entry@, id)
                &&& forall|id: Seq<char>|
                    visited(*plan, caps@, entry@, id) ==> #[trigger] body_fault(
                        *plan,
                        caps@,
                        fe_id@,
                        entry@,
                        id,
                    ) is None
            },
            Err(e) => exists|id: Seq<char>|
                visited(*plan, caps@, entry@, id) && #[trigger] body_fault(
                    *plan,
                    caps@,
                    fe_id@,
                    entry@,
                    id,
                ) is Some && spool::host_error(
                    e,
                    body_fault(*plan, caps@, fe_id@, entry@, id)->0,
                ),
        },
{
    let edges = &plan.edges;
    let ghost step = body_step(*plan, caps@, entry@);
    let ghost from = set![entry@];
    let mut seen: Vec<String> = Vec::new();
    let mut body: Vec<String> = Vec::new();
    seen.push(entry.clone());
    proof {
        assert(text::views(seen@) =~= seq![entry@]);
        assert(text::views(seen@)[0] == entry@);
        lemma_source_reachable(step, from, entry@);
        assert(from.subset_of(text::views(seen@).to_set())) by {
            assert(text::views(seen@).contains(entry@));
        }
        assert(text::views(seen@).take(0) =~= Seq::<Seq<char>>::empty());
    }
    let mut i: usize = 0;
    while i < seen.len()
        invariant
            i <= seen@.len(),
            edges@ == plan.edges@,
            step == body_step(*plan, caps@, entry@),
            from == set![entry@],
            from.subset_of(text::views(seen@).to_set()),
            text::views(seen@).no_duplicates(),
            forall|x: Seq<char>| #[trigger]
                text::views(seen@).contains(x) ==> reachable(step, from, x),
            text::views(body@).no_duplicates(),
            forall|x: Seq<char>| #[trigger]
                text::views(body@).contains(x) <==> text::views(seen@).take(i as int).contains(x)
                    && joins_body(*plan, caps@, entry@, x),
            forall|j: int|
                0 <= j < i ==> body_fault(
                    *plan,
                    caps@,
                    fe_id@,
                    entry@,
                    #[trigger] text::views(seen@)[j],
                ) is None,
            forall|j: int, b: Seq<char>|
                0 <= j < i && joins_body(*plan, caps@, entry@, text::views(seen@)[j])
                    && #[trigger] direct(edges@, text::views(seen@)[j], b) ==> text::views(
                    seen@,
                ).contains(b),
        decreases unseen(edges@, text::views(seen@)), seen@.len() - i,
    {
        let ghost start = text::views(seen@);
        let ghost here = seen@[i as int]@;
        let ghost had = text::views(body@);
        proof {
            lemma_take_more(start, i as int);
            assert(start.contains(start[i as int]));
            assert(visited(*plan, caps@, entry@, here));
        }
        let nid = seen[i].as_str();
        let mut joins: bool = false;
        match plan.nodes.get(nid) {
            Some(node) => match &node.node_type {
                ExecutionNodeType::Cap { cap_urn } => {
                    if same(nid, entry.as_str()) {
                        joins = true;
                    } else {
                        match caps.get(cap_urn.as_str()) {
                            Some(cap) => {
                                // A fold consumer closes the region; it runs
                                // post-region.
                                joins = !cap.sequence_shape().0;
                            },
                            None => {
                                let message = "cap '".to_owned().concat(cap_urn.as_str()).concat(
                                    "' at '",
                                ).concat(nid).concat("' is not in the registry cache");
                                proof {
                                    assert(body_fault(
                                        *plan,
                                        caps@,
                                        fe_id@,
                                        entry@,
                                        here,
                                    ) is Some);
                                }
                                return Err(ExecutionError::HostError(message));
                            },
                        }
                    }
                },
                ExecutionNodeType::ForEach { .. } => {
                    let message = "nested ForEach reached from body of '".to_owned().concat(
                        fe_id,
                    ).concat("' at '").concat(nid).concat("' — unsupported");
                    proof {
                        assert(body_fault(*plan, caps@, fe_id@, entry@, here) is Some);
                    }
                    return Err(ExecutionError::HostError(message));
                },
                _ => {},
            },
            None => {},
        }
        assert(joins == joins_body(*plan, caps@, entry@, here));
        assert(body_fault(*plan, caps@, fe_id@, entry@, here) is None);
        if joins {
            body.push(seen[i].clone());
            proof {
                assert(text::views(body@) =~= had.push(here));
                assert(!had.contains(here));
                lemma_push(had, here);
            }
        }
        let mut e: usize = if joins {
            0
        } else {
            edges.len()
        };
        while e < edges.len()
            invariant
                i < seen@.len(),
                e <= edges@.len(),
                edges@ == plan.edges@,
                step == body_step(*plan, caps@, entry@),
                from == set![entry@],
                start.len() <= seen@.len(),
                forall|j: int| 0 <= j < start.len() ==> text::views(seen@)[j] == #[trigger] start[j],
                start.len() > i,
                start[i as int] == here,
                joins == joins_body(*plan, caps@, entry@, here),
                e < edges@.len() ==> joins,
                from.subset_of(text::views(seen@).to_set()),
                text::views(seen@).no_duplicates(),
                forall|x: Seq<char>| #[trigger]
                    text::views(seen@).contains(x) ==> reachable(step, from, x),
                forall|x: Seq<char>|
                    start.contains(x) ==> #[trigger] text::views(seen@).contains(x),
                forall|x: int, b: Seq<char>|
                    joins && 0 <= x < e && #[trigger] direct_edge(edges@[x], here, b)
                        ==> text::views(seen@).contains(b),
                seen@.len() == start.len() ==> text::views(seen@) == start,
                seen@.len() > start.len() ==> unseen(edges@, text::views(seen@)) < unseen(
                    edges@,
                    start,
                ),
            decreases edges@.len() - e,
        {
            let ghost before = text::views(seen@);
            let is_direct: bool = match &edges[e].edge_type {
                EdgeType::Direct => true,
                _ => false,
            };
            if is_direct && same(edges[e].from_node.as_str(), seen[i].as_str()) && !lists(
                &seen,
                edges[e].to_node.as_str(),
            ) {
                let ghost to = edges@[e as int].to_node@;
                proof {
                    assert(before[i as int] == here);
                    assert(direct_edge(edges@[e as int], here, to));
                    assert(direct(plan.edges@, here, to));
                    assert(step(here, to));
                    assert(before.contains(before[i as int]));
                    lemma_step_reachable(step, from, here, to);
                    assert(edges@[e as int].to_node@ == to);
                    lemma_unseen_push(edges@, before, to);
                    lemma_push(before, to);
                }
                seen.push(edges[e].to_node.clone());
                proof {
                    let after = text::views(seen@);
                    assert(after =~= before.push(to));
                    assert(from.subset_of(after.to_set())) by {
                        assert forall|x: Seq<char>| from.contains(x) implies after.to_set().contains(
                            x,
                        ) by {
                            assert(before.to_set().contains(x));
                            assert(before.contains(x));
                            assert(after.contains(x));
                        }
                    }
                    assert forall|j: int| 0 <= j < start.len() implies after[j]
                        == #[trigger] start[j] by {
                        assert(before[j] == start[j]);
                    }
                    assert forall|x: Seq<char>| start.contains(x) implies #[trigger] after.contains(
                        x,
                    ) by {
                        assert(before.contains(x));
                    }
                    assert forall|x: int, b: Seq<char>|
                        joins && 0 <= x < e && #[trigger] direct_edge(
                            edges@[x],
                            here,
                            b,
                        ) implies after.contains(b) by {
                        assert(before.contains(b));
                    }
                }
            }
            proof {
                assert forall|x: int, b: Seq<char>|
                    joins && 0 <= x < e + 1 && #[trigger] direct_edge(
                        edges@[x],
                        here,
                        b,
                    ) implies text::views(seen@).contains(b) by {
                    if x == e {
                        assert(text::views(seen@)[i as int] == here);
                    }
                }
            }
            e = e + 1;
        }
        proof {
            let now = text::views(seen@);
            let taken = now.take(i + 1);
            assert forall|j: int| 0 <= j < taken.len() implies #[trigger] taken[j] == start[j] by {
                assert(now[j] == start[j]);
            }
            assert(taken =~= start.take(i + 1));
            assert forall|j: int| 0 <= j < i + 1 implies body_fault(
                *plan,
                caps@,
                fe_id@,
                entry@,
                #[trigger] now[j],
            ) is None by {
                assert(now[j] == start[j]);
            }
            assert forall|j: int, b: Seq<char>|
                0 <= j < i + 1 && joins_body(*plan, caps@, entry@, now[j]) && #[trigger] direct(
                    edges@,
                    now[j],
                    b,
                ) implies now.contains(b) by {
                assert(now[j] == start[j]);
                if j == i {
                    let x = choose|x: int|
                        0 <= x < edges@.len() && #[trigger] direct_edge(edges@[x], now[j], b);
                    assert(direct_edge(edges@[x], here, b));
                } else {
                    assert(direct(edges@, start[j], b));
                    assert(start.contains(b));
                }
            }
        }
        i = i + 1;
    }
    proof {
        let all = text::views(seen@);
        let closed = all.to_set();
        assert(all.take(i as int) =~= all);
        assert forall|a: Seq<char>, b: Seq<char>|
            closed.contains(a) && #[trigger] step(a, b) implies closed.contains(b) by {
            assert(all.contains(a));
            let j = choose|j: int| 0 <= j < all.len() && all[j] == a;
            assert(direct(edges@, all[j], b));
        }
        assert forall|x: Seq<char>| visited(*plan, caps@, entry@, x) implies all.contains(x) by {
            lemma_closed_holds_reachable(step, from, closed, x);
        }
        assert forall|id: Seq<char>|
            visited(*plan, caps@, entry@, id) implies #[trigger] body_fault(
            *plan,
            caps@,
            fe_id@,
            entry@,
            id,
        ) is None by {
            assert(all.contains(id));
            let j = choose|j: int| 0 <= j < all.len() && all[j] == id;
            assert(body_fault(*plan, caps@, fe_id@, entry@, all[j]) is None);
        }
    }
    Ok(body)
}

/// Sorting keeps what a list holds.
pub proof fn lemma_same_elements(a: Seq<Seq<char>>, b: Seq<Seq<char>>)
    requires
        a.to_multiset() == b.to_multiset(),
    ensures
        forall|x: Seq<char>|
            #![trigger a.contains(x)]
            #![trigger b.contains(x)]
            a.contains(x) <==> b.contains(x),
        a.no_duplicates() ==> b.no_duplicates(),
{
    a.to_multiset_ensures();
    b.to_multiset_ensures();
    assert forall|x: Seq<char>|
        #![trigger a.contains(x)]
        #![trigger b.contains(x)]
        a.contains(x) <==> b.contains(x) by {
        assert(a.contains(x) <==> a.to_multiset().count(x) > 0);
        assert(b.contains(x) <==> b.to_multiset().count(x) > 0);
    }
    if a.no_duplicates() {
        a.lemma_multiset_has_no_duplicates();
        b.lemma_multiset_has_no_duplicates_conv();
    }
}

/// Whether a node is a ForEach.
pub open spec fn is_foreach(plan: MachinePlan, id: Seq<char>) -> bool {
    plan.nodes@.contains_key(id) && plan.nodes@[id].node_type is ForEach
}

/// The node that a ForEach iterates.
pub open spec fn foreach_input(plan: MachinePlan, id: Seq<char>) -> Seq<char> {
    plan.nodes@[id].node_type->ForEach_input_node@
}

/// The entry of a ForEach's body.
pub open spec fn foreach_entry(plan: MachinePlan, id: Seq<char>) -> Seq<char> {
    plan.nodes@[id].node_type->ForEach_body_entry@
}

/// What is known of the element types of iterated nodes: the item's media URN,
/// or why it cannot be derived.
pub type ItemMedia = Table<Result<String, String>>;

/// Whether the element type of every iterated node is known.
pub open spec fn covers_foreach(plan: MachinePlan, media: Map<Seq<char>, Result<String, String>>) -> bool {
    forall|id: Seq<char>| #[trigger]
        is_foreach(plan, id) ==> media.contains_key(foreach_input(plan, id))
}

/// Whether `r` is the region of its ForEach.
pub open spec fn is_region(
    plan: MachinePlan,
    caps: Map<Seq<char>, Cap>,
    media: Map<Seq<char>, Result<String, String>>,
    r: Region,
) -> bool {
    let id = r.fe_id@;
    &&& is_foreach(plan, id)
    &&& r.step_token_id == plan.nodes@[id].node_type->ForEach_token_id
    &&& r.input_node@ == foreach_input(plan, id)
    &&& r.body_entry@ == foreach_entry(plan, id)
    &&& r.body_input_id@ == id + "_body_input"@
    &&& media[r.input_node@] is Ok
    &&& r.item_media@ == media[r.input_node@]->Ok_0@
    &&& text::sorted(text::views(r.body_nodes@))
    &&& text::views(r.body_nodes@).no_duplicates()
    &&& forall|x: Seq<char>| #[trigger]
        text::views(r.body_nodes@).contains(x) <==> in_body(plan, caps, r.body_entry@, x)
    &&& r.body_cap_urns@.len() == r.body_nodes@.len()
    &&& forall|i: int|
        0 <= i < r.body_cap_urns@.len() ==> (#[trigger] r.body_cap_urns@[i])@ == cap_urn_at(
            plan.nodes@,
            r.body_nodes@[i]@,
        )
}

/// Whether `text` is a fault of the region of a ForEach.
pub open spec fn region_fault(
    plan: MachinePlan,
    caps: Map<Seq<char>, Cap>,
    media: Map<Seq<char>, Result<String, String>>,
    fe_id: Seq<char>,
    text: Seq<char>,
) -> bool {
    ||| exists|x: Seq<char>|
        visited(plan, caps, foreach_entry(plan, fe_id), x) && #[trigger] body_fault(
            plan,
            caps,
            fe_id,
            foreach_entry(plan, fe_id),
            x,
        ) == Some(text)
    ||| media[foreach_input(plan, fe_id)] is Err && text == "derive foreach item media for '"@
        + fe_id + "': "@ + media[foreach_input(plan, fe_id)]->Err_0@
}

/// The ids of regions.
pub open spec fn region_ids(regions: Seq<Region>) -> Seq<Seq<char>> {
    Seq::new(regions.len(), |i: int| regions[i].fe_id@)
}

fn region_of(plan: &MachinePlan, caps: &Table<Cap>, media: &ItemMedia, fe_id: &String) -> (r:
    Result<Region, ExecutionError>)
    requires
        is_foreach(*plan, fe_id@),
        covers_foreach(*plan, media@),
    ensures
        match r {
            Ok(region) => {
                &&& region.fe_id@ == fe_id@
                &&& is_region(*plan, caps@, media@, region)
                &&& forall|text: Seq<char>| !#[trigger] region_fault(
                    *plan,
                    caps@,
                    media@,
                    fe_id@,
                    text,
                )
            },
            Err(e) => exists|text: Seq<char>| #[trigger]
                region_fault(*plan, caps@, media@, fe_id@, text) && spool::host_error(e, text),
        },
{
    let node = match plan.nodes.get(fe_id.as_str()) {
        Some(n) => n,
        None => {
            return Err(ExecutionError::HostError(String::new()));
        },
    };
    let (token_id, input_node, body_entry) = match &node.node_type {
        ExecutionNodeType::ForEach { token_id, input_node, body_entry, .. } => (
            token_id,
            input_node,
            body_entry,
        ),
        _ => {
            return Err(ExecutionError::HostError(String::new()));
        },
    };
    let found = match walk_body(plan, caps, fe_id.as_str(), body_entry) {
        Ok(b) => b,
        Err(e) => {
            proof {
                let x = choose|x: Seq<char>|
                    visited(*plan, caps@, body_entry@, x) && #[trigger] body_fault(
                        *plan,
                        caps@,
                        fe_id@,
                        body_entry@,
                        x,
                    ) is Some && spool::host_error(
                        e,
                        body_fault(*plan, caps@, fe_id@, body_entry@, x)->0,
                    );
                let text = body_fault(*plan, caps@, fe_id@, body_entry@, x)->0;
                assert(body_fault(*plan, caps@, fe_id@, body_entry@, x) == Some(text));
                assert(region_fault(*plan, caps@, media@, fe_id@, text));
            }
            return Err(e);
        },
    };
    let ghost unsorted = text::views(found@);
    let body_nodes = sort(found);
    proof {
        lemma_same_elements(unsorted, text::views(body_nodes@));
    }
    let mut body_cap_urns: Vec<String> = Vec::new();
    let mut i: usize = 0;
    while i < body_nodes.len()
        invariant
            i <= body_nodes@.len(),
            forall|x: Seq<char>| #[trigger]
                text::views(body_nodes@).contains(x) ==> in_body(*plan, caps@, body_entry@, x),
            body_cap_urns@.len() == i,
            forall|j: int|
                0 <= j < i ==> (#[trigger] body_cap_urns@[j])@ == cap_urn_at(
                    plan.nodes@,
                    body_nodes@[j]@,
                ),
        decreases body_nodes@.len() - i,
    {
        proof {
            let x = text::views(body_nodes@)[i as int];
            assert(text::views(body_nodes@).contains(x));
        }
        if let Some(n) = plan.nodes.get(body_nodes[i].as_str()) {
            if let ExecutionNodeType::Cap { cap_urn } = &n.node_type {
                body_cap_urns.push(cap_urn.clone());
            }
        }
        i = i + 1;
    }
    let item_media = match media.get(input_node.as_str()) {
        Some(Ok(m)) => m.clone(),
        Some(Err(why)) => {
            let message = "derive foreach item media for '".to_owned().concat(
                fe_id.as_str(),
            ).concat("': ").concat(why.as_str());
            proof {
                assert(region_fault(*plan, caps@, media@, fe_id@, message@));
            }
            return Err(ExecutionError::HostError(message));
        },
        None => {
            return Err(ExecutionError::HostError(String::new()));
        },
    };
    proof {
        assert forall|text: Seq<char>| !#[trigger] region_fault(
            *plan,
            caps@,
            media@,
            fe_id@,
            text,
        ) by {
            assert(media@[input_node@] is Ok);
        }
    }
    Ok(
        Region {
            fe_id: fe_id.clone(),
            step_token_id: token_id.clone(),
            input_node: input_node.clone(),
            body_entry: body_entry.clone(),
            body_input_id: fe_id.clone().concat("_body_input"),
            item_media,
            body_nodes,
            body_cap_urns,
        },
    )
}

/// Compute the ForEach regions of a plan, ordered by their ids. Each ForEach
/// node defines a region whose body is every cap reachable from its entry via
/// `Direct` edges (in-body fan-out included), up to `Output` nodes and caps
/// that take a sequence.
///
/// `caps` holds the known capabilities by URN, `media` the element type of
/// every iterated node.
pub fn compute_regions(plan: &MachinePlan, caps: &Table<Cap>, media: &ItemMedia) -> (r: Result<
    Vec<Region>,
    ExecutionError,
>)
    requires
        covers_foreach(*plan, media@),
    ensures
        match r {
            Ok(regions) => {
                &&& text::sorted(region_ids(regions@))
                &&& region_ids(regions@).no_duplicates()
                &&& forall|id: Seq<char>| #[trigger]
                    region_ids(regions@).contains(id) <==> is_foreach(*plan, id)
                &&& forall|i: int|
                    0 <= i < regions@.len() ==> is_region(
                        *plan,
                        caps@,
                        media@,
                        #[trigger] regions@[i],
                    )
                &&& forall|id: Seq<char>, text: Seq<char>|
                    is_foreach(*plan, id) ==> !#[trigger] region_fault(
                        *plan,
                        caps@,
                        media@,
                        id,
                        text,
                    )
            },
            Err(e) => exists|id: Seq<char>, text: Seq<char>|
                is_foreach(*plan, id) && #[trigger] region_fault(*plan, caps@, media@, id, text)
                    && spool::host_error(e, text),
        },
{
    let n: usize = plan.nodes.len();
    let ghost order = plan.nodes.order();
    let mut found: Vec<String> = Vec::new();
    let mut i: usize = 0;
    while i < n
        invariant
            n == order.len(),
            order == plan.nodes.order(),
            order.no_duplicates(),
            i <= n,
            text::views(found@).no_duplicates(),
            forall|x: Seq<char>| #[trigger]
                text::views(found@).contains(x) <==> order.take(i as int).contains(x) && is_foreach(
                    *plan,
                    x,
                ),
        decreases n - i,
    {
        proof {
            lemma_take_more(order, i as int);
        }
        let is_fe: bool = match &plan.nodes.value_at(i).node_type {
            ExecutionNodeType::ForEach { .. } => true,
            _ => false,
        };
        if is_fe {
            let ghost before = text::views(found@);
            let id = plan.nodes.key_at(i).clone();
            let ghost name = id@;
            found.push(id);
            proof {
                assert(text::views(found@) =~= before.push(name));
                lemma_push(before, name);
            }
        }
        i = i + 1;
    }
    assert(order.take(i as int) =~= order);
    let ghost unsorted = text::views(found@);
    let ids = sort(found);
    proof {
        lemma_same_elements(unsorted, text::views(ids@));
    }
    let ghost names = text::views(ids@);
    let mut regions: Vec<Region> = Vec::new();
    let mut k: usize = 0;
    assert(region_ids(regions@) =~= names.take(0));
    while k < ids.len()
        invariant
            k <= ids@.len(),
            names == text::views(ids@),
            covers_foreach(*plan, media@),
            forall|x: Seq<char>| #[trigger] names.contains(x) ==> is_foreach(*plan, x),
            region_ids(regions@) == names.take(k as int),
            forall|j: int|
                0 <= j < regions@.len() ==> is_region(*plan, caps@, media@, #[trigger] regions@[j]),
            forall|j: int, text: Seq<char>|
                0 <= j < k ==> !#[trigger] region_fault(*plan, caps@, media@, names[j], text),
        decreases ids@.len() - k,
    {
        assert(names.contains(names[k as int]));
        let ghost before = regions@;
        match region_of(plan, caps, media, &ids[k]) {
            Ok(region) => {
                regions.push(region);
                proof {
                    assert(region_ids(regions@) =~= region_ids(before).push(names[k as int]));
                    assert(names.take(k + 1) =~= names.take(k as int).push(names[k as int]));
                }
            },
            Err(e) => {
                return Err(e);
            },
        }
        k = k + 1;
    }
    proof {
        assert(names.take(k as int) =~= names);
        assert forall|id: Seq<char>, text: Seq<char>|
            is_foreach(*plan, id) implies !#[trigger] region_fault(
            *plan,
            caps@,
            media@,
            id,
            text,
        ) by {
            assert(order.contains(id));
            assert(unsorted.contains(id));
            assert(names.contains(id));
            let j = choose|j: int| 0 <= j < names.len() && names[j] == id;
            assert(!region_fault(*plan, caps@, media@, names[j], text));
        }
        assert forall|id: Seq<char>| is_foreach(*plan, id) implies #[trigger] region_ids(
            regions@,
        ).contains(id) by {
            assert(order.contains(id));
            assert(unsorted.contains(id));
        }
    }
    Ok(regions)
}

/// Whether a node is the item slot of a region's body.
pub open spec fn is_item_slot(n: MachineNode, region: Region) -> bool {
    &&& n.id@ == region.body_input_id@
    &&& n.node_type matches ExecutionNodeType::InputSlot {
        slot_name,
        expected_media_urn,
        cardinality,
    }
    &&& slot_name@ == "item_input"@
    &&& expected_media_urn@ == region.item_media@
    &&& cardinality == InputCardinality::Single
}

/// The body sub-plan for a region: a synthetic input slot feeding the entry,
/// plus every body cap and the main and argument inputs among them. Run once
/// per item.
pub fn build_body_subplan(plan: &MachinePlan, region: &Region) -> (body: MachinePlan)
    ensures
        body.name@ == plan.name@ + " [foreach body "@ + region.fe_id@ + "]"@,
        exists|slot: MachineNode| #[trigger]
            is_item_slot(slot, *region) && body.nodes@ == Map::<Seq<char>, MachineNode>::empty().insert(
                region.body_input_id@,
                slot,
            ).union_prefer_right(picked(plan.nodes@, text::views(region.body_nodes@))),
        body.edges@.len() > 0,
        direct_edge(body.edges@[0], region.body_input_id@, region.body_entry@),
        body.edges@.skip(1) == kept(
            EdgeRule::Inputs(text::views(region.body_nodes@)),
            plan.edges@,
        ),
{
    let name = plan.name.clone().concat(" [foreach body ").concat(region.fe_id.as_str()).concat(
        "]",
    );
    let mut body = MachinePlan::new(name.as_str());
    let slot = MachineNode::input_slot(
        region.body_input_id.as_str(),
        "item_input",
        region.item_media.as_str(),
        InputCardinality::Single,
    );
    let ghost slot_node = slot;
    body.add_node(slot);
    add_picked(&mut body, plan, &region.body_nodes);
    body.add_edge(
        MachinePlanEdge::direct(region.body_input_id.as_str(), region.body_entry.as_str()),
    );
    assert(is_item_slot(slot_node, *region));
    let ids = &region.body_nodes;
    let ghost rule = EdgeRule::Inputs(text::views(ids@));
    let ghost all = plan.edges@;
    let ghost nodes = body.nodes;
    let ghost title = body.name;
    let ghost first = body.edges@[0];
    let mut e: usize = 0;
    assert(all.take(0) =~= Seq::<MachinePlanEdge>::empty());
    assert(body.edges@ =~= seq![first] + kept(rule, all.take(0)));
    while e < plan.edges.len()
        invariant
            e <= plan.edges@.len(),
            all == plan.edges@,
            rule == EdgeRule::Inputs(text::views(ids@)),
            body.name == title,
            body.nodes == nodes,
            body.edges@ == seq![first] + kept(rule, all.take(e as int)),
        decreases plan.edges@.len() - e,
    {
        proof {
            assert(all.take(e + 1).drop_last() =~= all.take(e as int));
            assert(all.take(e + 1).last() == all[e as int]);
        }
        let is_input: bool = match &plan.edges[e].edge_type {
            EdgeType::Direct => true,
            EdgeType::Arg { .. } => true,
            _ => false,
        };
        let ghost before = body.edges@;
        if is_input && lists(ids, plan.edges[e].from_node.as_str()) && lists(
            ids,
            plan.edges[e].to_node.as_str(),
        ) {
            body.add_edge(plan.edges[e].clone());
            assert(body.edges@ =~= seq![first] + kept(rule, all.take(e + 1)));
        }
        e = e + 1;
    }
    assert(all.take(e as int) =~= all);
    assert(body.edges@.skip(1) =~= kept(rule, all));
    body
}

/// Regions are disjoint: where every node has one producer, and the entries of
/// two different bodies are fed by their ForEach alone, no node is in both
/// bodies.
pub proof fn regions_are_disjoint(
    plan: MachinePlan,
    caps: Map<Seq<char>, Cap>,
    entry1: Seq<char>,
    entry2: Seq<char>,
    x: Seq<char>,
)
    requires
        forall|a: Seq<char>, b: Seq<char>, n: Seq<char>| #[trigger]
            direct(plan.edges@, a, n) && #[trigger] direct(plan.edges@, b, n) ==> a == b,
        forall|a: Seq<char>| !#[trigger] direct(plan.edges@, a, entry1),
        forall|a: Seq<char>| !#[trigger] direct(plan.edges@, a, entry2),
        entry1 != entry2,
    ensures
        !(in_body(plan, caps, entry1, x) && in_body(plan, caps, entry2, x)),
{
    if in_body(plan, caps, entry1, x) && in_body(plan, caps, entry2, x) {
        let s1 = body_step(plan, caps, entry1);
        let s2 = body_step(plan, caps, entry2);
        let w1 = choose|w: Seq<Seq<char>>| #[trigger]
            walk(s1, w) && set![entry1].contains(w[0]) && w.last() == x;
        let w2 = choose|w: Seq<Seq<char>>| #[trigger]
            walk(s2, w) && set![entry2].contains(w[0]) && w.last() == x;
        lemma_walks_differ(plan, caps, entry1, entry2, w1, w2, w1.len() - 1, w2.len() - 1);
    }
}

proof fn lemma_walks_differ(
    plan: MachinePlan,
    caps: Map<Seq<char>, Cap>,
    entry1: Seq<char>,
    entry2: Seq<char>,
    w1: Seq<Seq<char>>,
    w2: Seq<Seq<char>>,
    i: int,
    j: int,
)
    requires
        forall|a: Seq<char>, b: Seq<char>, n: Seq<char>| #[trigger]
            direct(plan.edges@, a, n) && #[trigger] direct(plan.edges@, b, n) ==> a == b,
        forall|a: Seq<char>| !#[trigger] direct(plan.edges@, a, entry1),
        forall|a: Seq<char>| !#[trigger] direct(plan.edges@, a, entry2),
        entry1 != entry2,
        walk(body_step(plan, caps, entry1), w1),
        walk(body_step(plan, caps, entry2), w2),
        w1[0] == entry1,
        w2[0] == entry2,
        0 <= i < w1.len(),
        0 <= j < w2.len(),
    ensures
        w1[i] != w2[j],
    decreases i,
{
    let s1 = body_step(plan, caps, entry1);
    let s2 = body_step(plan, caps, entry2);
    if i > 0 {
        assert(s1(w1[i - 1], w1[i - 1 + 1]));
        assert(direct(plan.edges@, w1[i - 1], w1[i]));
    }
    if j > 0 {
        assert(s2(w2[j - 1], w2[j - 1 + 1]));
        assert(direct(plan.edges@, w2[j - 1], w2[j]));
    }
    if i > 0 && j > 0 {
        lemma_walks_differ(plan, caps, entry1, entry2, w1, w2, i - 1, j - 1);
    }
}

// ---------------------------------------------------------------------------
// What sub-plans keep
// ---------------------------------------------------------------------------
proof fn lemma_kept(rule: EdgeRule, edges: Seq<MachinePlanEdge>)
    ensures
        kept(rule, edges) == edges.filter(|e: MachinePlanEdge| keeps(rule, e)),
    decreases edges.len(),
{
    let test = |e: MachinePlanEdge| keeps(rule, e);
    reveal(Seq::filter);
    if edges.len() > 0 {
        lemma_kept(rule, edges.drop_last());
        assert(kept(rule, edges) =~= edges.filter(test));
    } else {
        assert(kept(rule, edges) =~= edges.filter(test));
    }
}

/// A sub-plan keeps exactly the edges it is meant to, in plan order: the
/// post-region segment those that bring data into one of its nodes, the trunk
/// those that carry data between its nodes, a body the main and argument inputs
/// between its nodes.
pub proof fn a_sub_plan_keeps_its_edges(ids: Seq<Seq<char>>, edges: Seq<MachinePlanEdge>)
    ensures
        kept(EdgeRule::Into(ids), edges) == edges.filter(
            |e: MachinePlanEdge| !(e.edge_type is Iteration) && ids.contains(e.to_node@),
        ),
        kept(EdgeRule::Among(ids), edges) == edges.filter(
            |e: MachinePlanEdge|
                !(e.edge_type is Iteration) && ids.contains(e.from_node@) && ids.contains(
                    e.to_node@,
                ),
        ),
        kept(EdgeRule::Inputs(ids), edges) == edges.filter(
            |e: MachinePlanEdge|
                (e.edge_type is Direct || e.edge_type is Arg) && ids.contains(e.from_node@)
                    && ids.contains(e.to_node@),
        ),
{
    lemma_kept(EdgeRule::Into(ids), edges);
    lemma_kept(EdgeRule::Among(ids), edges);
    lemma_kept(EdgeRule::Inputs(ids), edges);
    let into = |e: MachinePlanEdge| keeps(EdgeRule::Into(ids), e);
    let among = |e: MachinePlanEdge| keeps(EdgeRule::Among(ids), e);
    let inputs = |e: MachinePlanEdge| keeps(EdgeRule::Inputs(ids), e);
    let into_direct = |e: MachinePlanEdge|
        !(e.edge_type is Iteration) && ids.contains(e.to_node@);
    let among_direct = |e: MachinePlanEdge|
        !(e.edge_type is Iteration) && ids.contains(e.from_node@) && ids.contains(e.to_node@);
    let inputs_direct = |e: MachinePlanEdge|
        (e.edge_type is Direct || e.edge_type is Arg) && ids.contains(e.from_node@)
            && ids.contains(e.to_node@);
    assert(into =~= into_direct);
    assert(among =~= among_direct);
    assert(inputs =~= inputs_direct);
}

/// The trunk holds the input slots, the caps that are not excluded and the
/// gathers that declare their media, in plan order.
pub proof fn the_trunk_holds_what_is_not_excluded(
    nodes: Map<Seq<char>, MachineNode>,
    order: Seq<Seq<char>>,
    excluded: Seq<Seq<char>>,
)
    requires
        forall|i: int| 0 <= i < order.len() ==> nodes.contains_key(#[trigger] order[i]),
    ensures
        trunk_ids(nodes, order, excluded) == order.filter(
            |id: Seq<char>|
                nodes[id].node_type is InputSlot || (nodes[id].node_type is Cap
                    && !excluded.contains(id)) || (nodes[id].node_type is Collect
                    && nodes[id].node_type->Collect_output_media_urn is Some),
        ),
    decreases order.len(),
{
    let test = |id: Seq<char>|
        nodes[id].node_type is InputSlot || (nodes[id].node_type is Cap && !excluded.contains(id))
            || (nodes[id].node_type is Collect
            && nodes[id].node_type->Collect_output_media_urn is Some);
    reveal(Seq::filter);
    if order.len() > 0 {
        let short = order.drop_last();
        assert forall|i: int| 0 <= i < short.len() implies nodes.contains_key(
            #[trigger] short[i],
        ) by {
            assert(short[i] == order[i]);
        }
        the_trunk_holds_what_is_not_excluded(nodes, short, excluded);
        assert(nodes.contains_key(order[order.len() - 1]));
        assert(trunk_ids(nodes, order, excluded) =~= order.filter(test));
    } else {
        assert(trunk_ids(nodes, order, excluded) =~= order.filter(test));
    }
}

/// A region's body starts with its entry and grows along the main inputs: a cap
/// that is fed by a body cap belongs to it as long as it takes single items; one
/// that takes a sequence ends it.
pub proof fn a_body_grows_along_single_items(
    plan: MachinePlan,
    caps: Map<Seq<char>, Cap>,
    entry: Seq<char>,
    a: Seq<char>,
    b: Seq<char>,
    e: int,
)
    requires
        plan.nodes@.contains_key(entry),
        plan.nodes@[entry].node_type is Cap,
    ensures
        in_body(plan, caps, entry, entry),
        ({
            let urn = plan.nodes@[b].node_type->cap_urn@;
            in_body(plan, caps, entry, a) && 0 <= e < plan.edges@.len()
                && plan.edges@[e].edge_type is Direct && plan.edges@[e].from_node@ == a
                && plan.edges@[e].to_node@ == b && plan.nodes@.contains_key(b)
                && plan.nodes@[b].node_type is Cap && b != entry && caps.contains_key(urn) ==> (
            in_body(plan, caps, entry, b) <==> !cap::input_is_sequence(caps[urn]))
        }),
        in_body(plan, caps, entry, b) ==> plan.nodes@.contains_key(b)
            && plan.nodes@[b].node_type is Cap,
{
    let step = body_step(plan, caps, entry);
    lemma_source_reachable(step, set![entry], entry);
    if in_body(plan, caps, entry, a) && 0 <= e < plan.edges@.len()
        && plan.edges@[e].edge_type is Direct && plan.edges@[e].from_node@ == a
        && plan.edges@[e].to_node@ == b {
        assert(direct_edge(plan.edges@[e], a, b));
        assert(step(a, b));
        lemma_step_reachable(step, set![entry], a, b);
    }
}

/// Nothing else is in a body: a set that holds the entry, and with a body cap
/// also every node that it feeds, holds the whole body.
pub proof fn a_body_holds_nothing_else(
    plan: MachinePlan,
    caps: Map<Seq<char>, Cap>,
    entry: Seq<char>,
    held: Set<Seq<char>>,
    x: Seq<char>,
)
    requires
        held.contains(entry),
        forall|e: int|
            0 <= e < plan.edges@.len() && (#[trigger] plan.edges@[e]).edge_type is Direct
                && held.contains(plan.edges@[e].from_node@) ==> held.contains(
                plan.edges@[e].to_node@,
            ),
        in_body(plan, caps, entry, x),
    ensures
        held.contains(x),
{
    let step = body_step(plan, caps, entry);
    assert forall|a: Seq<char>, b: Seq<char>|
        held.contains(a) && #[trigger] step(a, b) implies held.contains(b) by {
        let e = choose|e: int|
            0 <= e < plan.edges@.len() && #[trigger] direct_edge(plan.edges@[e], a, b);
        assert(plan.edges@[e].edge_type is Direct);
    }
    lemma_closed_holds_reachable(step, set![entry], held, x);
}

/// What runs after the regions depends on one: a set that holds the region nodes
/// and everything that data flows to from it holds every post-region node; and
/// every cap or gather outside of the regions that a region or post-region node
/// feeds is one.
pub proof fn post_region_nodes_depend_on_a_region(
    plan: MachinePlan,
    region_nodes: Seq<Seq<char>>,
    held: Set<Seq<char>>,
    a: Seq<char>,
    x: Seq<char>,
    e: int,
)
    requires
        forall|r: Seq<char>| #[trigger] region_nodes.contains(r) ==> held.contains(r),
        forall|i: int|
            0 <= i < plan.edges@.len() && !((#[trigger] plan.edges@[i]).edge_type is Iteration)
                && held.contains(plan.edges@[i].from_node@) ==> held.contains(
                plan.edges@[i].to_node@,
            ),
    ensures
        is_post_region(plan, region_nodes, x) ==> held.contains(x) && !region_nodes.contains(x),
        (region_nodes.contains(a) || is_post_region(plan, region_nodes, a)) && 0 <= e
            < plan.edges@.len() && !(plan.edges@[e].edge_type is Iteration)
            && plan.edges@[e].from_node@ == a && plan.edges@[e].to_node@ == x
            && plan.nodes@.contains_key(x) && (plan.nodes@[x].node_type is Cap
            || plan.nodes@[x].node_type is Collect) && !region_nodes.contains(x)
            ==> is_post_region(plan, region_nodes, x),
{
    let step = flow_step(plan.edges@);
    let sources = region_nodes.to_set();
    if is_post_region(plan, region_nodes, x) {
        assert forall|p: Seq<char>, q: Seq<char>|
            held.contains(p) && #[trigger] step(p, q) implies held.contains(q) by {
            let i = choose|i: int|
                0 <= i < plan.edges@.len() && #[trigger] flow_edge(plan.edges@[i], p, q);
            assert(!(plan.edges@[i].edge_type is Iteration));
        }
        assert(sources.subset_of(held)) by {
            assert forall|r: Seq<char>| sources.contains(r) implies held.contains(r) by {
                assert(region_nodes.contains(r));
            }
        }
        lemma_closed_holds_reachable(step, sources, held, x);
    }
    if (region_nodes.contains(a) || is_post_region(plan, region_nodes, a)) && 0 <= e
        < plan.edges@.len() && !(plan.edges@[e].edge_type is Iteration)
        && plan.edges@[e].from_node@ == a && plan.edges@[e].to_node@ == x {
        if region_nodes.contains(a) {
            assert(sources.contains(a));
            lemma_source_reachable(step, sources, a);
        }
        assert(flow_edge(plan.edges@[e], a, x));
        assert(step(a, x));
        lemma_step_reachable(step, sources, a, x);
    }
}

/// A region is the ForEach node that it stems from: its step, input and entry are
/// the node's, its items have the input's media, and its body lists every body
/// cap once with its URN.
pub proof fn a_region_is_its_foreach_node(
    plan: MachinePlan,
    caps: Map<Seq<char>, Cap>,
    media: Map<Seq<char>, Result<String, String>>,
    r: Region,
    i: int,
)
    requires
        is_region(plan, caps, media, r),
        0 <= i < r.body_nodes@.len(),
    ensures
        plan.nodes@.contains_key(r.fe_id@),
        plan.nodes@[r.fe_id@].node_type is ForEach,
        plan.nodes@[r.fe_id@].node_type->ForEach_token_id@ == r.step_token_id@,
        plan.nodes@[r.fe_id@].node_type->ForEach_input_node@ == r.input_node@,
        plan.nodes@[r.fe_id@].node_type->ForEach_body_entry@ == r.body_entry@,
        media[r.input_node@] is Ok && media[r.input_node@]->Ok_0@ == r.item_media@,
        in_body(plan, caps, r.body_entry@, r.body_nodes@[i]@),
        r.body_cap_urns@.len() == r.body_nodes@.len(),
        plan.nodes@[r.body_nodes@[i]@].node_type is Cap,
        r.body_cap_urns@[i]@ == plan.nodes@[r.body_nodes@[i]@].node_type->cap_urn@,
        forall|j: int|
            0 <= j < r.body_nodes@.len() && j != i ==> (#[trigger] r.body_nodes@[j])@
                != r.body_nodes@[i]@,
{
    let names = text::views(r.body_nodes@);
    assert(names[i] == r.body_nodes@[i]@);
    assert(names.contains(names[i]));
    assert(r.body_cap_urns@[i]@ == cap_urn_at(plan.nodes@, r.body_nodes@[i]@));
    assert forall|j: int| 0 <= j < r.body_nodes@.len() && j != i implies (
    #[trigger] r.body_nodes@[j])@ != r.body_nodes@[i]@ by {
        assert(names[j] == r.body_nodes@[j]@);
    }
}

} // verus!
