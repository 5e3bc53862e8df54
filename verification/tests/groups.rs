use capdag_orchestrator::cap::Cap;
use capdag_orchestrator::executor_error::ExecutionError;
use capdag_orchestrator::groups::{
    build_edge_groups, decompose_group_chains, segment_activity_timeout,
    split_chains_at_shared_bounded_pool, topological_sort_groups, ResolvedEdge, ResolvedGraph,
    DEFAULT_ACTIVITY_TIMEOUT_SECS,
};
use capdag_orchestrator::table::Table;
use capdag_orchestrator::urn::CapUrn;

fn pools(chain: &[&[(&str, usize)]]) -> Vec<Vec<(String, usize)>> {
    chain
        .iter()
        .map(|g| g.iter().map(|(k, c)| (k.to_string(), *c)).collect())
        .collect()
}

#[test]
fn test1448_chain_split_only_at_shared_bounded_pool_adjacency() {
    // encode(audiocartridge) → transcribe(candle) → generate(candle),
    // both candle caps in the shared bounded "gpu" pool: the electron
    // shape — ONE aggregated master slot, THREE caps, TWO cartridges.
    // The only boundary is between the two candle caps;
    // encode|transcribe streams.
    let chains = vec![vec![0, 1, 2]];
    let group_chain = pools(&[
        &[("audio/encode", 0), ("audio/all", 0)],
        &[("candle/transcribe", 0), ("candle/gpu", 1), ("candle/all", 0)],
        &[("candle/generate", 0), ("candle/gpu", 1), ("candle/all", 0)],
    ]);
    let split = split_chains_at_shared_bounded_pool(chains, &group_chain);
    assert_eq!(
        split,
        vec![vec![0, 1], vec![2]],
        "split exactly at the shared bounded-pool junction"
    );

    // Different cartridges everywhere — ONE live chain, no
    // materialisation, even with a bounded singleton in the middle.
    let chains = vec![vec![0, 1, 2]];
    let group_chain = pools(&[
        &[("a/x", 0), ("a/all", 0)],
        &[("b/y", 3), ("b/all", 0)],
        &[("c/z", 0), ("c/all", 0)],
    ]);
    let split = split_chains_at_shared_bounded_pool(chains, &group_chain);
    assert_eq!(split, vec![vec![0, 1, 2]], "different cartridges never split");

    // Same cartridge but every shared pool UNBOUNDED: no permit to
    // contend — stays one chain.
    let chains = vec![vec![0, 1]];
    let group_chain = pools(&[&[("d/x", 0), ("d/all", 0)], &[("d/y", 0), ("d/all", 0)]]);
    let split = split_chains_at_shared_bounded_pool(chains, &group_chain);
    assert_eq!(split, vec![vec![0, 1]], "unbounded same-cartridge streams");

    // Same cartridge, both caps bounded, but in DISJOINT bounded pools
    // (cpu vs gpu) with `all` unbounded: no shared permit — the pool
    // refinement over the old whole-cartridge domain. Streams.
    let chains = vec![vec![0, 1]];
    let group_chain = pools(&[
        &[("e/x", 1), ("e/cpu", 2), ("e/all", 0)],
        &[("e/y", 1), ("e/gpu", 1), ("e/all", 0)],
    ]);
    let split = split_chains_at_shared_bounded_pool(chains, &group_chain);
    assert_eq!(
        split,
        vec![vec![0, 1]],
        "disjoint bounded pools on one cartridge stream"
    );

    // Same cap twice in a row: the bounded SINGLETON is shared — split.
    let chains = vec![vec![0, 1]];
    let group_chain = pools(&[&[("f/x", 1), ("f/all", 0)], &[("f/x", 1), ("f/all", 0)]]);
    let split = split_chains_at_shared_bounded_pool(chains, &group_chain);
    assert_eq!(split, vec![vec![0], vec![1]], "shared bounded singleton splits");
}

fn edge(from: &str, to: &str, urn: &str) -> ResolvedEdge {
    let cap_urn = match CapUrn::from_string(urn) {
        Ok(u) => u,
        Err(e) => panic!("test cap URN: {}", e.detail()),
    };
    let cap = Cap::new(cap_urn, "t".to_string(), vec!["t".to_string()]);
    ResolvedEdge {
        token_id: format!("{}->{}", from, to),
        from: from.to_string(),
        to: to.to_string(),
        cap_urn: urn.to_string(),
        cap,
        in_media: "media:".to_string(),
        out_media: "media:".to_string(),
    }
}

#[test]
fn test1433_multi_edge_group_heads_a_chain() {
    // Gather shape: in→A, in2→B, then (A, B) → C on one cap.
    let cap_c = "cap:in=\"media:enc=utf-8\";fold;out=\"media:enc=utf-8;ext=txt\"";
    let edges = vec![
        edge(
            "in",
            "A",
            "cap:in=\"media:ext=pdf\";op-a;out=\"media:enc=utf-8\"",
        ),
        edge(
            "in2",
            "B",
            "cap:in=\"media:ext=md\";op-b;out=\"media:enc=utf-8\"",
        ),
        edge("A", "C", cap_c),
        edge("B", "C", cap_c),
    ];
    let groups = build_edge_groups(edges);
    assert_eq!(groups.len(), 3, "A, B, and the two-edge C group");
    let order = match topological_sort_groups(&groups) {
        Ok(o) => o,
        Err(_) => panic!("acyclic"),
    };
    let chains = decompose_group_chains(&groups, &order);
    assert_eq!(
        chains.len(),
        3,
        "the gather group must head its own chain, never continue A's or B's"
    );
    // Every chain containing the C group contains ONLY the C group.
    let c_idx = groups.iter().position(|g| g.to == "C").expect("C group");
    let c_chain = chains
        .iter()
        .find(|ch| ch.contains(&c_idx))
        .expect("C chained");
    assert_eq!(c_chain, &vec![c_idx]);

    // Control: a plain linear chain still fuses.
    let linear = vec![
        edge(
            "in",
            "A",
            "cap:in=\"media:ext=pdf\";op-a;out=\"media:enc=utf-8\"",
        ),
        edge(
            "A",
            "D",
            "cap:in=\"media:enc=utf-8\";op-d;out=\"media:enc=utf-8;ext=txt\"",
        ),
    ];
    let groups = build_edge_groups(linear);
    let order = match topological_sort_groups(&groups) {
        Ok(o) => o,
        Err(_) => panic!("acyclic"),
    };
    let chains = decompose_group_chains(&groups, &order);
    assert_eq!(
        chains.len(),
        1,
        "a dedicated single-edge consumer fuses into one chain"
    );
    assert_eq!(chains[0].len(), 2);
}

#[test]
fn a_group_takes_the_identity_of_its_first_edge() {
    let groups = build_edge_groups(vec![
        edge("a", "c", "cap:x"),
        edge("b", "d", "cap:y"),
        edge("b", "c", "cap:x"),
    ]);
    assert_eq!(groups.len(), 2);
    assert_eq!(groups[0].to, "c");
    assert_eq!(groups[0].token_id, "a->c");
    assert_eq!(groups[0].edges.len(), 2);
    assert_eq!(groups[0].edges[1].from, "b");
    assert_eq!(groups[1].to, "d");
}

#[test]
fn a_cyclic_graph_has_no_order() {
    let groups = build_edge_groups(vec![edge("a", "b", "cap:x"), edge("b", "a", "cap:y")]);
    match topological_sort_groups(&groups) {
        Ok(_) => panic!("a cycle must be refused"),
        Err(ExecutionError::CartridgeExecutionFailed { cap_urn, details, code, .. }) => {
            assert_eq!(cap_urn, "");
            assert_eq!(details, "Cycle detected in graph");
            assert!(code.is_none());
        }
        Err(other) => panic!("unexpected: {}", other.message()),
    }
}

#[test]
fn producers_come_before_their_consumers() {
    let groups = build_edge_groups(vec![
        edge("c", "d", "cap:z"),
        edge("a", "b", "cap:x"),
        edge("b", "c", "cap:y"),
    ]);
    let order = match topological_sort_groups(&groups) {
        Ok(o) => o,
        Err(e) => panic!("{}", e.message()),
    };
    assert_eq!(order, vec![1, 2, 0]);
    assert_eq!(decompose_group_chains(&groups, &order), vec![vec![1, 2, 0]]);
}

#[test]
fn fan_out_breaks_chains() {
    // a feeds b and c: both head their own chain.
    let groups = build_edge_groups(vec![
        edge("in", "a", "cap:p"),
        edge("a", "b", "cap:q"),
        edge("a", "c", "cap:r"),
    ]);
    let order = match topological_sort_groups(&groups) {
        Ok(o) => o,
        Err(e) => panic!("{}", e.message()),
    };
    let chains = decompose_group_chains(&groups, &order);
    assert_eq!(chains.len(), 3);
    assert_eq!(chains[0], vec![0]);
}

fn graph(edges: Vec<ResolvedEdge>) -> ResolvedGraph {
    ResolvedGraph {
        nodes: Table::new(),
        edges,
        graph_name: None,
    }
}

#[test]
fn the_activity_timeout_is_the_terminal_caps() {
    assert_eq!(
        segment_activity_timeout(&graph(Vec::new())),
        DEFAULT_ACTIVITY_TIMEOUT_SECS
    );
    let mut first = edge("in", "a", "cap:x");
    first
        .cap
        .metadata
        .insert("activity_timeout_secs".to_string(), "7".to_string());
    let mut last = edge("a", "b", "cap:y");
    last.cap
        .metadata
        .insert("activity_timeout_secs".to_string(), "300".to_string());
    assert_eq!(segment_activity_timeout(&graph(vec![first, last])), 300);

    let mut malformed = edge("a", "b", "cap:y");
    malformed
        .cap
        .metadata
        .insert("activity_timeout_secs".to_string(), "soon".to_string());
    assert_eq!(segment_activity_timeout(&graph(vec![malformed])), 120);
    let mut zero = edge("a", "b", "cap:y");
    zero.cap
        .metadata
        .insert("activity_timeout_secs".to_string(), "0".to_string());
    assert_eq!(segment_activity_timeout(&graph(vec![zero])), 120);
}

#[test]
fn a_group_runs_behind_all_producers_of_its_nodes() {
    let groups = build_edge_groups(vec![
        edge("in", "N", "cap:a"),
        edge("in", "N", "cap:b"),
        edge("N", "M", "cap:c"),
    ]);
    let order = match topological_sort_groups(&groups) {
        Ok(o) => o,
        Err(e) => panic!("{}", e.message()),
    };
    assert_eq!(order.len(), 3);
    assert_eq!(order[2], 2);
    // The consumer of two producers heads a chain of its own.
    let chains = decompose_group_chains(&groups, &order);
    assert_eq!(chains.len(), 3);
    assert_eq!(chains[2], vec![2]);
    // It waits wherever it is listed.
    let groups = build_edge_groups(vec![
        edge("N", "M", "cap:c"),
        edge("in", "N", "cap:a"),
        edge("in", "N", "cap:b"),
    ]);
    match topological_sort_groups(&groups) {
        Ok(order) => assert_eq!(order[2], 0),
        Err(e) => panic!("{}", e.message()),
    }
}
