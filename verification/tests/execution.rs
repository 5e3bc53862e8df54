use capdag_orchestrator::cap::{ArgSource, Cap, CapArg, CapOutput};
use capdag_orchestrator::chain::{
    admission_not_ready, admission_refused, collection_error, dispatch_failure,
    dispatch_not_ready, is_feed_bearing, next_in_media, settle_chain, sink_items,
    upstream_credit_outcome, Collected, SwitchFailure, TaskEnd,
};
use capdag_orchestrator::context::ExecutionContext;
use capdag_orchestrator::dag::{
    after_trace_failure, captures_transients, check_dag_flags, plan_dag, plan_sink, seed_segment,
    trace_label, ChainOutput, DagOutput, ForEachBodyCoordinate, NodeData, PlanInput, SinkData,
    WriterResult,
};
use capdag_orchestrator::execute_plan::{
    bad_selector, capture_failed, cut_plan, graph_failed, is_live_region_input, persist_sinks, plan_outputs,
    producer_is_sequence, subplan_cap_urns, terminal_cap, terminal_media, trunk_flags,
    trunk_outcome, OutputItem, PipelineResult, PlanState, RegionSource, TerminalOutput,
};
use capdag_orchestrator::executor_error::ExecutionError;
use capdag_orchestrator::failure::AttributionClass;
use capdag_orchestrator::feed::GatherMember;
use capdag_orchestrator::frame::StreamMeta;
use capdag_orchestrator::group_input::{
    plan_group_input, prepare_group_input, PreparedStream, StreamDelivery,
};
use capdag_orchestrator::groups::{build_edge_groups, ResolvedEdge, ResolvedGraph};
use capdag_orchestrator::plan::{InputCardinality, MachineNode, MachinePlan, MachinePlanEdge};
use capdag_orchestrator::region_run::{BodyResult, RegionRun, REGION_BODY_MAX_IN_FLIGHT};
use capdag_orchestrator::regions::Region;
use capdag_orchestrator::spool::{deliver, SpoolWriter};
use capdag_orchestrator::stream_io::StreamIoError;
use capdag_orchestrator::table::Table;
use capdag_orchestrator::terminal::TerminalMeta;
use capdag_orchestrator::transport::{decode_terminal_output, encode_bytes};
use capdag_orchestrator::urn::CapUrn;

fn cap(urn: &str) -> Cap {
    match CapUrn::from_string(urn) {
        Ok(u) => Cap::new(u, String::new(), Vec::new()),
        Err(e) => panic!("{}", e.detail()),
    }
}

fn edge(from: &str, to: &str, urn: &str, in_media: &str) -> ResolvedEdge {
    ResolvedEdge {
        token_id: format!("{from}->{to}"),
        from: from.to_string(),
        to: to.to_string(),
        cap_urn: urn.to_string(),
        cap: cap(urn),
        in_media: in_media.to_string(),
        out_media: "media:".to_string(),
    }
}

fn ctx_with(nodes: &[(&str, &[u8], bool)]) -> ExecutionContext {
    let mut ctx = ExecutionContext::new(0, 1024);
    for (node, data, seq) in nodes {
        ctx.set_node_data(node.to_string(), data.to_vec());
        ctx.set_node_is_sequence(node.to_string(), *seq);
    }
    ctx
}

fn text<T>(r: Result<T, ExecutionError>) -> String {
    match r {
        Ok(_) => panic!("expected a failure"),
        Err(e) => e.message(),
    }
}

fn ok<T>(r: Result<T, ExecutionError>) -> T {
    match r {
        Ok(v) => v,
        Err(e) => panic!("{}", e.message()),
    }
}

#[test]
fn the_context_keeps_its_node_maps_apart() {
    let mut ctx = ExecutionContext::new(0, 4096);
    assert_eq!(ctx.max_chunk(), 4096);
    ctx.update_max_chunk(100, 4096);
    assert_eq!(ctx.max_chunk(), 100);
    ctx.set_node_data("a".to_string(), b"x".to_vec());
    ctx.set_node_is_sequence("a".to_string(), true);
    ctx.set_node_live_reference("b".to_string(), "media:live".to_string());
    ctx.set_node_spool("c".to_string(), "/tmp/c".to_string());
    ctx.set_node_meta("d".to_string(), StreamMeta { encoded: vec![1] });
    assert_eq!(ctx.get_node_data("a"), Some(&b"x".to_vec()));
    assert_eq!(ctx.get_node_data("b"), None);
    assert!(ctx.is_node_sequence("a"));
    assert!(!ctx.is_node_sequence("b"));
    assert_eq!(ctx.node_live_reference().get("b").unwrap(), "media:live");
    assert_eq!(ctx.node_spool().get("c").unwrap(), "/tmp/c");
    assert_eq!(ctx.get_node_meta("d").unwrap().encoded, vec![1]);
    assert_eq!(ctx.node_meta().len(), 1);
    assert_eq!(ctx.node_is_sequence().len(), 1);
    ctx.node_data_mut().insert("e".to_string(), b"y".to_vec());
    ctx.node_meta_mut()
        .insert("e".to_string(), StreamMeta { encoded: vec![2] });
    assert_eq!(ctx.node_data().len(), 2);
    assert_eq!(ctx.shutdown().len(), 2);
}

#[test]
fn one_stream_goes_out_per_urn() {
    let groups = build_edge_groups(vec![
        edge("a", "c", "cap:x", "media:text;en"),
        edge("b", "c", "cap:x", "media:en;text"),
        edge("d", "c", "cap:x", "media:image"),
    ]);
    let ctx = ctx_with(&[("a", b"1", false), ("b", b"2", true), ("d", b"3", false)]);
    let streams = ok(plan_group_input(&groups[0], &Vec::new(), &ctx));
    assert_eq!(streams.len(), 2);
    assert_eq!(streams[0].label, "media:text;en");
    assert_eq!(streams[0].members.len(), 2);
    assert_eq!(streams[0].members[1].node, "b");
    assert!(streams[0].members[1].is_sequence);
    assert_eq!(streams[1].label, "media:image");
    let members = streams[0].gather_members(&ctx);
    match &members[1] {
        GatherMember::Memory { data, is_sequence } => {
            assert_eq!(data, b"2");
            assert!(*is_sequence);
        }
        _ => panic!("in memory"),
    }

    let mut def = cap("cap:x");
    assert!(text(streams[0].delivery("cap:x", &def)).contains("no cap arg declares that stream URN"));
    let mut arg = CapArg::new("media:text;en".to_string(), true, Vec::new());
    def.args = vec![arg];
    assert!(text(streams[0].delivery("cap:x", &def)).contains("receives 2 input streams"));
    arg = CapArg::new("media:text;en".to_string(), true, Vec::new());
    arg.is_sequence = true;
    def.args = vec![arg];
    assert!(ok(streams[0].delivery("cap:x", &def)) == StreamDelivery::Gather);
    assert!(ok(streams[1].delivery("cap:x", &def)) == StreamDelivery::Single);
}

#[test]
fn a_group_without_its_inputs_is_refused() {
    let groups = build_edge_groups(vec![edge("a", "c", "cap:x", "media:text")]);
    let none = Vec::new();
    assert_eq!(
        text(plan_group_input(&groups[0], &none, &ctx_with(&[]))),
        "Host error: Missing input data at node 'a' for cap 'cap:x'"
    );
    let mut unflagged = ExecutionContext::new(0, 1);
    unflagged.set_node_data("a".to_string(), Vec::new());
    assert!(text(plan_group_input(&groups[0], &none, &unflagged))
        .contains("Missing sequence flag at node 'a'"));

    let bad = build_edge_groups(vec![edge("a", "c", "cap:x", "text")]);
    assert!(text(plan_group_input(&bad[0], &none, &ctx_with(&[("a", b"", false)])))
        .contains("input arg URN 'text' for cap 'cap:x' is not a valid media URN"));
}

#[test]
fn extra_arguments_never_collide() {
    let groups = build_edge_groups(vec![edge("a", "c", "cap:x", "media:text")]);
    let ctx = ctx_with(&[("a", b"1", false)]);
    let args = vec![("media:w".to_string(), Vec::new()), ("media:text".to_string(), Vec::new())];
    assert!(text(plan_group_input(&groups[0], &args, &ctx))
        .contains("receives two input streams with the same arg URN 'media:text'"));
    let twice = vec![("media:w".to_string(), Vec::new()), ("media:w".to_string(), Vec::new())];
    assert!(plan_group_input(&groups[0], &twice, &ctx).is_err());
    let bad = vec![("w".to_string(), Vec::new())];
    assert!(text(plan_group_input(&groups[0], &bad, &ctx)).contains("is not a valid media URN"));
    let fine = vec![("media:w".to_string(), Vec::new())];
    assert_eq!(ok(plan_group_input(&groups[0], &fine, &ctx)).len(), 1);
}

#[test]
fn a_live_reference_keeps_its_urn_and_stays_alone() {
    let groups = build_edge_groups(vec![
        edge("a", "c", "cap:x", "media:audio"),
        edge("b", "c", "cap:x", "media:audio"),
    ]);
    let mut ctx = ctx_with(&[("a", b"sel", true), ("b", b"sel", true)]);
    ctx.set_node_live_reference("a".to_string(), "media:live;microphone".to_string());
    let streams = ok(plan_group_input(&groups[0], &Vec::new(), &ctx));
    assert_eq!(streams[0].label, "media:live;microphone");
    assert!(!streams[0].members[0].is_sequence);
    assert!(is_feed_bearing(&groups[0], &ctx));
    ctx.set_node_live_reference("b".to_string(), "media:microphone;live".to_string());
    assert!(text(plan_group_input(&groups[0], &Vec::new(), &ctx))
        .contains("two live-feed reference streams"));
    ctx.set_node_live_reference("a".to_string(), "nonsense".to_string());
    assert!(text(plan_group_input(&groups[0], &Vec::new(), &ctx))
        .contains("live-feed reference URN 'nonsense' at node 'a' is not a valid media URN"));
    assert!(!is_feed_bearing(&groups[0], &ctx_with(&[])));
}

#[test]
fn a_spooled_member_is_gathered_by_its_path() {
    let groups = build_edge_groups(vec![edge("a", "c", "cap:x", "media:audio")]);
    let mut ctx = ExecutionContext::new(0, 1);
    ctx.set_node_spool("a".to_string(), "/tmp/a".to_string());
    ctx.set_node_is_sequence("a".to_string(), true);
    let streams = ok(plan_group_input(&groups[0], &Vec::new(), &ctx));
    assert!(streams[0].members[0].spooled);
    match &streams[0].gather_members(&ctx)[0] {
        GatherMember::Spooled { path, is_sequence } => {
            assert_eq!(path, "/tmp/a");
            assert!(*is_sequence);
        }
        _ => panic!("spooled"),
    }
}

#[test]
fn an_invocations_input_is_prepared_in_order() {
    let mut groups = build_edge_groups(vec![
        edge("a", "c", "cap:x", "media:text"),
        edge("b", "c", "cap:x", "media:image"),
    ]);
    let mut ctx = ctx_with(&[("a", b"1", true)]);
    ctx.set_node_meta("a".to_string(), StreamMeta { encoded: vec![9] });
    ctx.set_node_spool("b".to_string(), "/tmp/b".to_string());
    ctx.set_node_is_sequence("b".to_string(), false);
    let extra = vec![("media:arg".to_string(), b"v".to_vec())];
    let p = ok(prepare_group_input(&groups[0], &extra, &ctx));
    assert!(p.failure.is_none());
    assert_eq!(p.streams.len(), 3);
    match &p.streams[0] {
        PreparedStream::Memory { label, data, meta, is_sequence } => {
            assert_eq!(label, "media:text");
            assert_eq!(data, b"1");
            assert_eq!(meta.as_ref().map(|m| m.encoded.clone()), Some(vec![9]));
            assert!(*is_sequence);
        }
        _ => panic!("in memory"),
    }
    match &p.streams[1] {
        PreparedStream::Spool { path, meta, is_sequence, .. } => {
            assert_eq!(path, "/tmp/b");
            assert!(meta.is_none());
            assert!(!*is_sequence);
        }
        _ => panic!("spooled"),
    }
    match &p.streams[2] {
        PreparedStream::Memory { label, data, .. } => {
            assert_eq!(label, "media:arg");
            assert_eq!(data, b"v");
        }
        _ => panic!("an argument"),
    }

    // Two payloads on one URN gather only into a sequence argument; the streams
    // before it still go out.
    groups[0].edges.push(edge("a", "c", "cap:x", "media:image"));
    let p = ok(prepare_group_input(&groups[0], &extra, &ctx));
    assert_eq!(p.streams.len(), 1);
    match p.failure {
        Some(e) => assert!(e.message().contains("no cap arg declares that stream URN")),
        None => panic!("refused"),
    }
    let mut arg = CapArg::new(
        "media:image".to_string(),
        true,
        vec![ArgSource::Stdin { stdin: "media:image".to_string() }],
    );
    arg.is_sequence = true;
    groups[0].edges[0].cap.args = vec![arg];
    let p = ok(prepare_group_input(&groups[0], &extra, &ctx));
    assert_eq!(p.streams.len(), 3);
    match &p.streams[1] {
        PreparedStream::Gather { members, .. } => assert_eq!(members.len(), 2),
        _ => panic!("gathered"),
    }
}

#[test]
fn a_hop_is_fed_by_exactly_one_edge() {
    let groups = build_edge_groups(vec![
        edge("in", "a", "cap:x", "media:one"),
        edge("a", "b", "cap:y", "media:two"),
        edge("a", "c", "cap:z", "media:three"),
        edge("a", "c", "cap:z", "media:four"),
    ]);
    assert_eq!(ok(next_in_media(&groups[0], &groups[1])), "media:two");
    assert!(text(next_in_media(&groups[0], &groups[2]))
        .contains("through multiple edges (args 'media:three' and 'media:four')"));
    assert!(text(next_in_media(&groups[1], &groups[2]))
        .contains("has no edge from its producer node 'b'"));
}

#[test]
fn the_switchs_classification_is_kept() {
    let urn = "cap:x".to_string();
    match dispatch_failure(
        &urn,
        SwitchFailure::CartridgeUnavailable { details: "gone".to_string() },
    ) {
        ExecutionError::CartridgeUnavailable { cap_urn, details } => {
            assert_eq!(cap_urn, "cap:x");
            assert_eq!(details, "gone");
        }
        other => panic!("{}", other.message()),
    }
    let other = dispatch_failure(&urn, SwitchFailure::Other { message: "m".to_string() });
    assert_eq!(other.message(), "Host error: execute_cap 'cap:x': m");
    let other = dispatch_failure(&urn, SwitchFailure::UnknownRequest { rid: "r".to_string() });
    assert_eq!(other.message(), "Host error: execute_cap 'cap:x': r");
    assert!(dispatch_not_ready("cap:x").message().contains("within 15s"));
    assert!(admission_not_ready("cap:x").message().contains("within 15s"));
    assert_eq!(
        admission_refused("cap:x", "why").message(),
        "Host error: resolve admission capacity for cap 'cap:x': why"
    );
}

#[test]
fn a_moot_grant_is_no_failure() {
    assert!(upstream_credit_outcome("c", Ok(())).is_ok());
    assert!(upstream_credit_outcome(
        "c",
        Err(SwitchFailure::UnknownRequest { rid: "r".to_string() })
    )
    .is_ok());
    assert_eq!(
        text(upstream_credit_outcome(
            "grant",
            Err(SwitchFailure::Other { message: "closed".to_string() })
        )),
        "Host error: grant: closed"
    );
    assert!(upstream_credit_outcome(
        "c",
        Err(SwitchFailure::CartridgeUnavailable { details: "d".to_string() })
    )
    .is_err());
}

#[test]
fn the_first_broken_task_decides() {
    let groups = build_edge_groups(vec![
        edge("in", "a", "cap:x", "media:"),
        edge("a", "b", "cap:y", "media:"),
        edge("b", "c", "cap:z", "media:"),
    ]);
    let host = |m: &str| ExecutionError::HostError(m.to_string());
    let collected = || {
        Ok(Collected {
            output_bytes: Vec::new(),
            is_sequence: None,
            meta: (),
        })
    };
    assert!(settle_chain(&groups, TaskEnd::Done, vec![TaskEnd::Done, TaskEnd::Done], collected()).is_ok());
    let e = match settle_chain(
        &groups,
        TaskEnd::Done,
        vec![TaskEnd::Done, TaskEnd::Panicked("boom".to_string())],
        collected(),
    ) {
        Ok(_) => panic!("a broken chain is not trustworthy"),
        Err(e) => e,
    };
    assert_eq!(e.step_token_id().unwrap(), "a->b");
    assert!(e.message().contains("Forwarding task 1 panicked: boom"), "{}", e.message());
    let e = match settle_chain(
        &groups,
        TaskEnd::Panicked("p".to_string()),
        vec![TaskEnd::Failed(host("late"))],
        Err::<Collected<()>, ExecutionError>(host("collect")),
    ) {
        Ok(_) => panic!("fails"),
        Err(e) => e,
    };
    assert!(e.message().contains("Input send task panicked: p"));
    assert_eq!(e.step_token_id().unwrap(), "in->a");
    let e = match settle_chain(
        &groups,
        TaskEnd::Done,
        vec![],
        Err::<Collected<()>, ExecutionError>(host("collect")),
    ) {
        Ok(_) => panic!("fails"),
        Err(e) => e,
    };
    assert_eq!(e.message(), "Host error: collect");
}

#[test]
fn a_collected_failure_keeps_its_identity() {
    let step = "tok".to_string();
    let e = collection_error(
        StreamIoError::Terminal {
            cap_urn: "cap:x".to_string(),
            code: Some("E1".to_string()),
            class: AttributionClass::Resource,
            details: "d".to_string(),
            arg_urn: None,
        },
        &step,
    );
    assert_eq!(e.step_token_id().unwrap(), "tok");
    assert_eq!(e.failure_code(), Some("E1"));
    assert!(e.attribution_class() == AttributionClass::Resource);
    let e = collection_error(StreamIoError::Protocol("p".to_string()), &step);
    assert!(e.step_token_id().is_none());
    let e = collection_error(
        StreamIoError::EffectContract {
            cap_urn: "cap:x".to_string(),
            effect: "none".to_string(),
            runtime_input: "media:".to_string(),
            expected: "media:".to_string(),
            actual: "media:a".to_string(),
        },
        &step,
    );
    assert_eq!(e.failure_cap_urn(), Some("cap:x"));
}

#[test]
fn what_is_on_disk_is_not_in_memory() {
    let bytes = match encode_bytes(b"abc".to_vec()) {
        Ok(b) => b,
        Err(_) => panic!("encodes"),
    };
    assert!(ok(sink_items(&bytes, Some(true), true)).is_empty());
    assert_eq!(ok(sink_items(&bytes, Some(true), false)), vec![b"abc".to_vec()]);
    assert!(sink_items(&vec![0x5a], None, false).is_err());
}

#[test]
fn node_data_resolves_to_bytes() {
    assert_eq!(ok(NodeData::Bytes(b"x".to_vec()).into_bytes(Ok(Vec::new()))), b"x");
    assert_eq!(
        ok(NodeData::Text("hé".to_string()).into_bytes(Ok(Vec::new()))),
        "hé".as_bytes()
    );
    let file = NodeData::FilePath("/f".to_string());
    assert_eq!(file.file_path(), Some("/f"));
    assert_eq!(
        text(file.into_bytes(Err("gone".to_string()))),
        "Host error: Failed to read file '/f': gone"
    );
}

fn inputs(names: &[&str]) -> Table<PlanInput> {
    let mut t = Table::new();
    for n in names {
        t.insert(n.to_string(), PlanInput::Bytes(n.as_bytes().to_vec()));
    }
    t
}

fn flags(entries: &[(&str, bool)]) -> Table<bool> {
    let mut t = Table::new();
    for (n, b) in entries {
        t.insert(n.to_string(), *b);
    }
    t
}

#[test]
fn inputs_and_flags_correspond_one_to_one() {
    assert!(check_dag_flags(&inputs(&["a"]), &flags(&[("a", true)])).is_ok());
    assert_eq!(
        text(check_dag_flags(&inputs(&["a", "b"]), &flags(&[("a", true)]))),
        "Host error: execute_dag: initial_is_sequence is missing entries for input node(s) [\"b\"]. Every entry in `initial_inputs` requires an explicit sequence/scalar flag — see machfab's `resolve_inputs` for the canonical population pattern."
    );
    assert!(text(check_dag_flags(&inputs(&["a"]), &flags(&[("a", true), ("z", false), ("y", false)])))
        .contains("[\"z\", \"y\"]"));

    let mut ctx = ExecutionContext::new(0, 1);
    assert_eq!(
        text(seed_segment(&mut ctx, inputs(&["a"]), &flags(&[]))),
        "Host error: run_segment: initial_is_sequence is missing flags for input node(s) [\"a\"]"
    );
    assert_eq!(
        text(seed_segment(&mut ctx, inputs(&[]), &flags(&[("a", true)]))),
        "Host error: run_segment: initial_is_sequence has stale flags for node(s) [\"a\"]"
    );
}

#[test]
fn test1449_live_reference_reaches_segment_intact() {
    let mut ctx = ExecutionContext::new(0, 1);
    let mut roots = inputs(&["plain"]);
    roots.insert(
        "input".to_string(),
        PlanInput::LiveReference {
            reference_urn: "media:audio;live;microphone".to_string(),
            selector: b"{\"stop\":{\"duration_ms\":5000}}".to_vec(),
        },
    );
    ok(seed_segment(&mut ctx, roots, &flags(&[("input", true), ("plain", false)])));
    assert_eq!(
        ctx.node_live_reference().get("input").unwrap(),
        "media:audio;live;microphone"
    );
    assert_eq!(
        ctx.get_node_data("input").unwrap(),
        b"{\"stop\":{\"duration_ms\":5000}}"
    );
    assert!(ctx.is_node_sequence("input"), "a live feed is a sequence at its anchor");
    assert!(ctx.node_live_reference().get("plain").is_none());
    assert_eq!(ctx.get_node_data("plain").unwrap(), b"plain");
}

#[test]
fn a_dag_is_grouped_ordered_and_cut() {
    let plan = ok(plan_dag(vec![
        edge("a", "b", "cap:y", "media:"),
        edge("in", "a", "cap:x", "media:"),
    ]));
    assert_eq!(plan.order, vec![1, 0]);
    let free = vec![Vec::new(), Vec::new()];
    assert_eq!(plan.chains(&free), vec![vec![1, 0]]);
    let pool = vec![vec![("gpu".to_string(), 1)], vec![("gpu".to_string(), 1)]];
    assert_eq!(plan.chains(&pool), vec![vec![1], vec![0]]);
    assert!(plan_dag(vec![edge("a", "b", "cap:y", "media:"), edge("b", "a", "cap:x", "media:")]).is_err());
}

#[test]
fn sinks_are_written_spooled_or_kept() {
    let terminals = vec!["t".to_string()];
    let p = plan_sink("t", &terminals, true);
    assert!(p.writer && !p.spool);
    let p = plan_sink("t", &terminals, false);
    assert!(!p.writer && !p.spool);
    let p = plan_sink("mid", &terminals, true);
    assert!(!p.writer && p.spool);
    assert!(captures_transients(true, &None));
    let body = ForEachBodyCoordinate { foreach_token_id: "f".to_string(), body_index: 0 };
    assert!(!captures_transients(true, &Some(body)));
    assert!(!captures_transients(false, &None));
}

fn writer_result(path: &str, bytes: usize, is_sequence: bool) -> WriterResult {
    WriterResult {
        is_sequence,
        media_urn: "media:".to_string(),
        saved_paths: vec![path.to_string()],
        total_bytes: bytes,
        stream_meta: None,
        item_metas: Vec::new(),
    }
}

fn chain_output(items: &[&[u8]], is_sequence: bool) -> ChainOutput {
    ChainOutput {
        items: items.iter().map(|i| i.to_vec()).collect(),
        is_sequence,
        meta: TerminalMeta::new(),
    }
}

#[test]
fn a_sink_is_recorded_in_one_place() {
    let mut ctx = ctx_with(&[("in", b"seed", false)]);
    let mut out = DagOutput::seeded(&ctx);
    assert_eq!(out.node_data.get("in").unwrap(), &vec![b"seed".to_vec()]);

    out.record_chain(&mut ctx, &"seq".to_string(), chain_output(&[b"a", b"b"], true), SinkData::Memory);
    match decode_terminal_output(ctx.get_node_data("seq").unwrap(), Some(true)) {
        Ok(items) => assert_eq!(items, vec![b"a".to_vec(), b"b".to_vec()]),
        Err(e) => panic!("{}", e.message()),
    }
    assert!(ctx.is_node_sequence("seq"));
    out.record_chain(&mut ctx, &"one".to_string(), chain_output(&[b"raw"], false), SinkData::Memory);
    assert_eq!(ctx.get_node_data("one").unwrap(), b"raw");
    out.record_chain(&mut ctx, &"none".to_string(), chain_output(&[], false), SinkData::Memory);
    assert!(ctx.get_node_data("none").unwrap().is_empty());

    out.record_chain(
        &mut ctx,
        &"w".to_string(),
        chain_output(&[], false),
        SinkData::Written(writer_result("p", 3, false)),
    );
    assert!(ctx.get_node_data("w").is_none());
    assert_eq!(out.writer_results.get("w").unwrap().len(), 1);
    assert!(out.node_data.get("w").unwrap().is_empty());

    let mut spool = SpoolWriter::new("/tmp/s".to_string());
    assert!(spool.on_stream_start(Some(true), Some(StreamMeta { encoded: vec![7] })).is_ok());
    out.record_chain(
        &mut ctx,
        &"s".to_string(),
        chain_output(&[], true),
        SinkData::Spooled { spool, path: "/adopted".to_string() },
    );
    assert_eq!(ctx.node_spool().get("s").unwrap(), "/adopted");
    assert_eq!(ctx.get_node_meta("s").unwrap().encoded, vec![7]);
    assert_eq!(out.node_spool.get("s").unwrap(), "/adopted");
    assert!(out.node_data.get("s").is_none(), "memory OR spool, never both");
    assert_eq!(out.terminal_meta.len(), 5);
}

#[test]
fn a_trace_failure_never_hides_a_failure() {
    let e = after_trace_failure(Ok(1), "cap:x", "disk full");
    assert_eq!(
        text(e),
        "Host error: protocol trace write failed for segment 'cap:x': disk full"
    );
    let e = after_trace_failure(
        Err::<i32, ExecutionError>(ExecutionError::HostError("first".to_string())),
        "cap:x",
        "disk full",
    );
    assert_eq!(text(e), "Host error: first");
    let graph = ResolvedGraph { nodes: Table::new(), edges: Vec::new(), graph_name: None };
    assert_eq!(trace_label(&graph), "empty-graph");
    let graph = ResolvedGraph {
        nodes: Table::new(),
        edges: vec![edge("a", "b", "cap:last", "media:")],
        graph_name: None,
    };
    assert_eq!(trace_label(&graph), "cap:last");
}

fn small_plan() -> MachinePlan {
    let mut plan = MachinePlan::new("p");
    plan.add_node(MachineNode::input_slot("in", "in", "media:doc", InputCardinality::Sequence));
    plan.add_node(MachineNode::cap("c", "cap:x;out=\"media:text\""));
    plan.add_node(MachineNode::output("out_b", "b", "c"));
    plan.add_node(MachineNode::output("out_a", "a", "in"));
    plan.add_edge(MachinePlanEdge::direct("in", "c"));
    plan
}

#[test]
fn terminals_are_ordered_by_id() {
    let plan = small_plan();
    let outputs = ok(plan_outputs(&plan));
    assert_eq!(
        outputs,
        vec![
            ("out_a".to_string(), "in".to_string()),
            ("out_b".to_string(), "c".to_string())
        ]
    );
    assert_eq!(persist_sinks(&outputs), vec!["in".to_string(), "c".to_string()]);
    assert_eq!(
        text(plan_outputs(&MachinePlan::new("empty"))),
        "Host error: plan has no Output node"
    );
    assert_eq!(subplan_cap_urns(&plan), vec!["cap:x;out=\"media:text\"".to_string()]);
}

#[test]
fn trunk_inputs_need_flags() {
    let t = ok(trunk_flags(&inputs(&["a"]), &flags(&[("a", true), ("extra", false)])));
    assert_eq!(t.len(), 1);
    assert_eq!(t.get("a"), Some(&true));
    assert_eq!(
        text(trunk_flags(&inputs(&["a", "b"]), &flags(&[("a", true)]))),
        "Host error: initial input 'b' has no sequence flag"
    );
}

fn region() -> Region {
    Region {
        fe_id: "fe".to_string(),
        step_token_id: "fe-token".to_string(),
        input_node: "bridge".to_string(),
        body_entry: "m".to_string(),
        body_input_id: "fe_body_input".to_string(),
        item_media: "media:item".to_string(),
        body_nodes: vec!["m".to_string(), "n".to_string()],
        body_cap_urns: vec!["cap:m".to_string(), "cap:n".to_string()],
    }
}

#[test]
fn test1460_region_input_recorded_twice_is_refused() {
    let mut state = PlanState::new();
    state.node_data.insert("bridge".to_string(), Vec::new());
    state.node_spools.insert("bridge".to_string(), "/tmp/bridge.spool".to_string());
    let error = text(state.region_source(&region(), false));
    assert!(
        error.contains("recorded BOTH in memory"),
        "the refusal names the contract breach, got: {error}"
    );
}

#[test]
fn a_region_takes_its_items_from_one_source() {
    let mut state = PlanState::new();
    assert_eq!(
        text(state.region_source(&region(), false)),
        "Host error: ForEach region 'fe' input 'bridge' produced no data (have: [])"
    );
    assert!(matches!(ok(state.region_source(&region(), true)), RegionSource::Live));
    state.node_spools.insert("bridge".to_string(), "/tmp/s".to_string());
    match ok(state.region_source(&region(), false)) {
        RegionSource::Spool(p) => assert_eq!(p, "/tmp/s"),
        _ => panic!("spool"),
    }
    let mut state = PlanState::new();
    state.node_data.insert("bridge".to_string(), vec![b"i".to_vec()]);
    match ok(state.region_source(&region(), false)) {
        RegionSource::Memory(items) => assert_eq!(items, vec![b"i".to_vec()]),
        _ => panic!("memory"),
    }
    assert!(bad_selector("media:live", "fe", "why").message().contains("feeding ForEach region 'fe': why"));
    assert!(capture_failed("fe", "why").message().contains("host capture for ForEach region 'fe': why"));
    assert_eq!(graph_failed("why").message(), "Host error: plan → resolved graph: why");
}

#[test]
fn only_a_live_source_of_a_region_is_opened_by_the_host() {
    let live = PlanInput::LiveReference { reference_urn: "media:live".to_string(), selector: Vec::new() };
    let regions = vec![region()];
    assert!(is_live_region_input(&regions, "bridge", &live));
    assert!(!is_live_region_input(&regions, "other", &live));
    assert!(!is_live_region_input(&regions, "bridge", &PlanInput::Bytes(Vec::new())));
    assert_eq!(live.live_reference_urn(), Some("media:live"));
}

fn body_result(items: &[(&str, &[u8])]) -> BodyResult {
    let mut node_data = Table::new();
    for (n, d) in items {
        node_data.insert(n.to_string(), vec![d.to_vec()]);
    }
    BodyResult { node_data, writers: Table::new() }
}

#[test]
fn a_regions_output_is_one_sequence_in_item_order() {
    let mut state = PlanState::new();
    let mut second = body_result(&[("m", b"1")]);
    second.writers.insert("m".to_string(), vec![writer_result("p1", 1, false)]);
    state.absorb_region(&region(), vec![body_result(&[("m", b"0"), ("n", b"x")]), second]);
    assert_eq!(state.node_data.get("m").unwrap(), &vec![b"0".to_vec(), b"1".to_vec()]);
    assert_eq!(state.node_data.get("n").unwrap(), &vec![b"x".to_vec()]);
    assert_eq!(state.node_seq.get("m"), Some(&true));
    assert_eq!(state.node_writers.get("m").unwrap().len(), 1);
}

#[test]
fn the_post_segment_is_seeded_from_memory() {
    let mut plan = small_plan();
    plan.add_node(MachineNode::cap("fold", "cap:fold"));
    plan.add_edge(MachinePlanEdge::direct("m", "fold"));
    let post = vec!["fold".to_string()];
    let mut state = PlanState::new();
    assert_eq!(
        text(state.post_roots(&plan, &post)),
        "Host error: post-region segment needs 'm' but it produced no data"
    );
    state.node_spools.insert("m".to_string(), "/tmp/m".to_string());
    assert!(text(state.post_roots(&plan, &post)).contains("UNBOUNDED intermediate spooled to disk"));
    state.node_data.insert("m".to_string(), Vec::new());
    assert!(text(state.post_roots(&plan, &post)).contains("has no sequence flag"));
    state.node_seq.insert("m".to_string(), false);
    assert!(text(state.post_roots(&plan, &post)).contains("holds no items"));
    state.node_data.insert("m".to_string(), vec![b"a".to_vec(), b"b".to_vec()]);
    state.node_seq.insert("m".to_string(), true);
    let roots = ok(state.post_roots(&plan, &post));
    assert_eq!(roots.len(), 1);
    match roots.get("m").unwrap() {
        (PlanInput::Bytes(b), true) => match decode_terminal_output(b, Some(true)) {
            Ok(items) => assert_eq!(items.len(), 2),
            Err(e) => panic!("{}", e.message()),
        },
        _ => panic!("a sequence root"),
    }
}

#[test]
fn terminals_are_written_or_in_memory() {
    let mut state = PlanState::new();
    let (out_id, src) = ("out".to_string(), "c".to_string());
    assert_eq!(
        text(state.take_terminal(&out_id, &src, false, false, "media:t".to_string())),
        "Host error: terminal 'out' source 'c' produced no data"
    );
    state.node_data.insert("c".to_string(), vec![b"x".to_vec(), b"y".to_vec()]);
    let t = ok(state.take_terminal(&out_id, &src, false, true, "media:t".to_string()));
    assert_eq!(t.items.len(), 2);
    assert_eq!(t.items[1].index, 1);
    assert_eq!(t.items[1].data, b"y");
    assert!(t.is_sequence);
    state
        .node_writers
        .insert("c".to_string(), vec![writer_result("p", 2, true)]);
    let t = ok(state.take_terminal(&out_id, &src, false, false, "media:t".to_string()));
    assert!(t.items.is_empty());
    assert!(t.is_sequence);
    assert_eq!(t.writer_results[0].saved_paths, vec!["p".to_string()]);
    assert_eq!(t.media_urn, "media:t");

    let result = PipelineResult { terminals: vec![t], body_outcomes: Vec::new() };
    assert!(result.terminal("out").is_some());
    assert!(result.terminal("other").is_none());
}

#[test]
fn a_terminal_has_its_producers_media() {
    let plan = small_plan();
    assert_eq!(terminal_cap(&plan, "c").unwrap(), "cap:x;out=\"media:text\"");
    assert!(terminal_cap(&plan, "in").is_none());
    let def = cap("cap:x;out=\"media:text\"");
    assert_eq!(ok(terminal_media(&plan, "c", Ok(&def))), "media:text");
    assert_eq!(ok(terminal_media(&plan, "in", Ok(&def))), "media:doc");
    assert_eq!(
        text(terminal_media(&plan, "gone", Ok(&def))),
        "Host error: terminal source 'gone' not in plan"
    );
    assert!(text(terminal_media(&plan, "c", Err("why".to_string())))
        .contains("for terminal media: why"));
    assert_eq!(
        text(terminal_media(&plan, "out_a", Ok(&def))),
        "Host error: terminal source 'out_a' is not a data producer: Output { output_name: \"a\", source_node: \"in\" }"
    );
    let mut caps = Table::new();
    assert!(producer_is_sequence(&plan, &caps, "in"));
    assert!(!producer_is_sequence(&plan, &caps, "c"));
    let mut def = cap("cap:x;out=\"media:text\"");
    let mut o = CapOutput::new("media:text".to_string(), String::new());
    o.is_sequence = true;
    def.output = Some(o);
    caps.insert("cap:x;out=\"media:text\"".to_string(), def);
    assert!(producer_is_sequence(&plan, &caps, "c"));
    assert!(!producer_is_sequence(&plan, &caps, "gone"));
}

#[test]
fn a_trunk_counts_what_its_writers_left() {
    let mut writers = Table::new();
    writers.insert("a".to_string(), vec![writer_result("p", 2, false), writer_result("q", 3, false)]);
    let o = trunk_outcome(vec!["cap:x".to_string()], &writers, 12);
    assert!(o.success);
    assert_eq!(o.total_bytes, 5);
    assert_eq!(o.saved_paths, vec!["p".to_string(), "q".to_string()]);
    assert_eq!(o.duration_ms, 12);
    assert!(o.foreach_token_id.is_none());

    let cut = ok(cut_plan(&small_plan(), &Table::new(), &Table::new()));
    match cut.trunk_record(&writers, 12) {
        Some(o) => {
            assert_eq!(o.cap_urns, vec!["cap:x;out=\"media:text\"".to_string()]);
            assert_eq!(o.total_bytes, 5);
        }
        None => panic!("the trunk is the whole pipeline"),
    }
}

#[test]
fn segments_accumulate() {
    let mut ctx = ExecutionContext::new(0, 1);
    let mut out = DagOutput::seeded(&ctx);
    out.record_chain(&mut ctx, &"n".to_string(), chain_output(&[b"v"], false), SinkData::Memory);
    out.record_chain(
        &mut ctx,
        &"w".to_string(),
        chain_output(&[], true),
        SinkData::Written(writer_result("p", 1, true)),
    );
    let mut state = PlanState::new();
    let spools = state.absorb_segment(out);
    assert_eq!(spools.len(), 0);
    state.keep_spools(spools);
    assert_eq!(state.node_data.get("n").unwrap(), &vec![b"v".to_vec()]);
    assert_eq!(state.node_seq.get("w"), Some(&true));
    assert_eq!(state.node_writers.get("w").unwrap().len(), 1);
}

fn run(known: Option<usize>) -> RegionRun {
    RegionRun::new(&region(), known)
}

#[test]
fn bodies_land_at_their_own_index() {
    let mut r = run(None);
    for item in [b"a", b"b", b"c"] {
        let d = r.on_item(deliver(item.to_vec()));
        assert_eq!(d.bytes, item.to_vec());
        assert_eq!(d.snapshot.foreach_token_id, "fe-token");
        assert_eq!(d.snapshot.body_index, d.coordinate.body_index);
        assert_eq!(d.snapshot.item_byte_count, 1);
    }
    assert_eq!(r.dispatched(), 3);
    assert!(r.on_source_end(0).is_none());
    assert!(!r.finished());
    // Bodies complete out of order.
    let result = body_result(&[("m", b"C!")]);
    assert_eq!(r.entry_items(&result), vec![b"C!".to_vec()]);
    let o = r.on_body_ok(2, result, 5);
    assert_eq!(o.body_index, 2);
    assert_eq!(o.total_bytes, 2);
    assert_eq!(o.item_preview_text.as_deref(), Some("c"));
    assert_eq!(r.progress_message(), "Completed 1/3");
    r.on_body_ok(0, body_result(&[("m", b"A!")]), 5);
    let failure = ExecutionError::HostError("broke".to_string()).at_step(&"tok".to_string());
    let o = r.on_body_err(1, &failure, 5);
    assert!(!o.success);
    assert_eq!(o.failed_token_id.as_deref(), Some("tok"));
    assert_eq!(o.error.as_deref(), Some(failure.message().as_str()));
    assert!(r.finished());
    let results = ok(r.settle("allow"));
    assert_eq!(results.len(), 2);
    assert_eq!(results[0].node_data.get("m").unwrap()[0], b"A!");
    assert_eq!(results[1].node_data.get("m").unwrap()[0], b"C!");
}

#[test]
fn the_policy_decides_what_failures_mean() {
    let broke = ExecutionError::HostError("broke".to_string());
    let mut strict = run(Some(2));
    strict.on_item(deliver(b"a".to_vec()));
    strict.on_item(deliver(b"b".to_vec()));
    strict.on_body_ok(0, body_result(&[]), 1);
    strict.on_body_err(1, &broke, 1);
    let e = match strict.settle("fail") {
        Ok(_) => panic!("any failure fails"),
        Err(e) => e,
    };
    assert_eq!(e.step_token_id().unwrap(), "fe-token");
    assert!(
        e.message().contains("ForEach step failed: 1/2 bodies failed (policy=fail)"),
        "{}",
        e.message()
    );
    let mut hopeless = run(Some(1));
    hopeless.on_item(deliver(b"a".to_vec()));
    hopeless.on_body_err(0, &broke, 1);
    assert!(hopeless.settle("allow").is_err());
    assert!(run(Some(0)).settle("fail").is_ok());
}

#[test]
fn bodies_in_flight_are_bounded() {
    let mut r = run(None);
    for _ in 0..REGION_BODY_MAX_IN_FLIGHT {
        assert!(r.can_dispatch());
        r.on_item(deliver(Vec::new()));
    }
    assert!(!r.can_dispatch());
    assert!(r.awaits_completion());
    r.on_body_ok(0, body_result(&[]), 1);
    assert!(r.can_dispatch());
}

#[test]
fn a_failed_source_fails_the_region() {
    let r = run(None);
    let e = r.on_source_failed(ExecutionError::HostError("device died".to_string()));
    assert_eq!(e.step_token_id().unwrap(), "fe-token");
    assert!(e.message().contains("device died"));
}

#[test]
fn overruns_and_stalls_are_surfaced() {
    let mut r = run(None);
    let log = r.on_source_end(4).expect("counted loss");
    assert!(log.message.contains("dropped 4 item(s)"), "{}", log.message);
    assert!(log.attribution_class == AttributionClass::Resource);
    assert!(r.on_tick(false).is_none());
    assert!(r.on_tick(true).is_some());
    assert!(r.on_tick(true).is_none(), "once per quiet window");
    assert_eq!(run(Some(9)).total_display(), 9);
}

#[test]
fn output_items_hold_their_bytes() {
    let item = OutputItem { data: b"x".to_vec(), index: 0 };
    let t = TerminalOutput {
        output_node_id: "o".to_string(),
        items: vec![item],
        is_sequence: false,
        media_urn: "media:".to_string(),
        writer_results: Vec::new(),
    };
    assert_eq!(t.items[0].data, b"x");
}

#[test]
fn a_caps_shape_is_its_declared_one() {
    let mut def = cap("cap:in=\"media:x\";y");
    assert_eq!(def.sequence_shape(), (false, false));
    let mut arg = CapArg::new(
        "media:slot".to_string(),
        true,
        vec![ArgSource::Stdin { stdin: "media:x".to_string() }],
    );
    arg.is_sequence = true;
    assert_eq!(arg.stream_urn(), "media:x");
    assert!(arg.has_stdin_source());
    def.args = vec![arg];
    assert_eq!(def.sequence_shape(), (true, false));
}
