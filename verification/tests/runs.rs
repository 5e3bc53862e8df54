//! Whole runs through the library: everything that a runtime is asked for is
//! answered here on the spot.

use capdag_orchestrator::cap::{ArgSource, Cap, CapArg, CapOutput};
use capdag_orchestrator::dag::{DagOutput, PlanInput};
use capdag_orchestrator::execute_plan::{
    cut_plan, is_live_region_input, producer_is_sequence, PlanSegments, PlanState, RegionSource,
    TerminalOutput,
};
use capdag_orchestrator::executor_error::ExecutionError;
use capdag_orchestrator::plan::{InputCardinality, MachineNode, MachinePlan, MachinePlanEdge};
use capdag_orchestrator::region_run::{BodyResult, ForEachItemSnapshot, RegionRun};
use capdag_orchestrator::regions::{build_body_subplan, ItemMedia};
use capdag_orchestrator::run_arguments::{
    Arguments, ArgumentUpdate, ArgumentUpdateDisposition, RunArgumentLedger,
};
use capdag_orchestrator::spool::{
    decode_spool_item, deliver_live, LiveItem, RegionItemDelivery, SpoolIndexer,
};
use capdag_orchestrator::table::Table;
use capdag_orchestrator::transport::wrap_raw_items_as_cbor_sequence;
use capdag_orchestrator::urn::CapUrn;

const MAP: &str = "cap:in=\"media:feed-frames\";map;out=\"media:fmt=json;record\"";
const FRAMES: &str = "cap:frames;in=\"media:ext=pdf\";out=\"media:ext=png;image\"";
const UPSCALE: &str = "cap:in=\"media:ext=png;image\";upscale;out=\"media:ext=png;image;up\"";

fn ok<T>(r: Result<T, ExecutionError>) -> T {
    match r {
        Ok(v) => v,
        Err(e) => panic!("{}", e.message()),
    }
}

fn test_cap(urn: &str, output_is_sequence: bool) -> Cap {
    let parsed = match CapUrn::from_string(urn) {
        Ok(u) => u,
        Err(e) => panic!("{}", e.detail()),
    };
    let in_spec = parsed.in_spec();
    let out_spec = parsed.out_spec();
    let mut cap = Cap::new(parsed, "Test".to_string(), Vec::new());
    cap.args = vec![CapArg::new(
        in_spec.clone(),
        true,
        vec![ArgSource::Stdin { stdin: in_spec }],
    )];
    cap.output = Some(CapOutput {
        media_urn: out_spec,
        output_description: String::new(),
        is_sequence: output_is_sequence,
        streaming: false,
    });
    cap
}

fn live_plan(token: &str) -> MachinePlan {
    let mut plan = MachinePlan::new("live-foreach");
    plan.add_node(MachineNode::input_slot(
        "input",
        "input",
        "media:feed-frames",
        InputCardinality::Sequence,
    ));
    plan.add_node(MachineNode::cap("mapper", MAP));
    plan.add_node(MachineNode::for_each_token(
        "fe",
        "input",
        "mapper",
        "mapper",
        token.to_string(),
    ));
    plan.add_node(MachineNode::output("out", "result", "mapper"));
    plan.add_edge(MachinePlanEdge::direct("input", "fe"));
    plan.add_edge(MachinePlanEdge::iteration("fe", "mapper"));
    plan.add_edge(MachinePlanEdge::direct("mapper", "out"));
    plan
}

fn live_caps() -> Table<Cap> {
    let mut caps = Table::new();
    caps.insert(MAP.to_string(), test_cap(MAP, false));
    caps
}

fn cut(plan: &MachinePlan, caps: &Table<Cap>, input: &str, item: &str) -> PlanSegments {
    let mut media: ItemMedia = Table::new();
    media.insert(input.to_string(), Ok(item.to_string()));
    ok(cut_plan(plan, caps, &media))
}

fn empty_output() -> DagOutput {
    DagOutput {
        node_data: Table::new(),
        node_is_sequence: Table::new(),
        writer_results: Table::new(),
        terminal_meta: Table::new(),
        node_spool: Table::new(),
    }
}

fn body_result(node: &str, item: &[u8]) -> BodyResult {
    let mut node_data = Table::new();
    node_data.insert(node.to_string(), vec![item.to_vec()]);
    BodyResult {
        node_data,
        writers: Table::new(),
    }
}

/// Drive a region over its deliveries, the bodies completing in reverse order:
/// what every body was fed, and the settled results.
fn drive(
    segments: &PlanSegments,
    deliveries: Vec<RegionItemDelivery>,
    known_total: Option<usize>,
    result: &[u8],
) -> (Vec<Vec<u8>>, Vec<ForEachItemSnapshot>, Vec<BodyResult>) {
    let region = &segments.regions[0];
    let mut run = RegionRun::new(region, known_total);
    let mut fed = Vec::new();
    let mut snapshots = Vec::new();
    for delivery in deliveries {
        assert!(run.can_dispatch());
        let dispatch = run.on_item(delivery);
        assert_eq!(dispatch.coordinate.body_index, fed.len());
        fed.push(dispatch.bytes);
        snapshots.push(dispatch.snapshot);
    }
    assert!(run.on_source_end(0).is_none());
    for i in (0..fed.len()).rev() {
        assert!(run.awaits_completion());
        let outcome = run.on_body_ok(i, body_result(&region.body_entry, result), 1);
        assert!(outcome.success);
    }
    assert!(run.finished());
    (fed, snapshots, ok(run.settle("fail")))
}

fn terminal(
    plan: &MachinePlan,
    caps: &Table<Cap>,
    segments: &PlanSegments,
    state: &mut PlanState,
) -> TerminalOutput {
    let (id, source) = &segments.outputs[0];
    ok(state.take_terminal(
        id,
        source,
        segments.region_nodes.contains(source),
        producer_is_sequence(plan, caps, source),
        String::new(),
    ))
}

#[test]
fn test1454_live_source_drives_foreach_region_host_side() {
    let plan = live_plan("live-foreach-token");
    let caps = live_caps();
    let segments = cut(&plan, &caps, "input", "media:feed-frames");
    let input = PlanInput::LiveReference {
        reference_urn: "media:live;synthetic".to_string(),
        selector: br#"{"params":{"items":3,"interval_ms":0,"item_bytes":8}}"#.to_vec(),
    };
    assert!(is_live_region_input(&segments.regions, "input", &input));
    let mut state = PlanState::new();
    assert!(matches!(
        state.region_source(&segments.regions[0], true),
        Ok(RegionSource::Live)
    ));

    // One body per delivered item, with the feed's actual payload bytes.
    let deliveries = (0..3u8)
        .map(|i| ok(deliver_live(LiveItem::Bytes(vec![i; 8]))))
        .collect();
    let (fed, snapshots, bodies) = drive(&segments, deliveries, None, b"mapped");
    assert_eq!(fed, vec![vec![0u8; 8], vec![1u8; 8], vec![2u8; 8]]);
    assert_eq!(snapshots.len(), 3);
    assert!(snapshots.iter().all(|s| s.item_byte_count == 8));
    assert!(snapshots
        .iter()
        .all(|s| s.foreach_token_id == "live-foreach-token"));

    state.absorb_region(&segments.regions[0], bodies);
    let terminal = terminal(&plan, &caps, &segments, &mut state);
    assert!(terminal.is_sequence);
    assert_eq!(terminal.items.len(), 3);
}

#[test]
fn test1456_spooled_unbounded_input_drives_foreach_region() {
    let mut plan = MachinePlan::new("spooled-foreach");
    plan.add_node(MachineNode::input_slot(
        "input",
        "input",
        "media:ext=pdf",
        InputCardinality::Single,
    ));
    plan.add_node(MachineNode::cap("bridge", FRAMES));
    plan.add_node(MachineNode::cap("mapper", UPSCALE));
    plan.add_node(MachineNode::for_each_token(
        "fe",
        "bridge",
        "mapper",
        "mapper",
        "spooled-foreach-token".to_string(),
    ));
    plan.add_node(MachineNode::output("out", "result", "mapper"));
    plan.add_edge(MachinePlanEdge::direct("input", "bridge"));
    plan.add_edge(MachinePlanEdge::direct("bridge", "fe"));
    plan.add_edge(MachinePlanEdge::iteration("fe", "mapper"));
    plan.add_edge(MachinePlanEdge::direct("mapper", "out"));
    let mut caps = Table::new();
    caps.insert(FRAMES.to_string(), test_cap(FRAMES, true));
    caps.insert(UPSCALE.to_string(), test_cap(UPSCALE, false));
    let segments = cut(&plan, &caps, "bridge", "media:ext=png;image");

    // The trunk's sink was an unbounded stream that ended: it is in a spool and
    // nowhere else.
    let mut trunk = empty_output();
    trunk.node_is_sequence.insert("bridge".to_string(), true);
    trunk
        .node_spool
        .insert("bridge".to_string(), "bridge.spool".to_string());
    let mut state = PlanState::new();
    let spools = state.absorb_segment(trunk);
    state.keep_spools(spools);
    match state.region_source(&segments.regions[0], false) {
        Ok(RegionSource::Spool(path)) => assert_eq!(path, "bridge.spool"),
        _ => panic!("the region streams from the spool"),
    }

    let frames: Vec<Vec<u8>> = (0..3).map(|i| format!("frame-{i}").into_bytes()).collect();
    let file = match wrap_raw_items_as_cbor_sequence(&frames) {
        Ok(f) => f,
        Err(e) => panic!("{}", e.message()),
    };
    let mut indexer = SpoolIndexer::new();
    for window in file.chunks(5) {
        ok(indexer.on_window(window, "bridge.spool"));
    }
    let index = ok(indexer.finish("bridge.spool"));
    let deliveries = index
        .into_iter()
        .enumerate()
        .map(|(i, entry)| {
            let from = entry.offset as usize;
            let to = from + entry.len as usize;
            RegionItemDelivery {
                bytes: ok(decode_spool_item(&file[from..to], "bridge.spool", i)),
                preview: entry.preview,
                byte_count: entry.raw_len,
            }
        })
        .collect();
    let (fed, snapshots, bodies) = drive(&segments, deliveries, Some(3), b"upscaled");
    assert_eq!(fed, frames);
    assert_eq!(snapshots.len(), 3);
    assert!(snapshots.iter().all(|s| s.item_byte_count == 7));

    state.absorb_region(&segments.regions[0], bodies);
    let terminal = terminal(&plan, &caps, &segments, &mut state);
    assert!(terminal.is_sequence);
    assert_eq!(terminal.items.len(), 3);
}

#[test]
fn test1476_mid_run_update_splits_bodies_exactly_as_reported() {
    const ARG_URN: &str = "media:enc=utf-8;question";
    let plan = live_plan("mid-run-update-token");
    let caps = live_caps();
    let segments = cut(&plan, &caps, "input", "media:feed-frames");
    let body = build_body_subplan(&plan, &segments.regions[0]);
    let mut values: Arguments = Table::new();
    values.insert(
        "mapper".to_string(),
        vec![(ARG_URN.to_string(), b"old".to_vec())],
    );
    let mut ledger = match RunArgumentLedger::new(&plan, values) {
        Ok(l) => l,
        Err(e) => panic!("{}", e.message()),
    };
    let _ = ledger.snapshot_for_segment(&segments.trunk);

    let mut reported_before: u64 = u64::MAX;
    let mut deliveries: Vec<Vec<u8>> = Vec::new();
    for index in 0..6 {
        let args = ledger.snapshot_for_body(&body, index);
        let value = args
            .get("mapper")
            .and_then(|bindings| bindings.iter().find(|(urn, _)| urn == ARG_URN))
            .map(|(_, bytes)| bytes.clone());
        match value {
            Some(v) => deliveries.push(v),
            None => panic!("every body carries the argument"),
        }
        if index == 2 {
            let applied = match ledger.apply(&[ArgumentUpdate {
                token_id: "mapper".to_string(),
                media_urn: ARG_URN.to_string(),
                value: b"new".to_vec(),
            }]) {
                Ok(a) => a,
                Err(e) => panic!("{}", e.message()),
            };
            assert_eq!(applied.outcomes.len(), 1);
            reported_before = match &applied.outcomes[0].disposition {
                ArgumentUpdateDisposition::Applied => 0,
                ArgumentUpdateDisposition::AppliedToRemainingBodies { bodies_dispatched } => {
                    *bodies_dispatched
                }
                ArgumentUpdateDisposition::AlreadyDispatched => {
                    panic!("the update cannot have missed every body")
                }
            };
        }
    }
    ledger.exhaust_bodies(&body);
    assert_eq!(deliveries.len(), 6);
    for (index, value) in deliveries.iter().enumerate() {
        let expected: &[u8] = if (index as u64) < reported_before {
            b"old"
        } else {
            b"new"
        };
        assert_eq!(value, expected);
    }
    assert!(deliveries.iter().any(|v| v == b"new"));
    assert_eq!(deliveries[0], b"old".to_vec());
}
