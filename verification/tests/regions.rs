use capdag_orchestrator::plan::{
    EdgeType, InputCardinality, MachineNode, MachinePlan, MachinePlanEdge,
};
use capdag_orchestrator::cap::{ArgSource, Cap, CapArg};
use capdag_orchestrator::regions::{
    build_body_subplan, build_post_subplan, build_trunk_subplan, compute_post_region_caps,
    compute_regions, ItemMedia,
};
use capdag_orchestrator::execute_plan::cut_plan;
use capdag_orchestrator::table::Table;
use capdag_orchestrator::urn::CapUrn;

const RENDER: &str = "cap:in=\"media:ext=pdf\";render;out=\"media:ext=png;image\"";
const MAPPER: &str = "cap:in=\"media:ext=png;image\";upscale;out=\"media:ext=png;image;up\"";
const FOLD: &str = "cap:in=\"media:ext=png;image\";animate;out=\"media:ext=gif;image\"";
const META: &str = "cap:in=\"media:ext=pdf\";meta;out=\"media:enc=utf-8;record\"";

fn plan_with_region_and_fold() -> (MachinePlan, Vec<String>) {
    let mut plan = MachinePlan::new("region+fold");
    plan.add_node(MachineNode::input_slot(
        "input",
        "input",
        "media:ext=pdf",
        InputCardinality::Single,
    ));
    plan.add_node(MachineNode::cap("render", RENDER));
    plan.add_node(MachineNode::cap("mapper", MAPPER));
    plan.add_node(MachineNode::for_each_token(
        "fe",
        "render",
        "mapper",
        "mapper",
        "stable-foreach-token".to_string(),
    ));
    plan.add_node(MachineNode::cap("fold", FOLD));
    plan.add_node(MachineNode::cap("meta", META));
    plan.add_node(MachineNode::output("out_gif", "result", "fold"));
    plan.add_node(MachineNode::output("out_meta", "result", "meta"));

    plan.add_edge(MachinePlanEdge::direct("input", "render"));
    plan.add_edge(MachinePlanEdge::direct("render", "fe"));
    plan.add_edge(MachinePlanEdge::iteration("fe", "mapper"));
    plan.add_edge(MachinePlanEdge::direct("mapper", "fold"));
    plan.add_edge(MachinePlanEdge::direct("input", "meta"));
    plan.add_edge(MachinePlanEdge::direct("fold", "out_gif"));
    plan.add_edge(MachinePlanEdge::direct("meta", "out_meta"));

    (plan, vec!["mapper".to_string()])
}

#[test]
fn test1434_post_region_partition() {
    let (plan, region_nodes) = plan_with_region_and_fold();

    let post = compute_post_region_caps(&plan, &region_nodes);
    assert!(
        post.contains(&"fold".to_string()),
        "the fold consumes region output → post"
    );
    assert!(
        !post.contains(&"meta".to_string()),
        "an independent cap stays pre-trunk"
    );
    assert!(
        !post.contains(&"mapper".to_string()),
        "region caps are never post"
    );
    assert_eq!(post.len(), 1);

    let mut excluded = region_nodes.clone();
    excluded.extend(post.iter().cloned());
    let trunk = build_trunk_subplan(&plan, &excluded);
    assert!(trunk.nodes.contains_key("render"));
    assert!(trunk.nodes.contains_key("meta"));
    assert!(trunk.nodes.contains_key("input"));
    assert!(!trunk.nodes.contains_key("mapper"));
    assert!(!trunk.nodes.contains_key("fold"));

    let post_plan = build_post_subplan(&plan, &post);
    assert!(post_plan.nodes.contains_key("fold"));
    assert_eq!(post_plan.nodes.len(), 1);
    // The external-producer edge (mapper → fold) survives so the segment
    // can seed 'mapper' as a materialised root.
    assert!(
        post_plan
            .edges
            .iter()
            .any(|e| e.from_node == "mapper" && e.to_node == "fold"),
        "the post subplan keeps the edge from its external root"
    );
}

fn cap(urn: &str, takes_sequence: bool) -> Cap {
    let parsed = match CapUrn::from_string(urn) {
        Ok(u) => u,
        Err(e) => panic!("{}", e.detail()),
    };
    let in_spec = parsed.in_spec();
    let mut cap = Cap::new(parsed, String::new(), Vec::new());
    let mut arg = CapArg::new(
        in_spec.clone(),
        true,
        vec![ArgSource::Stdin { stdin: in_spec }],
    );
    arg.is_sequence = takes_sequence;
    cap.args = vec![arg];
    cap
}

fn registry() -> Table<Cap> {
    let mut caps = Table::new();
    caps.insert(RENDER.to_string(), cap(RENDER, false));
    caps.insert(MAPPER.to_string(), cap(MAPPER, false));
    caps.insert(FOLD.to_string(), cap(FOLD, true));
    caps.insert(META.to_string(), cap(META, false));
    caps
}

fn media(item: Result<&str, &str>) -> ItemMedia {
    let mut m: ItemMedia = Table::new();
    m.insert(
        "render".to_string(),
        item.map(|s| s.to_string()).map_err(|s| s.to_string()),
    );
    m
}

#[test]
fn a_fold_closes_the_region() {
    let (plan, _) = plan_with_region_and_fold();
    let regions = match compute_regions(&plan, &registry(), &media(Ok("media:ext=png;image"))) {
        Ok(r) => r,
        Err(e) => panic!("{}", e.message()),
    };
    assert_eq!(regions.len(), 1);
    let region = &regions[0];
    assert_eq!(region.fe_id, "fe");
    assert_eq!(region.step_token_id, "stable-foreach-token");
    assert_eq!(region.input_node, "render");
    assert_eq!(region.body_entry, "mapper");
    assert_eq!(region.body_input_id, "fe_body_input");
    assert_eq!(region.item_media, "media:ext=png;image");
    assert_eq!(region.body_nodes, vec!["mapper".to_string()]);
    assert_eq!(region.body_cap_urns, vec![MAPPER.to_string()]);

    let body = build_body_subplan(&plan, region);
    assert_eq!(body.name, "region+fold [foreach body fe]");
    assert!(body.nodes.contains_key("fe_body_input"));
    assert!(body.nodes.contains_key("mapper"));
    assert_eq!(body.nodes.len(), 2);
    assert_eq!(body.edges.len(), 1);
    assert_eq!(body.edges[0].from_node, "fe_body_input");
    assert_eq!(body.edges[0].to_node, "mapper");
    assert!(matches!(body.edges[0].edge_type, EdgeType::Direct));
}

#[test]
fn in_body_fan_out_belongs_to_the_body() {
    let (mut plan, _) = plan_with_region_and_fold();
    plan.add_node(MachineNode::cap("a_side", META));
    plan.add_edge(MachinePlanEdge::direct("mapper", "a_side"));
    let regions = match compute_regions(&plan, &registry(), &media(Ok("media:x"))) {
        Ok(r) => r,
        Err(e) => panic!("{}", e.message()),
    };
    assert_eq!(
        regions[0].body_nodes,
        vec!["a_side".to_string(), "mapper".to_string()]
    );
    let body = build_body_subplan(&plan, &regions[0]);
    assert_eq!(body.edges.len(), 2);
}

#[test]
fn a_region_names_what_is_wrong_with_it() {
    let (plan, _) = plan_with_region_and_fold();
    let err = compute_regions(&plan, &registry(), &media(Err("no element type")))
        .err()
        .expect("refused");
    assert_eq!(
        err.message(),
        "Host error: derive foreach item media for 'fe': no element type"
    );

    let mut caps = Table::new();
    caps.insert(MAPPER.to_string(), cap(MAPPER, false));
    let err = compute_regions(&plan, &caps, &media(Ok("media:x")))
        .err()
        .expect("refused");
    assert!(
        err.message()
            .contains(&format!("cap '{FOLD}' at 'fold' is not in the registry cache")),
        "{}",
        err.message()
    );

    let (mut nested, _) = plan_with_region_and_fold();
    nested.add_node(MachineNode::for_each_token(
        "fe2",
        "render",
        "meta",
        "meta",
        "t2".to_string(),
    ));
    nested.add_edge(MachinePlanEdge::direct("mapper", "fe2"));
    let err = compute_regions(&nested, &registry(), &media(Ok("media:x")))
        .err()
        .expect("refused");
    assert!(
        err.message()
            .contains("nested ForEach reached from body of 'fe' at 'fe2' — unsupported"),
        "{}",
        err.message()
    );
}

#[test]
fn everything_downstream_of_a_fold_is_post_region() {
    let (mut plan, region_nodes) = plan_with_region_and_fold();
    plan.add_node(MachineNode::cap("publish", META));
    plan.add_edge(MachinePlanEdge::direct("fold", "publish"));
    let mut post = compute_post_region_caps(&plan, &region_nodes);
    post.sort();
    assert_eq!(post, vec!["fold".to_string(), "publish".to_string()]);
}

#[test]
fn a_plan_is_cut_into_trunk_regions_and_post() {
    let (plan, _) = plan_with_region_and_fold();
    let cut = match cut_plan(&plan, &registry(), &media(Ok("media:ext=png;image"))) {
        Ok(c) => c,
        Err(e) => panic!("{}", e.message()),
    };
    assert_eq!(cut.region_nodes, vec!["mapper".to_string()]);
    assert_eq!(cut.post_ids, vec!["fold".to_string()]);
    assert_eq!(cut.outputs.len(), 2);
    assert!(cut.trunk.nodes.contains_key("meta"));
    assert!(!cut.trunk.nodes.contains_key("fold"));
    assert!(cut.trunk_record(&Table::new(), 5).is_none(), "the bodies are the outcomes");
    assert!(cut_plan(&MachinePlan::new("empty"), &registry(), &Table::new()).is_err());
}
