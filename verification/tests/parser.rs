use capdag_orchestrator::cap::{ArgSource, Cap, CapArg};
use capdag_orchestrator::parser::{
    translate_machine_parse_error, wire_strands, Binding, InputStructure, MachineParseError,
    ParseOrchestrationError, Strand, StrandEdge, WiredGraph,
};
use capdag_orchestrator::table::Table;
use capdag_orchestrator::urn::{CapUrn, MediaUrn};

fn media(s: &str) -> MediaUrn {
    match MediaUrn::from_string(s) {
        Ok(u) => u,
        Err(e) => panic!("{}", e.detail()),
    }
}

fn cap_urn(s: &str) -> CapUrn {
    match CapUrn::from_string(s) {
        Ok(u) => u,
        Err(e) => panic!("{}", e.detail()),
    }
}

fn registry(caps: &[(&str, &[&str])]) -> Table<Cap> {
    let mut t = Table::new();
    for (urn, args) in caps {
        let mut c = Cap::new(cap_urn(urn), "Test Cap".to_string(), vec!["test".to_string()]);
        c.args = args
            .iter()
            .map(|m| {
                CapArg::new(
                    m.to_string(),
                    true,
                    vec![ArgSource::Stdin { stdin: m.to_string() }],
                )
            })
            .collect();
        t.insert(urn.to_string(), c);
    }
    t
}

fn strand(nodes: &[(&str, &str)], edges: &[(&str, usize, &[(usize, &str)])]) -> Strand {
    let mut names = Table::new();
    let mut node_urns = Vec::new();
    for (i, (name, urn)) in nodes.iter().enumerate() {
        names.insert(name.to_string(), i);
        node_urns.push(media(urn));
    }
    let edges = edges
        .iter()
        .map(|(cap, target, bindings)| StrandEdge {
            cap_urn: cap_urn(cap),
            target: *target,
            assignment: bindings
                .iter()
                .map(|(source, slot)| Binding { source: *source, cap_arg_media_urn: media(slot) })
                .collect(),
        })
        .collect();
    Strand { names, node_urns, edges }
}

fn wired(r: Result<WiredGraph, ParseOrchestrationError>) -> WiredGraph {
    match r {
        Ok(g) => g,
        Err(e) => panic!("{e:?}"),
    }
}

const EXTRACT: &str = "cap:in=\"media:ext=pdf\";extract;out=\"media:enc=utf-8;ext=txt\"";

#[test]
fn test1256_parse_simple_machine() {
    let caps = registry(&[(EXTRACT, &["media:ext=pdf"])]);
    let s = strand(
        &[("A", "media:ext=pdf"), ("B", "media:enc=utf-8;ext=txt")],
        &[(EXTRACT, 1, &[(0, "media:ext=pdf")])],
    );
    let graph = wired(wire_strands(&vec![s], &caps)).label(vec!["t0".to_string()]);
    assert_eq!(graph.nodes.len(), 2);
    assert_eq!(graph.edges.len(), 1);
    assert_eq!(graph.nodes.get("A").unwrap(), "media:ext=pdf");
    assert_eq!(graph.nodes.get("B").unwrap(), "media:enc=utf-8;ext=txt");
    assert_eq!(graph.edges[0].from, "A");
    assert_eq!(graph.edges[0].to, "B");
    assert_eq!(graph.edges[0].token_id, "t0");
    assert_eq!(graph.edges[0].in_media, "media:ext=pdf");
    assert_eq!(graph.edges[0].out_media, "media:enc=utf-8;ext=txt");
    assert_eq!(graph.edges[0].cap.title, "Test Cap");
    assert!(graph.graph_name.is_none());
}

#[test]
fn test1259_parse_fan_in() {
    let describe = "cap:in=\"media:ext=png;image\";describe;out=\"media:enc=utf-8;image-description\"";
    let caps = registry(&[(describe, &["media:ext=png;image", "media:enc=utf-8;model-spec"])]);
    let s = strand(
        &[
            ("thumbnail", "media:ext=png;image;thumbnail"),
            ("model_spec", "media:enc=utf-8;model-spec"),
            ("description", "media:enc=utf-8;image-description"),
        ],
        &[(
            describe,
            2,
            &[(0, "media:image;ext=png"), (1, "media:enc=utf-8;model-spec")],
        )],
    );
    let g = wired(wire_strands(&vec![s], &caps));
    assert_eq!(g.edges.len(), 2);
    assert_eq!(g.edges[0].in_media, "media:ext=png;image");
    assert_eq!(g.edges[1].in_media, "media:enc=utf-8;model-spec");
}

/// `A -> produce -> B -> process -> C`, with `B` of the given type.
fn wire_record_to_opaque(b: &str) -> Result<WiredGraph, ParseOrchestrationError> {
    let produce = "cap:in=\"media:void\";produce;out=\"media:fmt=json;record\"";
    let process = "cap:in=\"media:fmt=json\";process;out=\"media:enc=utf-8;ext=txt\"";
    let caps = registry(&[(produce, &["media:void"]), (process, &["media:fmt=json"])]);
    let s = strand(
        &[
            ("A", "media:void"),
            ("B", b),
            ("C", "media:enc=utf-8;ext=txt"),
        ],
        &[
            (produce, 1, &[(0, "media:void")]),
            (process, 2, &[(1, "media:fmt=json")]),
        ],
    );
    wire_strands(&vec![s], &caps)
}

fn assert_record_to_opaque(r: Result<WiredGraph, ParseOrchestrationError>) {
    match r {
        Err(ParseOrchestrationError::StructureMismatch {
            node,
            source_structure,
            expected_structure,
        }) => {
            assert_eq!(node, "B");
            assert!(source_structure == InputStructure::Record);
            assert!(expected_structure == InputStructure::Opaque);
        }
        _ => panic!("Record to opaque structure mismatch must be detected"),
    }
}

#[test]
fn test1266_structure_mismatch_record_to_opaque() {
    // The shared node is typed by its producer's output.
    assert_record_to_opaque(wire_record_to_opaque("media:fmt=json;record"));
}

#[test]
fn a_shared_node_typed_by_its_consumer_is_checked_too() {
    assert_record_to_opaque(wire_record_to_opaque("media:fmt=json"));
}

#[test]
fn a_mismatch_is_found_whatever_edge_comes_first() {
    let produce = "cap:in=\"media:void\";produce;out=\"media:fmt=json;record\"";
    let process = "cap:in=\"media:fmt=json\";process;out=\"media:enc=utf-8;ext=txt\"";
    let caps = registry(&[(produce, &["media:void"]), (process, &["media:fmt=json"])]);
    for b in ["media:fmt=json;record", "media:fmt=json"] {
        let s = strand(
            &[
                ("A", "media:void"),
                ("B", b),
                ("C", "media:enc=utf-8;ext=txt"),
            ],
            &[
                (process, 2, &[(1, "media:fmt=json")]),
                (produce, 1, &[(0, "media:void")]),
            ],
        );
        assert_record_to_opaque(wire_strands(&vec![s], &caps));
    }
}

#[test]
fn test1267_structure_match_both_record() {
    let produce = "cap:in=\"media:void\";produce;out=\"media:fmt=json;record\"";
    let transform =
        "cap:in=\"media:fmt=json;record\";transform;out=\"media:enc=utf-8;record;result\"";
    let caps = registry(&[(produce, &["media:void"]), (transform, &["media:fmt=json;record"])]);
    let s = strand(
        &[
            ("A", "media:void"),
            ("B", "media:fmt=json;record"),
            ("C", "media:enc=utf-8;record;result"),
        ],
        &[
            (produce, 1, &[(0, "media:void")]),
            (transform, 2, &[(1, "media:fmt=json;record")]),
        ],
    );
    assert_eq!(wired(wire_strands(&vec![s], &caps)).edges.len(), 2);
}

#[test]
fn test1265_compatible_media_urns_at_shared_node() {
    let thumb = "cap:in=\"media:ext=pdf\";thumbnail;out=\"media:ext=png;image\"";
    let embed =
        "cap:in=\"media:bytes;ext=png;image\";embed-image;out=\"media:embedding-vector;enc=utf-8;record\"";
    let caps = registry(&[(thumb, &["media:ext=pdf"]), (embed, &["media:bytes;ext=png;image"])]);
    let s = strand(
        &[
            ("A", "media:ext=pdf"),
            ("B", "media:bytes;ext=png;image"),
            ("C", "media:embedding-vector;enc=utf-8;record"),
        ],
        &[
            (thumb, 1, &[(0, "media:ext=pdf")]),
            (embed, 2, &[(1, "media:bytes;ext=png;image")]),
        ],
    );
    wired(wire_strands(&vec![s], &caps));
}

#[test]
fn incompatible_media_conflict_at_a_shared_node() {
    let produce = "cap:in=\"media:void\";produce-pdf;out=\"media:ext=pdf\"";
    let transcribe = "cap:in=\"media:audio;ext=wav\";transcribe;out=\"media:enc=utf-8;ext=txt\"";
    let caps = registry(&[(produce, &["media:void"]), (transcribe, &["media:audio;ext=wav"])]);
    let s = strand(
        &[
            ("A", "media:void"),
            ("B", "media:audio;ext=wav"),
            ("C", "media:enc=utf-8;ext=txt"),
        ],
        &[
            (produce, 1, &[(0, "media:void")]),
            (transcribe, 2, &[(1, "media:audio;ext=wav")]),
        ],
    );
    match wire_strands(&vec![s], &caps) {
        Err(ParseOrchestrationError::NodeMediaConflict { node, existing, required_by_cap }) => {
            assert_eq!(node, "B");
            assert_eq!(existing, "media:ext=pdf");
            assert_eq!(required_by_cap, "media:audio;ext=wav");
        }
        _ => panic!("expected a conflict"),
    }
}

#[test]
fn an_unknown_cap_or_node_is_named() {
    let caps = registry(&[]);
    let s = strand(&[("A", "media:a"), ("B", "media:b")], &[("cap:gone", 1, &[(0, "media:a")])]);
    match wire_strands(&vec![s], &caps) {
        Err(ParseOrchestrationError::CapNotFound { cap_urn }) => assert_eq!(cap_urn, "cap:gone"),
        _ => panic!("expected CapNotFound"),
    }
    let caps = registry(&[("cap:x;out=nonsense", &["media:a"])]);
    let s = strand(
        &[("A", "media:a"), ("B", "media:b")],
        &[("cap:x;out=nonsense", 1, &[(0, "media:a")])],
    );
    assert!(matches!(
        wire_strands(&vec![s], &caps),
        Err(ParseOrchestrationError::MediaUrnParseError(_))
    ));
    let caps = registry(&[("cap:x", &["media:a"])]);
    let s = strand(&[("A", "media:a")], &[("cap:x", 7, &[(0, "media:a")])]);
    match wire_strands(&vec![s], &caps) {
        Err(ParseOrchestrationError::MachineSyntaxParseFailed(m)) => {
            assert_eq!(m, "internal error: NodeId 7 has no user-written node name")
        }
        _ => panic!("expected a nameless node"),
    }
}

#[test]
fn test1263_cycle_detection() {
    match translate_machine_parse_error(MachineParseError::CyclicMachineStrand { strand_index: 2 }) {
        ParseOrchestrationError::NotADag { cycle_nodes } => {
            assert_eq!(cycle_nodes, vec!["strand 2".to_string()])
        }
        other => panic!("Expected NotADag for cyclic graph, got {other:?}"),
    }
    assert!(matches!(
        translate_machine_parse_error(MachineParseError::UnknownCap { cap_urn: "c".to_string() }),
        ParseOrchestrationError::CapNotFound { .. }
    ));
    assert!(matches!(
        translate_machine_parse_error(MachineParseError::Other { message: "m".to_string() }),
        ParseOrchestrationError::MachineSyntaxParseFailed(_)
    ));
}

#[test]
fn test1257_parse_two_step_chain() {
    let embed =
        "cap:in=\"media:enc=utf-8;ext=txt\";embed;out=\"media:embedding-vector;enc=utf-8;record\"";
    let caps = registry(&[
        (EXTRACT, &["media:ext=pdf"]),
        (embed, &["media:enc=utf-8;ext=txt"]),
    ]);
    let s = strand(
        &[
            ("A", "media:ext=pdf"),
            ("B", "media:enc=utf-8;ext=txt"),
            ("C", "media:embedding-vector;enc=utf-8;record"),
        ],
        &[
            (EXTRACT, 1, &[(0, "media:ext=pdf")]),
            (embed, 2, &[(1, "media:enc=utf-8;ext=txt")]),
        ],
    );
    let graph = wired(wire_strands(&vec![s], &caps))
        .label(vec!["t0".to_string(), "t1".to_string()]);
    assert_eq!(graph.nodes.len(), 3);
    assert_eq!(graph.edges.len(), 2);
    assert!(media(graph.nodes.get("B").unwrap()).is_equivalent(&media("media:enc=utf-8;ext=txt")));
}

#[test]
fn test1258_parse_fan_out() {
    let meta =
        "cap:in=\"media:ext=pdf\";extract-metadata;out=\"media:enc=utf-8;file-metadata;record\"";
    let outline =
        "cap:in=\"media:ext=pdf\";extract-outline;out=\"media:document-outline;enc=utf-8;record\"";
    let thumb =
        "cap:in=\"media:ext=pdf\";generate-thumbnail;out=\"media:ext=png;image;thumbnail\"";
    let caps = registry(&[
        (meta, &["media:ext=pdf"]),
        (outline, &["media:ext=pdf"]),
        (thumb, &["media:ext=pdf"]),
    ]);
    let s = strand(
        &[
            ("doc", "media:ext=pdf"),
            ("metadata", "media:enc=utf-8;file-metadata;record"),
            ("outline_data", "media:document-outline;enc=utf-8;record"),
            ("thumbnail", "media:ext=png;image;thumbnail"),
        ],
        &[
            (meta, 1, &[(0, "media:ext=pdf")]),
            (outline, 2, &[(0, "media:ext=pdf")]),
            (thumb, 3, &[(0, "media:ext=pdf")]),
        ],
    );
    let graph = wired(wire_strands(&vec![s], &caps)).label(vec![
        "t0".to_string(),
        "t1".to_string(),
        "t2".to_string(),
    ]);
    assert_eq!(graph.nodes.len(), 4);
    assert_eq!(graph.edges.len(), 3);
}

#[test]
fn test1268_structure_match_both_opaque() {
    let produce = "cap:in=\"media:void\";produce;out=\"media:fmt=json\"";
    let format = "cap:in=\"media:fmt=json\";format;out=\"media:enc=utf-8;ext=txt\"";
    let caps = registry(&[(produce, &["media:void"]), (format, &["media:fmt=json"])]);
    let s = strand(
        &[
            ("A", "media:void"),
            ("B", "media:fmt=json"),
            ("C", "media:enc=utf-8;ext=txt"),
        ],
        &[
            (produce, 1, &[(0, "media:void")]),
            (format, 2, &[(1, "media:fmt=json")]),
        ],
    );
    assert!(wire_strands(&vec![s], &caps).is_ok());
}
