use capdag_orchestrator::plan::{InputCardinality, MachineNode, MachinePlan, MachinePlanEdge};
use capdag_orchestrator::run_arguments::{
    Arguments, ArgumentUpdate, ArgumentUpdateDisposition, RunArgumentError, RunArgumentLedger,
};
use capdag_orchestrator::table::Table;

fn plan_linear(tokens: &[&str]) -> MachinePlan {
    let mut plan = MachinePlan::new("test");
    plan.add_node(MachineNode::input_slot(
        "input_0",
        "in",
        "media:",
        InputCardinality::Single,
    ));
    let mut prev = "input_0".to_string();
    for token in tokens {
        plan.add_node(MachineNode::cap(token, "cap:test"));
        plan.add_edge(MachinePlanEdge::direct(&prev, token));
        prev = token.to_string();
    }
    plan.add_node(MachineNode::output("output_0", "out", &prev));
    plan.add_edge(MachinePlanEdge::direct(&prev, "output_0"));
    plan
}

fn value(urn: &str, bytes: &[u8]) -> (String, Vec<u8>) {
    (urn.to_string(), bytes.to_vec())
}

fn update(token: &str, urn: &str, bytes: &[u8]) -> ArgumentUpdate {
    ArgumentUpdate {
        token_id: token.to_string(),
        media_urn: urn.to_string(),
        value: bytes.to_vec(),
    }
}

fn initial(token: &str, urn: &str, bytes: &[u8]) -> Arguments {
    let mut t: Arguments = Table::new();
    t.insert(token.to_string(), vec![value(urn, bytes)]);
    t
}

fn ledger(plan: &MachinePlan, values: Arguments) -> RunArgumentLedger {
    match RunArgumentLedger::new(plan, values) {
        Ok(l) => l,
        Err(e) => panic!("ledger refused: {}", e.message()),
    }
}

#[test]
fn test1470_update_before_dispatch_applies() {
    let plan = plan_linear(&["tok_a"]);
    let mut ledger = ledger(&plan, initial("tok_a", "media:numeric;width", b"3"));

    let applied = ledger
        .apply(&[update("tok_a", "media:numeric;width", b"7")])
        .unwrap();
    assert_eq!(applied.outcomes.len(), 1);
    assert_eq!(
        applied.outcomes[0].disposition,
        ArgumentUpdateDisposition::Applied
    );
    assert_eq!(applied.revision, 1);

    let snapshot = ledger.snapshot_for_segment(&plan);
    assert_eq!(
        snapshot.get("tok_a").unwrap(),
        &vec![value("media:numeric;width", b"7")]
    );
}

#[test]
fn test1471_update_after_segment_dispatch_is_already_dispatched() {
    let plan = plan_linear(&["tok_a"]);
    let mut ledger = ledger(&plan, initial("tok_a", "media:numeric;width", b"3"));

    let first = ledger.snapshot_for_segment(&plan);
    assert_eq!(
        first.get("tok_a").unwrap(),
        &vec![value("media:numeric;width", b"3")]
    );

    let applied = ledger
        .apply(&[update("tok_a", "media:numeric;width", b"7")])
        .unwrap();
    assert_eq!(
        applied.outcomes[0].disposition,
        ArgumentUpdateDisposition::AlreadyDispatched
    );
    // Nothing changed, so the revision holds.
    assert_eq!(applied.revision, 0);
    assert_eq!(
        ledger.snapshot_for_segment(&plan).get("tok_a").unwrap(),
        &vec![value("media:numeric;width", b"3")]
    );
}

#[test]
fn test1472_body_dispatch_race_semantics() {
    let plan = plan_linear(&["tok_body"]);
    let mut ledger = ledger(&plan, initial("tok_body", "media:enc=utf-8;question", b"old"));

    // Bodies 0 and 1 dispatch with the old value.
    assert_eq!(
        ledger.snapshot_for_body(&plan, 0).get("tok_body").unwrap(),
        &vec![value("media:enc=utf-8;question", b"old")]
    );
    let second = ledger.snapshot_for_body(&plan, 1);
    assert_eq!(
        second.get("tok_body").unwrap(),
        &vec![value("media:enc=utf-8;question", b"old")]
    );

    let applied = ledger
        .apply(&[update("tok_body", "media:enc=utf-8;question", b"new")])
        .unwrap();
    assert_eq!(
        applied.outcomes[0].disposition,
        ArgumentUpdateDisposition::AppliedToRemainingBodies {
            bodies_dispatched: 2
        }
    );

    // Body 2 reads the new value.
    assert_eq!(
        ledger.snapshot_for_body(&plan, 2).get("tok_body").unwrap(),
        &vec![value("media:enc=utf-8;question", b"new")]
    );

    // Source exhausted: no more bodies — later updates are honest about it.
    ledger.exhaust_bodies(&plan);
    let late = ledger
        .apply(&[update("tok_body", "media:enc=utf-8;question", b"too-late")])
        .unwrap();
    assert_eq!(
        late.outcomes[0].disposition,
        ArgumentUpdateDisposition::AlreadyDispatched
    );
}

#[test]
fn test1473_unknown_token_refuses_whole_batch() {
    let plan = plan_linear(&["tok_a"]);
    let mut ledger = ledger(&plan, Table::new());
    let err = ledger
        .apply(&[
            update("tok_a", "media:numeric;width", b"7"),
            update("tok_from_another_plan", "media:numeric;width", b"9"),
        ])
        .unwrap_err();
    assert!(matches!(err, RunArgumentError::UnknownStep { .. }));
    // The valid half of the batch did not apply.
    assert_eq!(ledger.revision(), 0);
    let snapshot = ledger.snapshot_for_segment(&plan);
    assert!(snapshot.get("tok_a").is_none());
}

#[test]
fn test1474_update_creates_first_binding() {
    let plan = plan_linear(&["tok_a"]);
    let mut ledger = ledger(&plan, Table::new());
    let applied = ledger
        .apply(&[update("tok_a", "media:numeric;width", b"7")])
        .unwrap();
    assert_eq!(
        applied.outcomes[0].disposition,
        ArgumentUpdateDisposition::Applied
    );
    assert_eq!(
        ledger.snapshot_for_segment(&plan).get("tok_a").unwrap(),
        &vec![value("media:numeric;width", b"7")]
    );
}

#[test]
fn test1475_initial_values_must_name_plan_steps() {
    let plan = plan_linear(&["tok_a"]);
    let values = initial("tok_stale", "media:numeric;width", b"3");
    match RunArgumentLedger::new(&plan, values) {
        Ok(_) => panic!("a stale step must be refused"),
        Err(err) => assert!(matches!(err, RunArgumentError::UnknownInitialStep { .. })),
    }
}

#[test]
fn an_invalid_media_urn_refuses_the_batch() {
    let plan = plan_linear(&["tok_a"]);
    let mut ledger = ledger(&plan, Table::new());
    let err = ledger
        .apply(&[update("tok_a", "not a urn", b"7")])
        .unwrap_err();
    match err {
        RunArgumentError::InvalidMediaUrn { token_id, media_urn, .. } => {
            assert_eq!(token_id, "tok_a");
            assert_eq!(media_urn, "not a urn");
        }
        other => panic!("unexpected: {}", other.message()),
    }
    assert_eq!(ledger.revision(), 0);
}

#[test]
fn an_update_finds_its_argument_by_equivalence() {
    let plan = plan_linear(&["tok_a"]);
    let mut ledger = ledger(&plan, initial("tok_a", "media:numeric;width", b"3"));
    ledger
        .apply(&[update("tok_a", "media:width;numeric", b"9")])
        .unwrap();
    let snapshot = ledger.snapshot_for_segment(&plan);
    let bindings = snapshot.get("tok_a").unwrap();
    assert_eq!(bindings.len(), 1);
    assert_eq!(bindings[0].1, b"9".to_vec());
}

#[test]
fn the_ledger_journals_the_caps_of_the_plan() {
    let plan = plan_linear(&["tok_a", "tok_b"]);
    let ledger = ledger(&plan, Table::new());
    let mut tokens = ledger.step_tokens();
    tokens.sort();
    assert_eq!(tokens, vec!["tok_a".to_string(), "tok_b".to_string()]);
}

#[test]
fn the_revision_never_falls() {
    let plan = plan_linear(&["tok_a"]);
    let mut ledger = ledger(&plan, Table::new());
    ledger.apply(&[update("tok_a", "media:w", b"1")]).unwrap();
    ledger.apply(&[update("tok_a", "media:w", b"2")]).unwrap();
    assert_eq!(ledger.revision(), 2);
    ledger.snapshot_for_segment(&plan);
    ledger.apply(&[update("tok_a", "media:w", b"3")]).unwrap();
    assert_eq!(ledger.revision(), 2);
}

#[test]
fn a_refused_batch_leaves_no_trace_behind() {
    let plan = plan_linear(&["tok_a", "tok_b"]);
    let mut ledger = ledger(&plan, initial("tok_a", "media:width", b"3"));
    assert!(ledger
        .apply(&[update("tok_a", "media:width", b"9"), update("nowhere", "media:width", b"9")])
        .is_err());
    assert_eq!(ledger.revision(), 0);
    let applied = ledger.apply(&[update("tok_b", "media:width", b"5")]).unwrap();
    assert_eq!(applied.outcomes[0].disposition, ArgumentUpdateDisposition::Applied);
    let snapshot = ledger.snapshot_for_segment(&plan);
    assert_eq!(snapshot.get("tok_a").unwrap(), &vec![value("media:width", b"3")]);
    assert_eq!(snapshot.get("tok_b").unwrap(), &vec![value("media:width", b"5")]);
}

#[test]
fn dispositions_follow_the_dispatches_in_any_order() {
    let plan = plan_linear(&["tok_a"]);
    for bodies in [[0usize, 2, 1], [2, 1, 0], [1, 0, 2]] {
        let mut ledger = ledger(&plan, Table::new());
        for b in bodies {
            let _ = ledger.snapshot_for_body(&plan, b);
            let _ = ledger.apply(&[update("tok_a", "media:width", b"1")]);
        }
        let applied = ledger.apply(&[update("tok_a", "media:width", b"2")]).unwrap();
        assert_eq!(
            applied.outcomes[0].disposition,
            ArgumentUpdateDisposition::AppliedToRemainingBodies { bodies_dispatched: 3 }
        );
        ledger.exhaust_bodies(&plan);
        let applied = ledger.apply(&[update("tok_a", "media:width", b"3")]).unwrap();
        assert_eq!(
            applied.outcomes[0].disposition,
            ArgumentUpdateDisposition::AlreadyDispatched
        );
    }
}

#[test]
fn a_batch_leaves_other_arguments_alone() {
    let plan = plan_linear(&["tok_a", "tok_b"]);
    let mut values = initial("tok_a", "media:enc=utf-8;width", b"3");
    values.insert("tok_b".to_string(), vec![value("media:x", b"1"), value("media:y", b"2")]);
    let mut ledger = ledger(&plan, values);
    ledger
        .apply(&[update("tok_b", "media:y", b"7"), update("tok_b", "media:z", b"8")])
        .unwrap();
    let snapshot = ledger.snapshot_for_segment(&plan);
    assert_eq!(snapshot.get("tok_a").unwrap(), &vec![value("media:enc=utf-8;width", b"3")]);
    assert_eq!(
        snapshot.get("tok_b").unwrap(),
        &vec![value("media:x", b"1"), value("media:y", b"7"), value("media:z", b"8")]
    );
}
