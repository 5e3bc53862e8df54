use capdag_orchestrator::executor_error::ExecutionError;
use capdag_orchestrator::failure::AttributionClass;
use capdag_orchestrator::urn::{CapUrn, MediaUrn};

fn failed() -> ExecutionError {
    ExecutionError::CartridgeExecutionFailed {
        cap_urn: "cap:x".to_string(),
        code: Some("E1".to_string()),
        class: AttributionClass::Resource,
        details: "out of memory".to_string(),
        arg_urn: Some("media:w".to_string()),
    }
}

#[test]
fn attribution_keeps_the_declared_identity() {
    let e = failed().at_step(&"first".to_string()).at_step(&"second".to_string());
    assert_eq!(e.step_token_id().unwrap(), "first");
    assert_eq!(e.failure_code(), Some("E1"));
    assert_eq!(e.failure_arg_urn(), Some("media:w"));
    assert_eq!(e.failure_cap_urn(), Some("cap:x"));
    assert!(e.attribution_class() == AttributionClass::Resource);
    assert_eq!(e.failure_reason(), failed().failure_reason());
}

#[test]
fn every_error_reads() {
    let errors = vec![
        ExecutionError::CartridgeNotFound { cap_urn: "cap:x".to_string() },
        ExecutionError::CartridgeDownloadFailed("why".to_string()),
        failed(),
        ExecutionError::EffectContractViolation {
            cap_urn: "cap:x".to_string(),
            effect: "none".to_string(),
            runtime_input: "media:".to_string(),
            expected: "media:".to_string(),
            actual: "media:a".to_string(),
        },
        ExecutionError::NoIncomingData { node: "n".to_string() },
        ExecutionError::IoError("io".to_string()),
        ExecutionError::HostError("host".to_string()),
        ExecutionError::CartridgeUnavailable {
            cap_urn: "cap:x".to_string(),
            details: "left".to_string(),
        },
        ExecutionError::FabricRegistryError("fabric".to_string()),
    ];
    for e in errors {
        assert!(!e.message().is_empty());
        assert!(e.step_token_id().is_none());
    }
    assert_eq!(ExecutionError::HostError("host".to_string()).message(), "Host error: host");
}

fn media(s: &str) -> MediaUrn {
    match MediaUrn::from_string(s) {
        Ok(u) => u,
        Err(e) => panic!("{}", e.detail()),
    }
}

#[test]
fn media_types_are_compared_by_their_tags() {
    assert!(media("media:a;b").is_equivalent(&media("media:b;a")));
    assert!(media("media:a;b").conforms_to(&media("media:a")));
    assert!(!media("media:a").conforms_to(&media("media:a;b")));
    assert!(media("media:a").is_comparable(&media("media:a;b")));
    assert!(!media("media:a").is_comparable(&media("media:b")));
    assert!(media("media:x").conforms_to(&media("media:")));
    assert!(media("media:record;x").is_record());
    assert!(MediaUrn::from_string("cap:x").is_err());
    assert!(MediaUrn::from_string("media:a;a").is_err());
}

#[test]
fn capability_urns_have_defaults() {
    let u = match CapUrn::from_string("cap:in=\"media:a;b\";op;out=media:") {
        Ok(u) => u,
        Err(e) => panic!("{}", e.detail()),
    };
    assert_eq!(u.in_spec(), "media:a;b");
    assert_eq!(u.out_spec(), "media:");
    assert_eq!(u.effect(), "declared");
    let bare = match CapUrn::from_string("cap:x") {
        Ok(u) => u,
        Err(e) => panic!("{}", e.detail()),
    };
    assert_eq!(bare.in_spec(), "media:");
}
