use capdag_orchestrator::cartridge::{
    after_verification, bundled_cartridges, cartridge_identity, choose_suggestion, dev_binary_missing, dev_path, download_failed,
    download_url, host_id, integrity_failed, platform_binary_name, probe_failed, registry_folder,
    sync_failed, unreadable_install, CapGroup, CapManifest, CartridgeBinaryInfo, CartridgeBuild,
    discovery_failed, CartridgeChannel, CartridgeInfo, CartridgeManager, DevPath,
    DiscoveredCartridge, DownloadFailure, HostableCartridge, InstallRecord, InstalledAction, ProbeFailure,
    InstalledVersion,
};
use capdag_orchestrator::cli_runtime::{foreach_partial_failure_policy, writer_tag, CliHost};
use capdag_orchestrator::dag::ForEachBodyCoordinate;
use capdag_orchestrator::executor_error::ExecutionError;
use capdag_orchestrator::failure::AttributionClass;
use capdag_orchestrator::urn::CapUrn;

const REGISTRY: &str = "https://registry.example/manifest";

fn manager(registry: Option<&str>, trusted: bool, dev: Vec<DevPath>) -> CartridgeManager {
    CartridgeManager::new(
        "/cartridges".to_string(),
        registry.map(|r| r.to_string()),
        CartridgeChannel::Release,
        3,
        dev,
        trusted,
    )
}

fn cap(urn: &str) -> CapUrn {
    match CapUrn::from_string(urn) {
        Ok(u) => u,
        Err(e) => panic!("{}", e.detail()),
    }
}

fn text<T>(r: Result<T, ExecutionError>) -> String {
    match r {
        Ok(_) => panic!("expected a failure"),
        Err(e) => e.message(),
    }
}

#[test]
fn dev_paths_resolve_to_binaries() {
    let m = manager(
        None,
        false,
        vec![
            DevPath::File("/a".to_string()),
            DevPath::Cartridge { entry_point: "/b/bin".to_string() },
            DevPath::Plain { executables: vec!["/c/x".to_string(), "/c/y".to_string()] },
            DevPath::Skipped,
        ],
    );
    assert_eq!(m.dev_cartridges.len(), 4);
    assert!(m.dev_cartridges.get("/c/y").unwrap().name.is_empty());
}

#[test]
fn registry_operations_need_a_registry_and_trust() {
    let m = manager(None, false, Vec::new());
    assert!(text(m.registry_url_required("ctx")).contains("ctx: this build bakes no cartridge registry"));
    assert!(text(m.trust_required("ctx")).contains("ctx: this build bakes no cartridge signing root keys"));
    let m = manager(Some(REGISTRY), true, Vec::new());
    match m.registry_url_required("ctx") {
        Ok(url) => assert_eq!(url, REGISTRY),
        Err(e) => panic!("{}", e.message()),
    }
    assert!(m.trust_required("ctx").is_ok());
    assert_eq!(
        sync_failed(REGISTRY, "offline").message(),
        format!("Host error: cartridge registry sync failed for '{REGISTRY}': offline")
    );
}

#[test]
fn a_dev_binary_serves_exactly_the_cap_it_declares() {
    let mut m = manager(None, false, vec![DevPath::File("/bin/a".to_string())]);
    m.set_manifest(
        "/bin/a".to_string(),
        CapManifest {
            name: "a".to_string(),
            version: "1.0".to_string(),
            channel: CartridgeChannel::Nightly,
            cap_groups: vec![CapGroup {
                name: "main".to_string(),
                caps: vec![cap("cap:b;a")],
                adapter_urns: vec!["media:pdf".to_string()],
            }],
        },
    );
    match m.find_dev_binary("cap:a;b") {
        Ok(Some(found)) => {
            assert_eq!(found.path, "/bin/a");
            assert_eq!(found.cartridge_id, "dev:/bin/a");
        }
        _ => panic!("found"),
    }
    assert!(matches!(m.find_dev_binary("cap:a"), Ok(None)));
    assert!(text(m.find_dev_binary("nonsense")).contains("Invalid URN: nonsense"));
    assert_eq!(dev_path("dev:/bin/a").as_deref(), Some("/bin/a"));
    assert_eq!(dev_path("pdf"), None);

    let hosted = m.resolve_cartridges(
        &vec!["/bin/z".to_string(), "/bin/z".to_string()],
        &cap("cap:identity"),
    );
    assert_eq!(hosted.len(), 2);
    assert_eq!(hosted[0].path, "/bin/z");
    assert!(hosted[0].identity.is_none());
    assert!(
        hosted[1].identity
            == Some(("a".to_string(), "1.0".to_string(), CartridgeChannel::Nightly))
    );
    // A registry install is probed by the identity cap; a dev binary comes with
    // all that it declares.
    assert_eq!(hosted[0].cap_groups.len(), 1);
    assert_eq!(hosted[0].cap_groups[0].name, "identity");
    assert_eq!(hosted[0].cap_groups[0].caps[0].text, "cap:identity");
    assert!(hosted[0].cap_groups[0].adapter_urns.is_empty());
    assert_eq!(hosted[1].cap_groups[0].name, "main");
    assert_eq!(hosted[1].cap_groups[0].caps[0].text, "cap:b;a");
    assert_eq!(hosted[1].cap_groups[0].adapter_urns, vec!["media:pdf".to_string()]);
}

#[test]
fn the_first_suggestion_is_taken() {
    let s = vec!["one".to_string(), "two".to_string()];
    match choose_suggestion("cap:x", &s) {
        Ok(id) => assert_eq!(id, "one"),
        Err(e) => panic!("{}", e.message()),
    }
    match choose_suggestion("cap:x", &Vec::new()) {
        Err(ExecutionError::CartridgeNotFound { cap_urn }) => assert_eq!(cap_urn, "cap:x"),
        _ => panic!("not found"),
    }
}

#[test]
fn a_host_id_does_not_depend_on_order() {
    let a = host_id(vec!["/b".to_string(), "/a".to_string()]);
    let b = host_id(vec!["/a".to_string(), "/b".to_string()]);
    assert_eq!(a, "cartridge-host:/a|/b");
    assert_eq!(a, b);
}

fn installed(version: &str, channel: CartridgeChannel, registry: Option<&str>) -> InstalledVersion {
    InstalledVersion {
        version: version.to_string(),
        channel,
        registry_url: registry.map(|r| r.to_string()),
        entry_point: format!("/{version}"),
    }
}

#[test]
fn the_latest_usable_version_runs() {
    let m = manager(Some(REGISTRY), true, Vec::new());
    let versions = vec![
        installed("1.9", CartridgeChannel::Release, Some(REGISTRY)),
        installed("1.10.0", CartridgeChannel::Release, Some(REGISTRY)),
        installed("1.10", CartridgeChannel::Release, Some(REGISTRY)),
        installed("9.0", CartridgeChannel::Nightly, Some(REGISTRY)),
        installed("8.0", CartridgeChannel::Release, Some("https://other")),
        installed("7.0", CartridgeChannel::Release, None),
    ];
    assert_eq!(m.latest_installed(&versions, REGISTRY).as_deref(), Some("/1.10.0"));
    assert_eq!(m.latest_installed(&Vec::new(), REGISTRY), None);
    assert_eq!(
        m.install_path("slug", 5, "pdf"),
        vec!["/cartridges", "slug", "v5", "release", "pdf"]
    );
    let dirs: Vec<String> = ["slug", "v5", "release", "pdf", "1.0"].iter().map(|s| s.to_string()).collect();
    assert_eq!(registry_folder(&dirs).unwrap(), "slug");
    assert!(registry_folder(&dirs[1..].to_vec()).is_none());
}

fn binary(sha256: &str, size: u64) -> CartridgeBinaryInfo {
    CartridgeBinaryInfo {
        url: "https://cdn/x".to_string(),
        sha256: sha256.to_string(),
        size,
        signature: "sig".to_string(),
    }
}

#[test]
fn a_published_binary_is_found_by_platform() {
    let m = manager(Some(REGISTRY), true, Vec::new());
    let info = CartridgeInfo {
        version: "2.1".to_string(),
        builds: vec![
            CartridgeBuild { platform: "darwin-arm64".to_string(), binary: None },
            CartridgeBuild { platform: "linux-x86_64".to_string(), binary: Some(binary("ab", 1)) },
        ],
    };
    match m.registry_binary_info("pdf", Some(&info), "linux-x86_64") {
        Ok((i, b)) => {
            assert_eq!(i.version, "2.1");
            assert_eq!(b.sha256, "ab");
        }
        Err(e) => panic!("{}", e.message()),
    }
    assert!(text(m.registry_binary_info("pdf", None, "x")).contains("Cartridge pdf not found in release registry"));
    assert!(text(m.registry_binary_info("pdf", Some(&info), "windows-x86_64"))
        .contains("has no build for platform 'windows-x86_64'. Available: [\"darwin-arm64\", \"linux-x86_64\"]"));
    assert!(text(m.registry_binary_info("pdf", Some(&info), "darwin-arm64"))
        .contains("publishes no signed pure-binary artifact"));
    let r = m.provenance("pdf", REGISTRY, &info, &binary("ab", 1), "pdf".to_string(), "now".to_string());
    assert_eq!(r.version, "2.1");
    assert_eq!(r.source_url, "https://cdn/x");
    assert_eq!(r.fabric_manifest_version, 3);
}

const ABC_SHA256: &str = "ba7816bf8f01cfea414140de5dae2223b00361a396177a9cb410ff61f20015ad";

#[test]
fn only_verified_bytes_pass() {
    let m = manager(Some(REGISTRY), true, Vec::new());
    let good = vec![Err("other key".to_string()), Ok(())];
    assert!(m
        .verify_binary_against_manifest(REGISTRY, "pdf", &binary(ABC_SHA256, 3), b"abc", &good)
        .is_ok());
    let e = text(m.verify_binary_against_manifest(REGISTRY, "pdf", &binary("00", 3), b"abc", &good));
    assert!(
        e.contains(&format!("SHA256 mismatch for pdf!\n  Expected: 00\n  Computed: {ABC_SHA256}")),
        "{e}"
    );
    let e = text(m.verify_binary_against_manifest(REGISTRY, "pdf", &binary(ABC_SHA256, 4), b"abc", &good));
    assert!(e.contains("manifest says 4 bytes, got 3"), "{e}");
    let e = text(m.verify_binary_against_manifest(REGISTRY, "pdf", &binary(ABC_SHA256, 3), b"abc", &Vec::new()));
    assert!(e.contains("no certificate-authorized release keys"), "{e}");
    let bad = vec![Err("first".to_string()), Err("second".to_string())];
    let e = text(m.verify_binary_against_manifest(REGISTRY, "pdf", &binary(ABC_SHA256, 3), b"abc", &bad));
    assert!(e.contains("any of the 2 certificate-authorized release key(s)"), "{e}");
    assert!(e.ends_with("second"), "{e}");
    let untrusted = manager(Some(REGISTRY), false, Vec::new());
    assert!(untrusted
        .verify_binary_against_manifest(REGISTRY, "pdf", &binary(ABC_SHA256, 3), b"abc", &good)
        .is_err());
    assert!(m.check_binary(REGISTRY, "pdf", &binary("x", 0), "x", 0, &good).is_ok());
}

#[test]
fn a_stale_install_never_runs() {
    let broken = || Err(ExecutionError::HostError("tampered".to_string()));
    assert!(matches!(after_verification(Ok(()), false), InstalledAction::Use));
    assert!(matches!(after_verification(broken(), true), InstalledAction::Download));
    match after_verification(broken(), false) {
        InstalledAction::Fail(e) => assert!(e.message().contains("tampered")),
        _ => panic!("the failure stands"),
    }
    let e = integrity_failed("pdf", "/p", &ExecutionError::HostError("tampered".to_string()));
    assert!(e.attribution_class() == AttributionClass::Environment);
    assert!(e.message().contains("installed binary at \"/p\" failed integrity verification: "));
    let e = unreadable_install("pdf", "/p", "denied");
    assert!(e.message().contains("failed to read installed binary \"/p\" for integrity verification: denied"));
    assert!(dev_binary_missing("dev:/p", "/p").message().contains("Dev binary not found: \"/p\""));
    assert!(probe_failed(ProbeFailure::Spawn("denied".to_string()))
        .message()
        .contains("Failed to spawn cartridge: denied"));
    assert_eq!(
        probe_failed(ProbeFailure::Handshake("eof".to_string())).message(),
        "Host error: Handshake failed: eof"
    );
    assert_eq!(
        probe_failed(ProbeFailure::Manifest("no name".to_string())).message(),
        "Host error: Bad manifest: no name"
    );
}

#[test]
fn downloads_are_keyed_to_their_content() {
    assert_eq!(download_url(&binary("ab", 1)), "https://cdn/x?sha256=ab");
    let mut b = binary("ab", 1);
    b.url = "https://cdn/x?v=1".to_string();
    assert_eq!(download_url(&b), "https://cdn/x?v=1&sha256=ab");
    let failures = [
        (DownloadFailure::Request("r".to_string()), "Download failed: r"),
        (
            DownloadFailure::Status { status: "404".to_string(), url: "u".to_string() },
            "HTTP 404 from u",
        ),
        (DownloadFailure::Body("b".to_string()), "Read failed: b"),
        (DownloadFailure::Record("w".to_string()), "Failed to write cartridge.json: w"),
    ];
    for (f, expected) in failures {
        match download_failed(f) {
            ExecutionError::CartridgeDownloadFailed(m) => assert_eq!(m, expected),
            other => panic!("{}", other.message()),
        }
    }
    assert_eq!(platform_binary_name("pdf", false), "pdf");
    assert_eq!(platform_binary_name("pdf", true), "pdf.exe");
    assert_eq!(CartridgeChannel::Nightly.as_str(), "nightly");
}

fn hostable(path: &str) -> HostableCartridge {
    HostableCartridge { path: path.to_string(), identity: None, cap_groups: Vec::new() }
}

#[test]
fn a_cartridge_is_hosted_once_per_runtime() {
    let mut host = CliHost::new();
    let caps = vec!["cap:a".to_string()];
    assert!(!host.serves(&caps));
    assert!(host.needs_bundled());
    host.bundled_done();
    assert!(!host.needs_bundled());
    assert_eq!(host.take_new(vec![hostable("/a"), hostable("/b")]).len(), 2);
    host.started();
    host.record_caps(&caps);
    assert!(host.serves(&caps));
    assert!(!host.serves(&vec!["cap:a".to_string(), "cap:b".to_string()]));
    let next = host.take_new(vec![hostable("/b"), hostable("/c")]);
    assert_eq!(next.len(), 1);
    assert_eq!(next[0].path, "/c");
    assert!(host.take_new(vec![hostable("/c")]).is_empty());
}

#[test]
fn part_files_are_named_by_sink_and_body() {
    assert_eq!(writer_tag(7, "out", &None), "7.out");
    let body = ForEachBodyCoordinate { foreach_token_id: "f".to_string(), body_index: 3 };
    assert_eq!(writer_tag(8, "out", &Some(body)), "8.out.b3");
    assert_eq!(foreach_partial_failure_policy(), "fail");
}

#[test]
fn incompatible_bundles_are_skipped() {
    let hosted = bundled_cartridges(vec![
        DiscoveredCartridge::Incompatible {
            id: "old".to_string(),
            version: "0.1".to_string(),
            reason: "abi".to_string(),
        },
        DiscoveredCartridge::Directory {
            entry_point: "/b/pdf".to_string(),
            id: "pdf".to_string(),
            version: "1.0".to_string(),
            channel: CartridgeChannel::Release,
            cap_groups: Vec::new(),
        },
    ]);
    assert_eq!(hosted.len(), 1);
    assert_eq!(hosted[0].path, "/b/pdf");
    assert!(hosted[0].identity.is_some());
    assert!(discovery_failed("io").message().contains("bundled cartridge discovery failed: io"));
}

#[test]
fn an_identity_is_never_guessed() {
    let me = Some(("dev".to_string(), "0".to_string(), CartridgeChannel::Nightly));
    match cartridge_identity("/p", InstallRecord::Absent, me.clone()) {
        Ok(i) => {
            assert_eq!(i.name, "dev");
            assert!(i.registry_url.is_none());
        }
        Err(e) => panic!("{}", e.message()),
    }
    match cartridge_identity(
        "/p",
        InstallRecord::Read {
            name: "pdf".to_string(),
            version: "1.0".to_string(),
            channel: CartridgeChannel::Release,
            registry_url: Some(REGISTRY.to_string()),
        },
        me.clone(),
    ) {
        Ok(i) => assert_eq!(i.name, "pdf"),
        Err(e) => panic!("{}", e.message()),
    }
    assert!(text(cartridge_identity("/p", InstallRecord::Absent, None)).contains("has no manifest identity"));
    assert!(text(cartridge_identity("/p", InstallRecord::NoParent, me.clone())).contains("has no parent directory"));
    assert!(text(cartridge_identity("/p", InstallRecord::NoTree, me.clone())).contains("is not under a valid"));
    assert!(text(cartridge_identity("/p", InstallRecord::Unreadable("bad".to_string()), me))
        .contains("reading cartridge.json for /p: bad"));
}
