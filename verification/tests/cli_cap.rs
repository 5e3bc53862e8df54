use capdag_orchestrator::cap::{ArgSource, Cap, CapArg, CapOutput};
use capdag_orchestrator::cli_cap::{
    classify_cap_token, file_argument, map_invocation, render_cap_interface,
    synthesize_single_cap_notation, CapInvocation, CapToken, SINGLE_CAP_INPUT_NODE,
    SINGLE_CAP_OUTPUT_NODE, SINGLE_CAP_STEP_NAME,
};
use capdag_orchestrator::urn::CapUrn;

fn arg(
    media_urn: &str,
    required: bool,
    sources: Vec<ArgSource>,
    default: Option<&str>,
) -> CapArg {
    CapArg {
        media_urn: media_urn.to_string(),
        required,
        is_sequence: false,
        streaming: false,
        sources,
        arg_description: None,
        default_value: default.map(|d| d.to_string()),
    }
}

fn test_cap() -> Cap {
    let urn = match CapUrn::from_string(
        r#"cap:in="media:ext=pdf";summarize;out="media:enc=utf-8;summary""#,
    ) {
        Ok(u) => u,
        Err(e) => panic!("{}", e.detail()),
    };
    let mut cap = Cap::new(urn, "Summarize".to_string(), vec!["summarize".to_string()]);
    cap.args = vec![
        arg(
            "media:ext=pdf",
            true,
            vec![ArgSource::Stdin {
                stdin: "media:ext=pdf".to_string(),
            }],
            None,
        ),
        arg(
            "media:enc=utf-8;model-spec",
            true,
            vec![ArgSource::CliFlag {
                cli_flag: "--model-spec".to_string(),
            }],
            None,
        ),
        arg(
            "media:budget;numeric",
            false,
            vec![ArgSource::CliFlag {
                cli_flag: "--budget".to_string(),
            }],
            Some("400"),
        ),
        arg(
            "media:criterion;enc=utf-8",
            false,
            vec![ArgSource::Position { position: 0 }],
            None,
        ),
    ];
    cap.output = Some(CapOutput {
        media_urn: "media:enc=utf-8;summary".to_string(),
        output_description: String::new(),
        is_sequence: false,
        streaming: false,
    });
    cap
}

fn map(cap: &Cap, tokens: &[&str], pairs: &[(&str, &str)]) -> Result<CapInvocation, String> {
    map_with_files(cap, tokens, pairs, Vec::new())
}

/// Map an invocation; `files` holds what reading each named file gave.
fn map_with_files(
    cap: &Cap,
    tokens: &[&str],
    pairs: &[(&str, &str)],
    mut files: Vec<Result<Vec<u8>, String>>,
) -> Result<CapInvocation, String> {
    let tokens: Vec<String> = tokens.iter().map(|t| t.to_string()).collect();
    let pairs: Vec<(String, String)> = pairs
        .iter()
        .map(|(n, v)| (n.to_string(), v.to_string()))
        .collect();
    let reads: Vec<Option<Result<Vec<u8>, String>>> = pairs
        .iter()
        .map(|(_, v)| file_argument(v).map(|_| files.remove(0)))
        .collect();
    map_invocation(cap, &tokens, &pairs, &reads)
}

#[test]
fn test8040_single_cap_notation_synthesis() {
    let cap = test_cap();
    let notation = synthesize_single_cap_notation(&cap).expect("one stdin arg + output");
    assert!(
        notation.starts_with(&format!("[{SINGLE_CAP_STEP_NAME} cap:")),
        "header must open with the step label and the resolved URN: {notation}"
    );
    assert!(notation.contains("summarize"), "URN must ride verbatim");
    assert!(notation.ends_with(&format!(
        "[{SINGLE_CAP_INPUT_NODE} -> {SINGLE_CAP_STEP_NAME} -> {SINGLE_CAP_OUTPUT_NODE}]"
    )));

    let mut no_stdin = test_cap();
    no_stdin.args.retain(|a| !a.has_stdin_source());
    let err = synthesize_single_cap_notation(&no_stdin).unwrap_err();
    assert!(err.contains("no piped (stdin) input"), "{err}");

    let mut no_output = test_cap();
    no_output.output = None;
    let err = synthesize_single_cap_notation(&no_output).unwrap_err();
    assert!(err.contains("declares no output"), "{err}");
}

#[test]
fn two_piped_inputs_are_refused() {
    let mut cap = test_cap();
    cap.args.push(arg(
        "media:x",
        true,
        vec![ArgSource::Stdin {
            stdin: "media:x".to_string(),
        }],
        None,
    ));
    let err = synthesize_single_cap_notation(&cap).unwrap_err();
    assert!(err.contains("takes 2 piped inputs"), "{err}");
}

#[test]
fn test8041_cap_invocation_mapping() {
    let cap = test_cap();

    // Native flag (space form) + positional arg + leftover input path.
    let invocation = map(
        &cap,
        &["--model-spec", "hf:foo/bar", "focus on costs", "doc.pdf"],
        &[],
    )
    .unwrap();
    assert_eq!(
        invocation.cap_arguments,
        vec![
            (
                "media:enc=utf-8;model-spec".to_string(),
                b"hf:foo/bar".to_vec()
            ),
            (
                "media:criterion;enc=utf-8".to_string(),
                b"focus on costs".to_vec()
            ),
        ]
    );
    assert_eq!(invocation.input_paths, vec!["doc.pdf".to_string()]);

    // `--flag=value` form is equivalent.
    let eq_form = map(
        &cap,
        &["--model-spec=hf:foo/bar", "focus on costs", "doc.pdf"],
        &[],
    )
    .unwrap();
    assert_eq!(invocation, eq_form);

    // Unknown flag: hard error listing the cap's flags and media URNs.
    let err = map(&cap, &["--bogus", "v"], &[]).unwrap_err();
    assert!(err.contains("no arg with CLI flag '--bogus'"), "{err}");
    assert!(err.contains("--model-spec"), "{err}");

    // Explicit --arg by media URN (tag order irrelevant — equivalence)
    // and @file bytes.
    let invocation = map_with_files(
        &cap,
        &[],
        &[("media:model-spec;enc=utf-8", "@payload.bin")],
        vec![Ok(b"\x00\x01binary".to_vec())],
    )
    .unwrap();
    assert_eq!(invocation.cap_arguments[0].0, "media:enc=utf-8;model-spec");
    assert_eq!(invocation.cap_arguments[0].1, b"\x00\x01binary");

    // Missing required defaultless arg fails pre-flight naming the flag;
    // the optional defaulted `--budget` and the optional positional are
    // NOT demanded.
    let err = map(&cap, &[], &[]).unwrap_err();
    assert!(err.contains("missing required options"), "{err}");
    assert!(err.contains("--model-spec"), "{err}");
    assert!(
        err.contains("media:enc=utf-8;model-spec"),
        "missing options are named with their media URN: {err}"
    );
    assert!(
        !err.contains("budget"),
        "defaulted args not required: {err}"
    );
    assert!(
        !err.contains("criterion"),
        "optional args not required: {err}"
    );

    // A flag missing its value is a hard error, not a silent empty.
    let err = map(&cap, &["--model-spec"], &[]).unwrap_err();
    assert!(err.contains("requires a value"), "{err}");
}

#[test]
fn explicit_pairs_take_flags_and_plain_values() {
    let cap = test_cap();
    let invocation = map(&cap, &[], &[("--model-spec", "hf:a/b"), ("budget", "9")]).unwrap();
    assert_eq!(
        invocation.cap_arguments,
        vec![
            ("media:enc=utf-8;model-spec".to_string(), b"hf:a/b".to_vec()),
            ("media:budget;numeric".to_string(), b"9".to_vec()),
        ]
    );
}

#[test]
fn explicit_pairs_name_what_is_wrong() {
    let cap = test_cap();
    let err = map_with_files(
        &cap,
        &[],
        &[("model-spec", "@gone.bin")],
        vec![Err("no such file".to_string())],
    )
    .unwrap_err();
    assert_eq!(
        err,
        "--arg model-spec=@gone.bin: failed to read file: no such file"
    );
    let err = map(&cap, &[], &[("media:other", "1")]).unwrap_err();
    assert!(
        err.contains("has no non-stdin arg with media URN 'media:other'"),
        "{err}"
    );
    let err = map(&cap, &[], &[("nonsense: urn", "1")]).unwrap_err();
    assert!(err.contains("is not a valid media URN"), "{err}");

    let mut twice = test_cap();
    twice.args[2].sources = vec![ArgSource::CliFlag {
        cli_flag: "--model-spec".to_string(),
    }];
    let err = map(&twice, &["--model-spec", "x"], &[]).unwrap_err();
    assert!(err.contains("is ambiguous: 2 args"), "{err}");

    let mut shared = test_cap();
    shared.args[2].media_urn = "media:model-spec;enc=utf-8".to_string();
    let err = map(&shared, &[], &[("media:enc=utf-8;model-spec", "x")]).unwrap_err();
    assert!(err.contains("share that media URN"), "{err}");
}

#[test]
fn positions_are_filled_in_declared_order() {
    let mut cap = test_cap();
    cap.args[1].required = false;
    cap.args[2].sources = vec![ArgSource::Position { position: 2 }];
    cap.args[3].sources = vec![ArgSource::Position { position: 1 }];
    let invocation = map(&cap, &["first", "second", "path"], &[]).unwrap();
    assert_eq!(
        invocation.cap_arguments,
        vec![
            ("media:criterion;enc=utf-8".to_string(), b"first".to_vec()),
            ("media:budget;numeric".to_string(), b"second".to_vec()),
        ]
    );
    assert_eq!(invocation.input_paths, vec!["path".to_string()]);
}

#[test]
fn test8043_cap_token_classification() {
    assert_eq!(
        classify_cap_token("pdf2summary").unwrap(),
        CapToken::Alias("pdf2summary".to_string())
    );
    match classify_cap_token(r#"cap:in="media:ext=pdf";summarize;out="media:enc=utf-8""#)
        .unwrap()
    {
        CapToken::Urn(urn) => assert!(urn.contains("summarize")),
        other => panic!("expected Urn, got {other:?}"),
    }
    // ':' present but not a parseable cap URN — hard error, no alias
    // fall-through.
    let err = classify_cap_token("media:ext=pdf").unwrap_err();
    assert!(err.contains("does not parse"), "{err}");
    let err = classify_cap_token("cap:no way this parses\u{7f}").unwrap_err();
    assert!(err.contains("does not parse"), "{err}");
}

#[test]
fn the_interface_is_rendered_by_role() {
    let mut cap = test_cap();
    cap.args[1].arg_description = Some("  Which model  ".to_string());
    cap.args[0].is_sequence = true;
    let text = render_cap_interface(&cap).unwrap();
    let expected = "cap:in=\"media:ext=pdf\";summarize;out=\"media:enc=utf-8;summary\"\n\
        Summarize\n\
        Aliases: summarize\n\
        \n\
        Input (piped stdin, or input file path(s)):\n\
        \x20 media:ext=pdf [sequence]\n\
        \n\
        Required options (must be supplied):\n\
        \x20 --model-spec <value>  (media:enc=utf-8;model-spec) — Which model\n\
        \n\
        Options:\n\
        \x20 --budget <value>  (media:budget;numeric) [default: 400]\n\
        \x20 positional #0  (media:criterion;enc=utf-8) [optional]\n\
        \n\
        Output: media:enc=utf-8;summary\n";
    assert_eq!(text, expected);
}

#[test]
fn an_unparseable_input_type_has_no_interface() {
    let urn = match CapUrn::from_string("cap:in=nonsense;x") {
        Ok(u) => u,
        Err(e) => panic!("{}", e.detail()),
    };
    let cap = Cap::new(urn, String::new(), Vec::new());
    let err = render_cap_interface(&cap).unwrap_err();
    assert!(err.contains("in= URN 'nonsense' is not a valid media URN"), "{err}");
}

#[test]
fn a_position_given_explicitly_is_not_bound_again() {
    let cap = test_cap();
    let pairs = vec![("media:criterion;enc=utf-8".to_string(), "x".to_string())];
    let tokens: Vec<String> =
        ["--model-spec", "m", "doc.pdf"].iter().map(|s| s.to_string()).collect();
    let inv = match map_invocation(&cap, &tokens, &pairs, &vec![None]) {
        Ok(i) => i,
        Err(e) => panic!("{e}"),
    };
    assert_eq!(
        inv.cap_arguments,
        vec![
            ("media:enc=utf-8;model-spec".to_string(), b"m".to_vec()),
            ("media:criterion;enc=utf-8".to_string(), b"x".to_vec()),
        ]
    );
    assert_eq!(inv.input_paths, vec!["doc.pdf".to_string()]);
}

#[test]
fn flag_forms_are_equivalent_behind_other_tokens() {
    let cap = test_cap();
    let run = |tokens: &[&str]| {
        let tokens: Vec<String> = tokens.iter().map(|s| s.to_string()).collect();
        match map_invocation(&cap, &tokens, &Vec::new(), &Vec::new()) {
            Ok(i) => (i.cap_arguments, i.input_paths),
            Err(e) => panic!("{e}"),
        }
    };
    assert_eq!(
        run(&["focus", "--budget=7", "doc.pdf", "-model-spec=m"]),
        run(&["focus", "--budget", "7", "doc.pdf", "-model-spec", "m"])
    );
}
