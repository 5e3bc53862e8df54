use capdag_orchestrator::collector::{CollectStep, Sink, TerminalCollector};
use capdag_orchestrator::credit::CreditPlumbing;
use capdag_orchestrator::failure::AttributionClass;
use capdag_orchestrator::feed::{begin_member, BlobFeed, FileFeed, GatherMember, MemberFeed};
use capdag_orchestrator::forward::{
    forward_failed, ChunkStep, ForwardStep, Forwarder, GateState, WindowState,
};
use capdag_orchestrator::frame::{Frame, FrameType, MessageId, ProgressSlot, StreamMeta};
use capdag_orchestrator::outgoing::{
    read_window, send_failed, sequence_flag, split_sequence, stream_frames, stream_payloads,
    SequenceScanner,
};
use capdag_orchestrator::spool::{
    access_failed, decode_spool_item, deliver, deliver_live, item_preview_snippet,
    region_access_failed, LiveItem, RegionAccess, SpoolAccess, SpoolIndexer, SpoolWriter,
};
use capdag_orchestrator::stream_io::{
    ActivityTimer, EffectAudit, OutputContract, PipelineProgressTracker, StreamIoError,
};
use capdag_orchestrator::terminal::{read_err, read_log, ItemStep, LogReading, TerminalOutput};
use capdag_orchestrator::transport::{
    cbor_bytes_header, decode_terminal_output, encode_bytes, wrap_raw_items_as_cbor_sequence,
};

const SCALAR_CONTRACT: OutputContract = OutputContract {
    is_sequence: false,
    streaming: false,
};
const STREAMING_SEQUENCE_CONTRACT: OutputContract = OutputContract {
    is_sequence: true,
    streaming: true,
};

const RID: MessageId = MessageId::Uint(1);

fn start(media: &str, is_sequence: bool, unbounded: bool) -> Frame {
    let mut f = Frame::new(FrameType::StreamStart, RID);
    f.stream_id = Some("out".to_string());
    f.media_urn = Some(media.to_string());
    f.is_sequence = Some(is_sequence);
    if unbounded {
        f.unbounded = Some(true);
    }
    f
}

fn chunk(payload: &[u8]) -> Frame {
    let mut f = Frame::new(FrameType::Chunk, RID);
    f.stream_id = Some("out".to_string());
    f.payload = Some(payload.to_vec());
    f
}

fn end_ok() -> Frame {
    let mut f = Frame::new(FrameType::End, RID);
    f.exit_code = Some(0);
    f
}

fn progress(value: f32, message: &str) -> Frame {
    let mut f = Frame::new(FrameType::Log, RID);
    f.level = Some("progress".to_string());
    f.message = Some(message.to_string());
    f.progress = ProgressSlot::Number(value.to_bits());
    f
}

fn log(message: &str) -> Frame {
    let mut f = Frame::new(FrameType::Log, RID);
    f.level = Some("info".to_string());
    f.message = Some(message.to_string());
    f.attribution = Ok(AttributionClass::Internal);
    f
}

fn cbor(bytes: &[u8]) -> Vec<u8> {
    match encode_bytes(bytes.to_vec()) {
        Ok(v) => v,
        Err(e) => panic!("{}", e.message()),
    }
}

/// What a collected response came to.
struct Collected {
    bytes: Vec<u8>,
    is_sequence: Option<bool>,
    progress: Vec<(f64, String)>,
    logs: Vec<String>,
    written: Vec<Vec<u8>>,
    sink: Sink,
}

fn collect(
    frames: Vec<Frame>,
    cap_urn: &str,
    contract: OutputContract,
    sink: Sink,
) -> Result<Collected, StreamIoError> {
    let mut c =
        TerminalCollector::new(cap_urn, contract, &"step_test".to_string(), None, sink, None, 5, 0)?;
    let mut progress = Vec::new();
    let mut logs = Vec::new();
    let mut written = Vec::new();
    let mut frames = frames.into_iter();
    let mut ended = false;
    while let Some(f) = frames.next() {
        match c.on_frame(f, 0) {
            Err(failure) => return Err(failure.error),
            Ok(CollectStep::Consumed { write, .. }) => {
                if let Some(w) = write {
                    written.push(w.payload);
                }
            }
            Ok(CollectStep::Progress { bits, message }) => {
                progress.push((f32::from_bits(bits) as f64, message))
            }
            Ok(CollectStep::Log(record)) => logs.push(record.message),
            Ok(CollectStep::Finished { progress: p, message, write, .. }) => {
                if let Some(w) = write {
                    written.push(w.payload);
                }
                progress.push((f64::from_bits(p), message));
                ended = true;
                break;
            }
            Ok(_) => {}
        }
    }
    if !ended {
        return Err(c.on_closed().error);
    }
    for f in frames {
        if let Ok(Some(record)) = c.on_late_frame(f) {
            logs.push(record.message);
        }
    }
    Ok(Collected {
        bytes: c.response_chunks,
        is_sequence: c.is_sequence,
        progress,
        logs,
        written,
        sink: c.sink,
    })
}

const MEMORY: Sink = Sink::Memory {
    spool_available: false,
};

fn expect_err(r: Result<Collected, StreamIoError>) -> StreamIoError {
    match r {
        Ok(_) => panic!("the collect must fail"),
        Err(e) => e,
    }
}

fn expect_ok(r: Result<Collected, StreamIoError>) -> Collected {
    match r {
        Ok(c) => c,
        Err(e) => panic!("{}", e.message()),
    }
}

#[test]
fn test1948_progress_log_without_a_value_names_the_missing_value() {
    let mut frame = Frame::new(FrameType::Log, MessageId::Uint(1));
    frame.level = Some("progress".to_string());
    frame.message = Some("working".to_string());

    // The level says progress, so attribution is NOT what is missing.
    assert!(
        frame.attribution.is_err(),
        "a progress-level LOG carries no attribution by contract"
    );
    // ...and the frame genuinely has no readable progress value.
    assert!(
        !matches!(frame.progress, ProgressSlot::Number(_)),
        "the fixture must reproduce the absent numeric value"
    );
    // Which is what a receiver must report: the missing value, named.
    assert_eq!(frame.level.as_deref(), Some("progress"));
    assert_eq!(
        frame.progress.describe(),
        "absent",
        "an absent value must be reported as absent"
    );
    let absent = match read_log(&frame, "cap:test") {
        Ok(_) => panic!("a progress frame without a value is malformed"),
        Err(e) => e.message(),
    };
    assert!(absent.contains("absent"), "{absent}");

    let mut wrong_type = Frame::new(FrameType::Log, MessageId::Uint(2));
    wrong_type.level = Some("progress".to_string());
    wrong_type.message = Some("working".to_string());
    wrong_type.progress = ProgressSlot::Mistyped("a text value".to_string());
    assert!(
        !matches!(wrong_type.progress, ProgressSlot::Number(_)),
        "a text progress value is not readable as a number"
    );
    assert_eq!(
        wrong_type.progress.describe(),
        "a text value",
        "a wrong-typed value must be named as such, distinctly from absent"
    );
    assert_ne!(
        wrong_type.progress.describe(),
        frame.progress.describe(),
        "the two emitter defects must be distinguishable from the error alone"
    );
    let mistyped = match read_log(&wrong_type, "cap:test") {
        Ok(_) => panic!("a mistyped value is malformed"),
        Err(e) => e.message(),
    };
    assert_ne!(absent, mistyped);

    // And a well-formed progress frame must NOT trip any of this.
    match read_log(&progress(0.5, "working"), "cap:test") {
        Ok(LogReading::Progress { bits, .. }) => assert_eq!(f32::from_bits(bits), 0.5),
        _ => panic!("a progress reading"),
    }
}

#[test]
fn test8124_effect_audit_rejects_nonconformant_terminal_emission() {
    let err = expect_err(collect(
        vec![
            start("media:enc=utf-8", false, false),
            chunk(b"payload"),
            end_ok(),
        ],
        "cap:echo;effect=none",
        SCALAR_CONTRACT,
        MEMORY,
    ));
    match err {
        StreamIoError::EffectContract {
            cap_urn,
            effect,
            runtime_input,
            expected,
            actual,
        } => {
            assert_eq!(cap_urn, "cap:echo;effect=none");
            assert_eq!(effect, "none");
            assert_eq!(runtime_input, "media:");
            assert_eq!(expected, "media:");
            assert_eq!(actual, "media:enc=utf-8");
        }
        other => panic!("expected EffectContract, got: {}", other.message()),
    }
}

#[test]
fn test1957_stream_contract_audit_at_receipt() {
    let run = |is_sequence: bool, unbounded: bool, contract: OutputContract| {
        collect(
            vec![
                start("media:", is_sequence, unbounded),
                chunk(b"payload"),
                end_ok(),
            ],
            "cap:echo;effect=none",
            contract,
            MEMORY,
        )
    };
    // Unbounded from a non-streaming output.
    match expect_err(run(false, true, SCALAR_CONTRACT)) {
        StreamIoError::StreamContract {
            cap_urn,
            declared_is_sequence,
            declared_streaming,
            emitted_is_sequence,
            emitted_unbounded,
        } => {
            assert_eq!(cap_urn, "cap:echo;effect=none");
            assert!(!declared_is_sequence && !declared_streaming);
            assert!(!emitted_is_sequence && emitted_unbounded);
        }
        other => panic!("expected StreamContract, got: {}", other.message()),
    }
    // Sequence mode from an output declared scalar.
    match expect_err(run(true, false, SCALAR_CONTRACT)) {
        StreamIoError::StreamContract {
            emitted_is_sequence,
            emitted_unbounded,
            ..
        } => {
            assert!(emitted_is_sequence && !emitted_unbounded);
        }
        other => panic!("expected StreamContract, got: {}", other.message()),
    }
    // Inside the contract.
    expect_ok(run(true, false, STREAMING_SEQUENCE_CONTRACT));
}

#[test]
fn test8125_effect_audit_rejects_nonconformant_incremental_emission() {
    let mut terminal = match TerminalOutput::new(
        "cap:echo;effect=none",
        SCALAR_CONTRACT,
        &"step_test".to_string(),
        None,
    ) {
        Ok(t) => t,
        Err(e) => panic!("{}", e.message()),
    };
    let first = terminal.next_item(start("media:enc=utf-8", false, false), false);
    assert!(
        matches!(first, ItemStep::Failed(StreamIoError::EffectContract { .. })),
        "expected EffectContract"
    );
    assert!(
        matches!(terminal.next_item(chunk(b"payload"), false), ItemStep::Ended),
        "a failed audit terminates the stream"
    );
    assert!(matches!(terminal.next_item(end_ok(), false), ItemStep::Ended));
    assert!(!terminal.awaits_frame());
}

#[test]
fn test8135_unbounded_terminal_refused_without_writer() {
    let err = expect_err(collect(
        vec![start("media:enc=utf-8", true, true)],
        "cap:test",
        STREAMING_SEQUENCE_CONTRACT,
        MEMORY,
    ));
    assert!(
        err.message().contains("UNBOUNDED"),
        "the refusal names the cause: {}",
        err.message()
    );
}

#[test]
fn test8145_spool_writer_spools_node_data_forms() {
    // Sequence: two CBOR Bytes items, the second split across payloads.
    let item0 = cbor(b"win0");
    let item1 = cbor(b"win1");
    let mut sp = SpoolWriter::new("seq.spool".to_string());
    assert!(!sp.engaged());
    assert!(sp.on_stream_start(Some(true), None).is_ok());
    assert!(sp.engaged());
    sp.on_file_created();
    let mut on_disk: Vec<u8> = Vec::new();
    let (a, b) = item1.split_at(2);
    for payload in [item0.as_slice(), a, b] {
        match sp.chunk_bytes(payload) {
            Ok(bytes) => {
                sp.on_written(bytes.len());
                on_disk.extend(bytes);
            }
            Err(e) => panic!("{}", e.message()),
        }
    }
    assert!(sp.is_sequence());
    let err = match sp.on_stream_start(Some(true), None) {
        Ok(_) => panic!("a chain sink is exactly one stream"),
        Err(e) => e.message(),
    };
    assert!(err.contains("second STREAM_START"), "{err}");
    assert_eq!(sp.path(), "seq.spool");
    let expected: Vec<u8> = [item0.as_slice(), item1.as_slice()].concat();
    assert_eq!(on_disk, expected, "file is the concatenated CBOR sequence");
    let (items, failure) = split_sequence(&on_disk);
    assert_eq!(items.len(), 2, "both items round-trip");
    assert!(failure.is_none());

    // Blob: chunks are complete CBOR Bytes values; raw bytes append.
    let mut sp = SpoolWriter::new("blob.spool".to_string());
    assert!(sp.on_stream_start(Some(false), None).is_ok());
    sp.on_file_created();
    let mut on_disk: Vec<u8> = Vec::new();
    for payload in [cbor(b"RIFF"), cbor(b"data")] {
        match sp.chunk_bytes(&payload) {
            Ok(bytes) => {
                sp.on_written(bytes.len());
                on_disk.extend(bytes);
            }
            Err(e) => panic!("{}", e.message()),
        }
    }
    assert!(!sp.is_sequence());
    assert_eq!(sp.total_bytes, 8);
    assert_eq!(on_disk, b"RIFFdata");
}

#[test]
fn a_spool_takes_no_chunk_before_its_stream() {
    let sp = SpoolWriter::new("x".to_string());
    match sp.chunk_bytes(b"x") {
        Ok(_) => panic!("refused"),
        Err(e) => assert!(e.message().contains("before STREAM_START"), "{}", e.message()),
    }
}

#[test]
fn test8147_cbor_bytes_header_encodes_every_length_class() {
    for len in [
        0u64, 1, 23, 24, 255, 256, 65_535, 65_536, 4_294_967_295, 4_294_967_296,
    ] {
        let header = cbor_bytes_header(len);
        if len <= 65_536 {
            let mut value = header.clone();
            value.extend(std::iter::repeat(0xAB).take(len as usize));
            let decoded: ciborium::Value =
                ciborium::de::from_reader(value.as_slice()).expect("header + body decodes");
            match decoded {
                ciborium::Value::Bytes(b) => assert_eq!(b.len() as u64, len),
                other => panic!("expected bytes, got {other:?}"),
            }
        } else {
            // Large classes: check the major type + length field shape.
            assert_eq!(header[0] & 0xE0, 0x40, "major type 2");
        }
    }
}

#[test]
fn test8146_unbounded_intermediate_engages_spool() {
    let item = cbor(b"window-1");
    let mut stream_end = Frame::new(FrameType::StreamEnd, RID);
    stream_end.stream_id = Some("out".to_string());
    let c = expect_ok(collect(
        vec![
            start("media:enc=utf-8;record", true, true),
            chunk(&item),
            stream_end,
            end_ok(),
        ],
        "cap:test",
        STREAMING_SEQUENCE_CONTRACT,
        Sink::Memory {
            spool_available: true,
        },
    ));
    assert!(
        c.sink == Sink::Spool,
        "STREAM_START-unbounded engages the spool"
    );
    assert!(c.bytes.is_empty(), "nothing buffers in memory");
    assert_eq!(c.is_sequence, Some(true));
    assert_eq!(c.written, vec![item], "the item streamed to disk verbatim");
}

#[test]
fn test7022_final_progress_from_end_meta_default() {
    let c = expect_ok(collect(
        vec![
            start("media:enc=utf-8", false, false),
            chunk(b"payload"),
            progress(0.5, "halfway"),
            end_ok(),
        ],
        "cap:test",
        SCALAR_CONTRACT,
        MEMORY,
    ));
    assert_eq!(c.bytes, b"payload");
    assert_eq!(c.progress.len(), 2, "streamed 0.5 + terminal 1.0");
    assert_eq!(c.progress[0].0, 0.5);
    assert_eq!(
        c.progress[1].0, 1.0,
        "END without explicit progress reads 1.0"
    );
    assert_eq!(
        c.progress.iter().filter(|(p, _)| *p >= 1.0).count(),
        1,
        "final progress is delivered exactly once (L5)"
    );
}

#[test]
fn test7023_final_progress_handler_override() {
    let mut end = end_ok();
    end.final_progress = Some(0.87f64.to_bits());
    end.final_message = Some("partial corpus".to_string());
    let c = expect_ok(collect(
        vec![start("media:enc=utf-8", false, false), chunk(b"x"), end],
        "cap:test",
        SCALAR_CONTRACT,
        MEMORY,
    ));
    let last = c
        .progress
        .last()
        .expect("terminal event must be delivered");
    assert!((last.0 - 0.87).abs() < 1e-6);
    assert_eq!(last.1, "partial corpus");
}

#[test]
fn test7024_drain_after_end_delivers_logs_without_progress_regression() {
    let c = expect_ok(collect(
        vec![
            start("media:enc=utf-8", false, false),
            chunk(b"data"),
            end_ok(),
            log("flushed-after-end"),
            progress(0.95, "stale keepalive"),
        ],
        "cap:test",
        SCALAR_CONTRACT,
        MEMORY,
    ));
    assert!(
        c.logs.iter().any(|m| m == "flushed-after-end"),
        "post-END queued LOG message must be delivered: {:?}",
        c.logs
    );
    assert!(
        !c.logs.iter().any(|m| m == "stale keepalive"),
        "progress frames are functional signals, never ordinary diagnostics: {:?}",
        c.logs
    );
    let last = c.progress.last().unwrap();
    assert_eq!(
        last.0, 1.0,
        "final progress event is END's, not a straggler"
    );
    assert!(
        !c.progress.iter().any(|(_, m)| m == "stale keepalive"),
        "post-terminal progress value must not reach the progress callback"
    );
}

fn incremental(contract: OutputContract) -> TerminalOutput {
    match TerminalOutput::new("cap:test", contract, &"step_test".to_string(), None) {
        Ok(t) => t,
        Err(e) => panic!("{}", e.message()),
    }
}

#[test]
fn test7071_terminal_output_yields_before_stream_end() {
    let mut terminal = incremental(STREAMING_SEQUENCE_CONTRACT);
    terminal.next_item(start("media:enc=utf-8", true, true), false);
    match terminal.next_item(chunk(b"first"), false) {
        ItemStep::Item { item, .. } => assert_eq!(item.payload, b"first"),
        _ => panic!("item must be yielded live"),
    }
    assert!(terminal.is_unbounded());
    assert_eq!(terminal.is_sequence(), Some(true));

    let mut stream_end = Frame::new(FrameType::StreamEnd, RID);
    stream_end.stream_id = Some("out".to_string());
    terminal.next_item(stream_end, false);
    assert!(
        matches!(terminal.next_item(end_ok(), false), ItemStep::Done { .. }),
        "END completes the request"
    );
    assert!(
        matches!(terminal.next_item(chunk(b"late"), false), ItemStep::Ended),
        "nothing is yielded behind END"
    );
    assert!(matches!(terminal.on_closed(), ItemStep::Ended));
    assert_eq!(terminal.is_sequence(), Some(true));
}

#[test]
fn test7077_per_item_meta_incremental() {
    let mut terminal = incremental(SCALAR_CONTRACT);
    terminal.next_item(start("media:enc=utf-8", false, false), false);

    let mut with_meta = chunk(b"item-0");
    with_meta.meta = Some(StreamMeta {
        encoded: b"title=page_0".to_vec(),
    });
    match terminal.next_item(with_meta, false) {
        ItemStep::Item { item, .. } => {
            assert_eq!(item.payload, b"item-0");
            let meta = item.meta.expect("meta must ride with its item");
            assert_eq!(meta.encoded, b"title=page_0");
        }
        _ => panic!("an item"),
    }
    // A later item without meta yields None meta — no leakage between items.
    match terminal.next_item(chunk(b"item-1"), false) {
        ItemStep::Item { item, .. } => {
            assert_eq!(item.payload, b"item-1");
            assert!(item.meta.is_none());
        }
        _ => panic!("an item"),
    }
    assert!(matches!(
        terminal.next_item(end_ok(), false),
        ItemStep::Done { .. }
    ));
}

#[test]
fn an_unsuccessful_end_is_a_failure() {
    let mut end = Frame::new(FrameType::End, RID);
    end.exit_code = Some(3);
    let err = expect_err(collect(vec![end], "cap:test", SCALAR_CONTRACT, MEMORY));
    assert_eq!(
        err.message(),
        "Cap 'cap:test' failed: END without success: exit_code=3"
    );
    let err = expect_err(collect(Vec::new(), "cap:test", SCALAR_CONTRACT, MEMORY));
    assert!(err.message().contains("response channel closed without END"));
}

#[test]
fn a_declared_failure_keeps_its_identity() {
    let mut f = Frame::new(FrameType::Error, RID);
    f.code = Some("E_MODEL".to_string());
    f.message = Some("no such model".to_string());
    f.attribution = Ok(AttributionClass::Resource);
    f.attributed_arg = Ok(Some("media:model-spec".to_string()));
    match read_err(&f, "cap:test") {
        StreamIoError::Terminal {
            cap_urn,
            code,
            class,
            details,
            arg_urn,
        } => {
            assert_eq!(cap_urn, "cap:test");
            assert_eq!(code.as_deref(), Some("E_MODEL"));
            assert_eq!(class, AttributionClass::Resource);
            assert!(details.contains("no such model"), "{details}");
            assert_eq!(arg_urn.as_deref(), Some("media:model-spec"));
        }
        other => panic!("{}", other.message()),
    }
}

#[test]
fn an_unparseable_cap_cannot_be_audited() {
    match EffectAudit::new("not a cap", SCALAR_CONTRACT) {
        Ok(_) => panic!("refused"),
        Err(e) => assert!(e.message().contains("not a cap"), "{}", e.message()),
    }
    match EffectAudit::new("cap:echo;effect=none", STREAMING_SEQUENCE_CONTRACT) {
        Ok(a) => {
            assert!(a.contract() == STREAMING_SEQUENCE_CONTRACT);
            assert!(a.audit(Some("media:")).is_ok());
            assert!(a.audit(None).is_err());
        }
        Err(e) => panic!("{}", e.message()),
    }
}

#[test]
fn a_declared_output_accepts_refinements() {
    match EffectAudit::new("cap:x;out=\"media:image\"", SCALAR_CONTRACT) {
        Ok(a) => {
            assert!(a.audit(Some("media:image;ext=png")).is_ok());
            assert!(a.audit(Some("media:audio")).is_err());
        }
        Err(e) => panic!("{}", e.message()),
    }
}

#[test]
fn silence_is_warned_of_once() {
    let mut c = match TerminalCollector::new(
        "cap:test",
        SCALAR_CONTRACT,
        &"step_test".to_string(),
        None,
        MEMORY,
        None,
        5,
        0,
    ) {
        Ok(c) => c,
        Err(e) => panic!("{}", e.message()),
    };
    let second: u128 = 1_000_000_000;
    assert!(c.on_quiet(second).1.is_none());
    assert!(c.on_quiet(6 * second).1.is_some());
    assert!(c.on_quiet(7 * second).1.is_none());
}

#[test]
fn timers_measure_activity() {
    let second: u128 = 1_000_000_000;
    let mut t = ActivityTimer::new(5, 0);
    assert!(!t.is_expired(4 * second));
    assert!(t.is_expired(6 * second));
    t.touch(6 * second);
    assert!(!t.is_expired(7 * second));
    t.pause();
    assert!(!t.is_expired(100 * second));

    let mut p = PipelineProgressTracker::new(0);
    assert!(!p.is_stalled(1000));
    p.touch(5000);
    assert!(!p.is_stalled(5001));
    assert!(p.is_stalled(100_000_000));
}

#[test]
fn credits_come_back_in_batches() {
    let mut c = CreditPlumbing::new(4);
    let stream = Some("s".to_string());
    assert!(c.consume(&stream).is_none());
    let grant = c.consume(&stream).expect("half the window is a batch");
    assert_eq!(grant.credits, 2);
    assert_eq!(grant.stream_id.as_deref(), Some("s"));
    assert_eq!(c.outstanding(&stream), 0);
    c.consume(&stream);
    let flushed = c.flush();
    assert_eq!(flushed.len(), 1);
    assert_eq!(flushed[0].credits, 1);
    assert!(c.flush().is_empty());
}

#[test]
fn scalar_data_is_chunked_losslessly() {
    let data = b"hello world".to_vec();
    let r = stream_payloads(&data, false, 4);
    assert!(r.failure.is_none());
    assert_eq!(r.payloads.len(), 3);
    let sent: Vec<u8> = r.payloads.concat();
    match decode_terminal_output(&sent, None) {
        Ok(items) => assert_eq!(items, vec![data]),
        Err(e) => panic!("{}", e.message()),
    }
    // Empty data is one empty chunk.
    let r = stream_payloads(&[], false, 4);
    assert_eq!(r.payloads, vec![cbor(b"")]);
    assert_eq!(sequence_flag(true), Some(true));
    assert_eq!(sequence_flag(false), None);
}

#[test]
fn sequences_round_trip_item_by_item() {
    let items = vec![b"a".to_vec(), Vec::new(), b"ccc".to_vec()];
    let wrapped = match wrap_raw_items_as_cbor_sequence(&items) {
        Ok(w) => w,
        Err(e) => panic!("{}", e.message()),
    };
    match decode_terminal_output(&wrapped, Some(true)) {
        Ok(back) => assert_eq!(back, items),
        Err(e) => panic!("{}", e.message()),
    }
    let r = stream_payloads(&wrapped, true, 4);
    assert_eq!(r.payloads.len(), 3);
    assert!(r.failure.is_none());
}

#[test]
fn a_broken_sequence_is_named() {
    let mut data = cbor(b"ok");
    data.push(0x5a);
    let r = stream_payloads(&data, true, 100);
    assert_eq!(r.payloads.len(), 1);
    assert!(r.failure.is_some());
    // An integer is neither bytes nor text.
    match decode_terminal_output(&[0x01], Some(true)) {
        Err(StreamIoError::UnexpectedCborType { index, .. }) => assert_eq!(index, 0),
        _ => panic!("expected UnexpectedCborType"),
    }
    match decode_terminal_output(&[0x5a], None) {
        Err(StreamIoError::CborDecode(_)) => {}
        _ => panic!("expected CborDecode"),
    }
}

#[test]
fn a_scanner_finds_the_same_items_in_any_windows() {
    let mut data = cbor(b"first");
    data.extend(cbor(b"second"));
    let mut whole = SequenceScanner::new();
    let all: Vec<Vec<u8>> = whole.feed(&data).into_iter().map(|i| i.bytes).collect();
    let mut slow = SequenceScanner::new();
    let mut found: Vec<Vec<u8>> = Vec::new();
    for b in &data {
        found.extend(slow.feed(&[*b]).into_iter().map(|i| i.bytes));
    }
    assert_eq!(all, found);
    assert_eq!(all, vec![cbor(b"first"), cbor(b"second")]);
    assert_eq!(slow.remainder(), 0);
}

#[test]
fn a_file_is_fed_like_memory() {
    let mut feed = FileFeed::new(false);
    let mut sent: Vec<u8> = Vec::new();
    for window in [b"abc".to_vec(), b"de".to_vec()] {
        match feed.on_window(window) {
            Ok(payloads) => sent.extend(payloads.concat()),
            Err(e) => panic!("{}", e.message()),
        }
    }
    match feed.on_eof("f") {
        Ok(payloads) => sent.extend(payloads.concat()),
        Err(e) => panic!("{}", e.message()),
    }
    match decode_terminal_output(&sent, None) {
        Ok(items) => assert_eq!(items, vec![b"abcde".to_vec()]),
        Err(e) => panic!("{}", e.message()),
    }

    let mut feed = FileFeed::new(true);
    let mut truncated = cbor(b"item");
    truncated.pop();
    match feed.on_window(truncated) {
        Ok(payloads) => assert!(payloads.is_empty()),
        Err(e) => panic!("{}", e.message()),
    }
    assert!(feed.on_eof("f").is_err());
}

#[test]
fn a_gather_takes_scalars_sequences_and_spools() {
    match begin_member(GatherMember::Memory {
        data: b"x".to_vec(),
        is_sequence: false,
    }) {
        MemberFeed::Ready(r) => assert_eq!(r.payloads, vec![cbor(b"x")]),
        _ => panic!("ready"),
    }
    let mut two = cbor(b"a");
    two.extend(cbor(b"b"));
    match begin_member(GatherMember::Memory {
        data: two,
        is_sequence: true,
    }) {
        MemberFeed::Ready(r) => assert_eq!(r.payloads, vec![cbor(b"a"), cbor(b"b")]),
        _ => panic!("ready"),
    }
    match begin_member(GatherMember::Spooled {
        path: "p".to_string(),
        is_sequence: true,
    }) {
        MemberFeed::Items(mut items) => {
            assert_eq!(items.on_window(&cbor(b"a")), vec![cbor(b"a")]);
            assert!(items.on_eof().is_ok());
        }
        _ => panic!("items"),
    }
    assert!(matches!(
        begin_member(GatherMember::Spooled {
            path: "p".to_string(),
            is_sequence: false
        }),
        MemberFeed::Blob(_)
    ));
    // A blob's windows are the pieces of ONE item.
    let (mut blob, header) = BlobFeed::begin(5);
    let mut item = header;
    item.extend(blob.on_window(&b"ab".to_vec()));
    assert!(blob.on_eof("p").is_err());
    item.extend(blob.on_window(&b"cde".to_vec()));
    assert!(blob.on_eof("p").is_ok());
    assert_eq!(item, cbor(b"abcde"));
}

#[test]
fn previews_are_bounded_text() {
    assert_eq!(item_preview_snippet(b""), None);
    assert_eq!(item_preview_snippet(b"hello"), Some("hello".to_string()));
    assert_eq!(item_preview_snippet(&[0xff, 0xfe]), None);
    // A cut inside a character falls back to the text before it.
    let mut long = vec![b'a'; 2047];
    long.extend("é".as_bytes());
    assert_eq!(item_preview_snippet(&long), Some("a".repeat(2047)));
}

#[test]
fn region_items_carry_their_facts() {
    let d = deliver(b"abc".to_vec());
    assert_eq!(d.byte_count, 3);
    assert_eq!(d.preview.as_deref(), Some("abc"));
    match deliver_live(LiveItem::Foreign("Integer(1)".to_string())) {
        Ok(_) => panic!("refused"),
        Err(e) => assert!(e.message().contains("non-bytes item (Integer(1))")),
    }
    match deliver_live(LiveItem::Failed("device gone".to_string())) {
        Ok(_) => panic!("refused"),
        Err(e) => assert!(e.message().contains("device gone")),
    }
    assert!(deliver_live(LiveItem::Bytes(b"x".to_vec())).is_ok());
}

#[test]
fn a_spooled_sequence_is_indexed_once() {
    let mut file = cbor(b"frame-0");
    file.extend(cbor(b"frame-1"));
    let mut indexer = SpoolIndexer::new();
    for window in file.chunks(3) {
        if let Err(e) = indexer.on_window(window, "s") {
            panic!("{}", e.message());
        }
    }
    let index = match indexer.finish("s") {
        Ok(i) => i,
        Err(e) => panic!("{}", e.message()),
    };
    assert_eq!(index.len(), 2);
    assert_eq!(index[0].offset, 0);
    assert_eq!(index[1].raw_len, 7);
    assert_eq!(index[1].preview.as_deref(), Some("frame-1"));
    let from = index[1].offset as usize;
    let to = from + index[1].len as usize;
    match decode_spool_item(&file[from..to], "s", 1) {
        Ok(bytes) => assert_eq!(bytes, b"frame-1".to_vec()),
        Err(e) => panic!("{}", e.message()),
    }
    assert!(decode_spool_item(&[0x5a], "s", 1).is_err());

    let mut short = SpoolIndexer::new();
    let _ = short.on_window(&file[..3], "s");
    assert!(short.finish("s").is_err());
}

fn hop(next_in_media: &str) -> Forwarder {
    match Forwarder::new(
        "cap:x;out=\"media:image\"",
        SCALAR_CONTRACT,
        &"step".to_string(),
        next_in_media,
        MessageId::Uint(9),
        None,
        2,
        5,
        0,
    ) {
        Ok(h) => h,
        Err(e) => panic!("{}", e.message()),
    }
}

#[test]
fn a_hop_relabels_a_conforming_stream() {
    let mut h = hop("media:image");
    match h.on_frame(start("media:image;ext=png", false, false), "fresh".to_string(), 0) {
        Ok(ForwardStep::Send(f)) => {
            assert_eq!(f.media_urn.as_deref(), Some("media:image"));
            assert_eq!(f.stream_id.as_deref(), Some("fresh"));
            assert!(f.id == MessageId::Uint(9));
        }
        Ok(_) => panic!("a relabeled STREAM_START"),
        Err(e) => panic!("{}", e.error.message()),
    }
    match h.on_frame(chunk(b"x"), "other".to_string(), 0) {
        Ok(ForwardStep::AwaitWindow(f)) => {
            let f = match h.on_window(f, WindowState::Exhausted) {
                ChunkStep::Wait { chunk, grants } => {
                    assert!(grants.is_empty());
                    chunk
                }
                _ => panic!("an exhausted window is waited for"),
            };
            match h.on_window(f, WindowState::Acquired) {
                ChunkStep::Forward { out, grant } => {
                    assert_eq!(out.stream_id.as_deref(), Some("fresh"));
                    assert_eq!(out.payload.as_deref(), Some(&b"x"[..]));
                    // The batch of a window of two is one chunk.
                    assert_eq!(grant.map(|g| g.credits), Some(1));
                }
                _ => panic!("a forwarded chunk"),
            }
        }
        _ => panic!("a chunk of a known stream"),
    }
    match h.on_frame(chunk(b"y"), String::new(), 0) {
        Ok(ForwardStep::AwaitWindow(f)) => {
            assert!(matches!(h.on_window(f, WindowState::Closed), ChunkStep::Stop));
        }
        _ => panic!("a chunk of a known stream"),
    }
    assert_eq!(
        forward_failed(FrameType::Chunk, "gone").message(),
        "Host error: forward CHUNK: gone"
    );
    assert!(matches!(
        h.on_frame(end_ok(), String::new(), 0),
        Ok(ForwardStep::Complete { .. })
    ));
}

#[test]
fn a_hop_never_masks_a_mismatch() {
    let mut h = hop("media:image;ext=jpg");
    assert!(h
        .on_frame(start("media:image;ext=png", false, false), "f".to_string(), 0)
        .is_err());
    let mut h = hop("media:image");
    assert!(h
        .on_frame(start("media:audio", false, false), "f".to_string(), 0)
        .is_err());
    let mut h = hop("media:image");
    assert!(h
        .on_frame(start("media:image", true, false), "f".to_string(), 0)
        .is_err());
}

#[test]
fn a_silent_hop_reports_its_credit_state_once() {
    let second: u128 = 1_000_000_000;
    let mut h = hop("media:image");
    if h.on_frame(start("media:image", false, false), "fresh".to_string(), 0).is_err() {
        panic!("a conforming stream");
    }
    let gates = vec![GateState { available: 3, closed: false }];
    let (grants, log) = h.on_quiet(6 * second, &gates);
    assert!(grants.is_empty());
    match log {
        Some(record) => assert_eq!(
            record.message,
            "Cap 'cap:x;out=\"media:image\"' has had no activity for 5s — continuing to wait. \
             Use Cancel to abort. Forwarding credit state: [stream out→fresh: \
             downstream_available=3 pending_upstream_grants=0 gate_closed=false]"
        ),
        None => panic!("a warning"),
    }
    assert!(h.on_quiet(7 * second, &gates).1.is_none());
}

#[test]
fn reopening_a_stream_forgets_what_was_pending() {
    let mut c = CreditPlumbing::with_batch(4);
    let s = Some("a".to_string());
    assert!(c.consume(&s).is_none());
    assert!(c.consume(&None).is_none());
    assert_eq!(c.describe(), "Some(\"a\"): pending_grants=1; None: pending_grants=1");
    c.open(&s);
    assert_eq!(c.outstanding(&s), 0);
    assert_eq!(c.flush().len(), 1);
    assert_eq!(c.describe(), "Some(\"a\"): pending_grants=0; None: pending_grants=0");
}

#[test]
fn spool_files_are_accounted_for() {
    let mut w = SpoolWriter::new("/tmp/s".to_string());
    assert!(w.on_stream_start(Some(true), None).is_ok());
    w.on_file_created();
    w.on_written(12);
    let r = w.finish();
    assert!(r.is_sequence);
    assert_eq!(r.total_bytes, 12);
    assert_eq!(r.saved_paths, vec!["/tmp/s".to_string()]);
    assert_eq!(
        access_failed(SpoolAccess::Append, "/tmp/s", "full").message(),
        "Protocol error: failed to append to spool '/tmp/s': full"
    );
    assert_eq!(
        region_access_failed(RegionAccess::ReadItem(3), "/tmp/s", "eof").message(),
        "Host error: failed to read item 3 from region input spool '/tmp/s': eof"
    );
    assert_eq!(read_window(true, 10), 262144);
    assert_eq!(read_window(false, 10), 10);
    assert_eq!(read_window(false, 0), 1);
    assert_eq!(
        send_failed(FrameType::Chunk, "gone").message(),
        "Stream I/O error: CHUNK: gone"
    );
}

#[test]
fn a_streams_frames_are_numbered_and_counted() {
    let sent = stream_frames(RID, "s", "media:text", b"abcde", None, false, 2);
    assert!(sent.failure.is_none());
    assert_eq!(sent.frames.len(), 5);
    assert!(sent.frames[0].frame_type == FrameType::StreamStart);
    assert_eq!(sent.frames[0].media_urn.as_deref(), Some("media:text"));
    assert_eq!(sent.frames[0].is_sequence, None);
    for (i, piece) in [&b"ab"[..], &b"cd"[..], &b"e"[..]].iter().enumerate() {
        let f = &sent.frames[i + 1];
        assert!(f.frame_type == FrameType::Chunk);
        assert_eq!(f.index, Some(i as u64));
        assert_eq!(f.seq, i as u64);
        assert_eq!(f.payload.as_deref(), Some(&cbor(piece)[..]));
    }
    assert!(sent.frames[4].frame_type == FrameType::StreamEnd);
    assert_eq!(sent.frames[4].index, Some(3));
    assert_eq!(sent.frames[4].stream_id.as_deref(), Some("s"));

    // A sequence whose tail does not decode is not closed.
    let mut data = cbor(b"one");
    data.push(0x5a);
    let broken = stream_frames(RID, "s", "media:text", &data, None, true, 2);
    assert_eq!(broken.frames.len(), 2);
    assert_eq!(broken.frames[0].is_sequence, Some(true));
    match broken.failure {
        Some(e) => assert!(e.message().contains("sequence item 1: "), "{}", e.message()),
        None => panic!("a truncated item"),
    }
    // An empty sequence has no chunk.
    assert_eq!(stream_frames(RID, "s", "media:text", b"", None, true, 2).frames.len(), 2);
}

#[test]
fn every_terminal_failure_ends_the_consumer() {
    let mut failed_end = Frame::new(FrameType::End, RID);
    failed_end.exit_code = Some(3);
    let mut error = Frame::new(FrameType::Error, RID);
    error.attribution = Ok(AttributionClass::Internal);
    error.code = Some("E".to_string());
    error.message = Some("broke".to_string());
    for f in [failed_end, error] {
        let mut terminal = incremental(SCALAR_CONTRACT);
        assert!(matches!(terminal.next_item(f, false), ItemStep::Failed(_)));
        assert!(matches!(terminal.next_item(chunk(b"x"), false), ItemStep::Ended));
    }
    let mut terminal = incremental(SCALAR_CONTRACT);
    assert!(terminal.awaits_frame());
    match terminal.on_closed() {
        ItemStep::Failed(e) => assert!(e.message().contains("response channel closed without END")),
        _ => panic!("a failure"),
    }
    assert!(matches!(terminal.next_item(chunk(b"x"), false), ItemStep::Ended));
    // A malformed LOG fails that call alone.
    let mut terminal = incremental(SCALAR_CONTRACT);
    let broken = Frame::new(FrameType::Log, RID);
    assert!(matches!(terminal.next_item(broken, false), ItemStep::Failed(_)));
    assert!(matches!(terminal.next_item(chunk(b"x"), false), ItemStep::Item { .. }));
}
