//! Disk spools of unbounded intermediates, and the items of a ForEach region.
//!
//! A mandatory materialisation boundary turns a chain's sink into collected
//! node data — but an unbounded stream must never be collected into memory.
//! Such a stream is spooled to a file in the exact node-data byte form and fed
//! downstream from there.

use crate::cbor;
use crate::cbor::read_value;
use crate::dag::WriterResult;
use crate::executor_error::ExecutionError;
use crate::frame::StreamMeta;
use crate::outgoing;
use crate::outgoing::SequenceScanner;
use crate::stream_io;
use crate::stream_io::StreamIoError;
use crate::text;
use crate::text::decimal_usize;
use crate::transport;
use crate::transport::unwrap_cbor_value;
use vstd::prelude::*;
use vstd::slice::{slice_subrange, slice_to_vec};
use vstd::string::*;

verus! {

// ---------------------------------------------------------------------------
// Previews
// ---------------------------------------------------------------------------
/// How much of an item's bytes to keep as a preview snippet.
pub const ITEM_PREVIEW_CAP: usize = 2048;

/// The length of the longest prefix of at most `n` bytes that is UTF-8.
pub open spec fn valid_prefix(bytes: Seq<u8>, n: nat) -> nat
    decreases n,
{
    if n == 0 || vstd::utf8::valid_utf8(bytes.take(n as int)) {
        n
    } else {
        valid_prefix(bytes, (n - 1) as nat)
    }
}

/// The preview of an item: the text at the front of it, as far as it is UTF-8
/// and within the cap; none where the item is empty or starts with no text.
pub open spec fn preview(bytes: Seq<u8>) -> Option<Seq<char>> {
    let cap = if bytes.len() < ITEM_PREVIEW_CAP {
        bytes.len()
    } else {
        ITEM_PREVIEW_CAP as nat
    };
    let k = valid_prefix(bytes, cap);
    if k == 0 {
        None
    } else {
        Some(vstd::utf8::decode_utf8(bytes.take(k as int)))
    }
}

/// `std::str::from_utf8`: bytes that are UTF-8 yield the text that they encode;
/// for others the error's `valid_up_to` is the length of the longest prefix
/// that is UTF-8.
#[verifier::external_body]
fn utf8_text(bytes: &[u8]) -> (r: Result<String, usize>)
    ensures
        match r {
            Ok(s) => vstd::utf8::valid_utf8(bytes@) && s@ == vstd::utf8::decode_utf8(bytes@),
            Err(k) => !vstd::utf8::valid_utf8(bytes@) && k == valid_prefix(
                bytes@,
                bytes@.len(),
            ),
        },
{
    match std::str::from_utf8(bytes) {
        Ok(s) => Ok(s.to_string()),
        Err(e) => Err(e.valid_up_to()),
    }
}

proof fn lemma_valid_prefix_bounds(bytes: Seq<u8>, n: nat)
    ensures
        valid_prefix(bytes, n) <= n,
        valid_prefix(bytes, n) > 0 ==> vstd::utf8::valid_utf8(
            bytes.take(valid_prefix(bytes, n) as int),
        ),
    decreases n,
{
    if n > 0 && !vstd::utf8::valid_utf8(bytes.take(n as int)) {
        lemma_valid_prefix_bounds(bytes, (n - 1) as nat);
    }
}

proof fn lemma_valid_prefix_of_take(bytes: Seq<u8>, cap: nat, n: nat)
    requires
        n <= cap <= bytes.len(),
    ensures
        valid_prefix(bytes.take(cap as int), n) == valid_prefix(bytes, n),
    decreases n,
{
    if n > 0 {
        assert(bytes.take(cap as int).take(n as int) =~= bytes.take(n as int));
        lemma_valid_prefix_of_take(bytes, cap, (n - 1) as nat);
    }
}

/// A bounded UTF-8 preview of an item's bytes, or `None` if binary/empty.
pub fn item_preview_snippet(bytes: &[u8]) -> (r: Option<String>)
    ensures
        text::opt_view(r) == preview(bytes@),
{
    let cap: usize = if bytes.len() < ITEM_PREVIEW_CAP {
        bytes.len()
    } else {
        ITEM_PREVIEW_CAP
    };
    if cap == 0 {
        return None;
    }
    let front = slice_subrange(bytes, 0, cap);
    proof {
        assert(front@ =~= bytes@.take(cap as int));
        lemma_valid_prefix_bounds(bytes@, cap as nat);
        lemma_valid_prefix_of_take(bytes@, cap as nat, cap as nat);
        assert(front@.take(cap as int) =~= front@);
    }
    match utf8_text(front) {
        Ok(s) => Some(s),
        Err(k) => {
            if k == 0 {
                return None;
            }
            let shorter = slice_subrange(bytes, 0, k);
            assert(shorter@ =~= bytes@.take(k as int));
            match utf8_text(shorter) {
                Ok(s) => Some(s),
                Err(_) => None,
            }
        },
    }
}

// ---------------------------------------------------------------------------
// Region items
// ---------------------------------------------------------------------------
/// One item delivered to a region: the RAW body-input bytes plus the UI facts
/// computed where the bytes were last resident.
pub struct RegionItemDelivery {
    pub bytes: Vec<u8>,
    pub preview: Option<String>,
    pub byte_count: u64,
}

/// The delivery of an item that is resident.
pub open spec fn delivery_of(d: RegionItemDelivery, bytes: Seq<u8>) -> bool {
    &&& d.bytes@ == bytes
    &&& text::opt_view(d.preview) == preview(bytes)
    &&& d.byte_count == bytes.len()
}

/// Deliver an item that is resident.
pub fn deliver(bytes: Vec<u8>) -> (d: RegionItemDelivery)
    ensures
        delivery_of(d, bytes@),
{
    let preview = item_preview_snippet(bytes.as_slice());
    let byte_count: u64 = bytes.len() as u64;
    RegionItemDelivery { bytes, preview, byte_count }
}

/// What a live feed handed over: an item's payload bytes, something that is no
/// byte string (in its debug rendering), or the feed's failure.
pub enum LiveItem {
    Bytes(Vec<u8>),
    Foreign(String),
    Failed(String),
}

/// A host error with the given text.
pub open spec fn host_error(e: ExecutionError, message: Seq<char>) -> bool {
    e matches ExecutionError::HostError(m) && m@ == message
}

/// Deliver an item of a live feed. A stream error is the source's terminal
/// error — the region fails, it never ends silently short.
pub fn deliver_live(item: LiveItem) -> (r: Result<RegionItemDelivery, ExecutionError>)
    ensures
        match item {
            LiveItem::Bytes(bytes) => r matches Ok(d) && delivery_of(d, bytes@),
            LiveItem::Foreign(what) => r matches Err(e) && host_error(
                e,
                "live feed delivered a non-bytes item ("@ + what@
                    + ") — the capture contract delivers raw payload bytes"@,
            ),
            LiveItem::Failed(why) => r matches Err(e) && host_error(
                e,
                "live feed failed while driving the ForEach region: "@ + why@,
            ),
        },
{
    match item {
        LiveItem::Bytes(bytes) => Ok(deliver(bytes)),
        LiveItem::Foreign(what) => Err(
            ExecutionError::HostError(
                "live feed delivered a non-bytes item (".to_owned().concat(what.as_str()).concat(
                    ") — the capture contract delivers raw payload bytes",
                ),
            ),
        ),
        LiveItem::Failed(why) => Err(
            ExecutionError::HostError(
                "live feed failed while driving the ForEach region: ".to_owned().concat(
                    why.as_str(),
                ),
            ),
        ),
    }
}

// ---------------------------------------------------------------------------
// Indexing a spooled sequence
// ---------------------------------------------------------------------------
/// One indexed item of a spooled region input: where its self-delimiting
/// CBOR value sits in the file, plus the UI snapshot facts gathered during
/// the single indexing pass (so snapshots never require a second decode).
pub struct SpoolItemEntry {
    pub offset: u64,
    pub len: u64,
    pub raw_len: u64,
    pub preview: Option<String>,
}

/// The bytes that the first `n` items span.
pub open spec fn span(items: Seq<cbor::CborItem>, n: nat) -> nat
    decreases n,
{
    if n == 0 {
        0
    } else {
        span(items, (n - 1) as nat) + items[n - 1].len
    }
}

/// Whether an entry describes item `i` of a sequence.
pub open spec fn describes(e: SpoolItemEntry, items: Seq<cbor::CborItem>, i: int) -> bool {
    let raw = transport::carried(items[i].content);
    &&& !(items[i].content is Other)
    &&& e.offset == span(items, i as nat)
    &&& e.len == items[i].len
    &&& e.raw_len == raw.len()
    &&& text::opt_view(e.preview) == preview(raw)
}

/// Whether an index describes a sequence, item for item.
pub open spec fn indexes(index: Seq<SpoolItemEntry>, items: Seq<cbor::CborItem>) -> bool {
    &&& index.len() == items.len()
    &&& forall|i: int| 0 <= i < index.len() ==> describes(#[trigger] index[i], items, i)
}

/// Indexes a spooled CBOR sequence: one pass, one window resident at a time.
pub struct SpoolIndexer {
    scanner: SequenceScanner,
    offset: u64,
    index: Vec<SpoolItemEntry>,
}

/// The text of an item that carries no data.
pub open spec fn foreign_item_text(path: Seq<char>, i: nat, description: Seq<char>) -> Seq<char> {
    "region input spool '"@ + path + "' item "@ + text::decimal(i) + ": "@
        + stream_io::stream_fault_text(stream_io::StreamFault::UnexpectedCborType(i, description))
}

impl SpoolIndexer {
    /// Everything that was read so far.
    pub closed spec fn read_so_far(&self) -> Seq<u8> {
        self.scanner.fed()
    }

    /// Whether the index covers exactly the items read so far.
    pub closed spec fn up_to_date(&self) -> bool {
        let items = transport::sequence_items(self.scanner.fed());
        &&& indexes(self.index@, items)
        &&& self.offset == span(items, items.len())
    }

    /// An indexer at the start of its file.
    pub fn new() -> (s: Self)
        ensures
            s.read_so_far() == Seq::<u8>::empty(),
            s.up_to_date(),
    {
        let s = SpoolIndexer { scanner: SequenceScanner::new(), offset: 0, index: Vec::new() };
        assert(!transport::starts_with_item(Seq::<u8>::empty()));
        assert(transport::sequence_items(Seq::<u8>::empty()) =~= Seq::empty());
        s
    }

    /// A window was read: index the items that it completes. An item that is
    /// neither bytes nor text refuses the spool.
    pub fn on_window(&mut self, window: &[u8], path: &str) -> (r: Result<(), ExecutionError>)
        requires
            old(self).up_to_date(),
            old(self).read_so_far().len() + window@.len() <= u64::MAX,
        ensures
            final(self).read_so_far() == old(self).read_so_far() + window@,
            match r {
                Ok(()) => final(self).up_to_date(),
                Err(e) => {
                    let items = transport::sequence_items(final(self).read_so_far());
                    let i = transport::first_foreign(items, 0);
                    &&& i < items.len()
                    &&& items[i].content matches cbor::CborContent::Other(description)
                    &&& host_error(e, foreign_item_text(path@, i as nat, description))
                },
            },
    {
        let ghost old_items = transport::sequence_items(self.scanner.fed());
        let found = self.scanner.feed(window);
        let ghost items = transport::sequence_items(self.scanner.fed());
        let ghost new_items = outgoing::scanned_items(found@);
        proof {
            assert(items == old_items + new_items);
            assert(items.take(old_items.len() as int) =~= old_items);
            lemma_spans_fit(self.scanner.fed());
            lemma_span_of_prefix(items, old_items, old_items.len());
            lemma_described_survive(self.index@, old_items, items);
            assert forall|i: int| 0 <= i < old_items.len() implies !((
            #[trigger] items[i]).content is Other) by {
                assert(describes(self.index@[i], items, i));
            }
            lemma_no_foreign_before(items, 0, old_items.len() as int);
        }
        let mut rest = found;
        let mut done: usize = 0;
        let total: usize = rest.len();
        while rest.len() > 0
            invariant
                done + rest.len() == total,
                total == new_items.len(),
                items == old_items + new_items,
                items == transport::sequence_items(self.scanner.fed()),
                self.scanner.fed() == old(self).scanner.fed() + window@,
                outgoing::scanned_items(rest@) == new_items.skip(done as int),
                self.index@.len() == old_items.len() + done,
                forall|i: int|
                    0 <= i < self.index@.len() ==> describes(#[trigger] self.index@[i], items, i),
                self.offset == span(items, (old_items.len() + done) as nat),
                span(items, items.len()) <= u64::MAX,
                transport::first_foreign(items, 0) == transport::first_foreign(
                    items,
                    old_items.len() + done,
                ),
            decreases rest.len(),
        {
            let ghost before = outgoing::scanned_items(rest@);
            let item = rest.remove(0);
            let ghost at = old_items.len() + done;
            proof {
                assert(outgoing::scanned_items(rest@) =~= before.skip(1));
                assert(before[0] == new_items[done as int]);
                assert(items[at as int] == new_items[done as int]);
                assert(items[at as int].content == item.value@);
                assert(items[at as int].len == item.bytes@.len());
                assert(new_items.skip(done as int).skip(1) =~= new_items.skip(done as int + 1));
                lemma_span_grows(items, (at + 1) as nat, items.len());
            }
            let len: u64 = item.bytes.len() as u64;
            let index: usize = self.index.len();
            match unwrap_cbor_value(item.value, index) {
                Err(e) => {
                    assert(transport::first_foreign(items, 0) == at);
                    return Err(
                        ExecutionError::HostError(
                            "region input spool '".to_owned().concat(path).concat(
                                "' item ",
                            ).concat(decimal_usize(index).as_str()).concat(": ").concat(
                                e.message().as_str(),
                            ),
                        ),
                    );
                },
                Ok(raw) => {
                    let entry = SpoolItemEntry {
                        offset: self.offset,
                        len,
                        raw_len: raw.len() as u64,
                        preview: item_preview_snippet(raw.as_slice()),
                    };
                    assert(describes(entry, items, at as int));
                    let ghost held = self.index@;
                    self.index.push(entry);
                    assert forall|i: int| 0 <= i < self.index@.len() implies describes(
                        #[trigger] self.index@[i],
                        items,
                        i,
                    ) by {
                        if i < held.len() {
                            assert(self.index@[i] == held[i]);
                        }
                    }
                    self.offset = self.offset + len;
                },
            }
            done = done + 1;
        }
        assert(outgoing::scanned_items(rest@).len() == 0);
        Ok(())
    }

    /// The file is at its end: the finished index, or the failure of a
    /// truncated spool.
    pub fn finish(self, path: &str) -> (r: Result<Vec<SpoolItemEntry>, ExecutionError>)
        requires
            self.up_to_date(),
        ensures
            match r {
                Ok(index) => {
                    &&& transport::sequence_rest(self.read_so_far()).len() == 0
                    &&& indexes(index@, transport::sequence_items(self.read_so_far()))
                },
                Err(e) => {
                    let left = transport::sequence_rest(self.read_so_far()).len();
                    &&& left > 0
                    &&& host_error(
                        e,
                        text::decimal(left)
                            + " bytes of an incomplete CBOR item at the end of region input spool              '"@
                            + path@ + "' — truncated intermediate"@,
                    )
                },
            },
    {
        let left: usize = self.scanner.remainder();
        if left > 0 {
            return Err(
                ExecutionError::HostError(
                    decimal_usize(left).concat(
                        " bytes of an incomplete CBOR item at the end of region input spool              '",
                    ).concat(path).concat("' — truncated intermediate"),
                ),
            );
        }
        Ok(self.index)
    }
}

proof fn lemma_span_grows(items: Seq<cbor::CborItem>, m: nat, n: nat)
    requires
        m <= n,
    ensures
        span(items, m) <= span(items, n),
    decreases n - m,
{
    if m < n {
        lemma_span_grows(items, m, (n - 1) as nat);
    }
}

proof fn lemma_span_of_prefix(items: Seq<cbor::CborItem>, front: Seq<cbor::CborItem>, n: nat)
    requires
        n <= front.len() <= items.len(),
        front == items.take(front.len() as int),
    ensures
        span(items, n) == span(front, n),
    decreases n,
{
    if n > 0 {
        lemma_span_of_prefix(items, front, (n - 1) as nat);
        assert(front[n - 1] == items[n - 1]);
    }
}

proof fn lemma_described_survive(
    index: Seq<SpoolItemEntry>,
    front: Seq<cbor::CborItem>,
    items: Seq<cbor::CborItem>,
)
    requires
        indexes(index, front),
        front.len() <= items.len(),
        front == items.take(front.len() as int),
    ensures
        forall|i: int| 0 <= i < index.len() ==> describes(#[trigger] index[i], items, i),
{
    assert forall|i: int| 0 <= i < index.len() implies describes(#[trigger] index[i], items, i) by {
        assert(describes(index[i], front, i));
        assert(front[i] == items[i]);
        lemma_span_of_prefix(items, front, i as nat);
    }
}

proof fn lemma_no_foreign_before(items: Seq<cbor::CborItem>, from: int, to: int)
    requires
        0 <= from <= to <= items.len(),
        forall|i: int| from <= i < to ==> !((#[trigger] items[i]).content is Other),
    ensures
        transport::first_foreign(items, from) == transport::first_foreign(items, to),
    decreases to - from,
{
    if from < to {
        assert(!(items[from].content is Other));
        lemma_no_foreign_before(items, from + 1, to);
    }
}

/// The items of a byte sequence span no more than the sequence.
proof fn lemma_spans_fit(data: Seq<u8>)
    ensures
        span(transport::sequence_items(data), transport::sequence_items(data).len()) <= data.len(),
    decreases data.len(),
{
    if transport::starts_with_item(data) {
        let item = cbor::cbor_item(data)->Some_0;
        let rest = data.skip(item.len as int);
        lemma_spans_fit(rest);
        let tail = transport::sequence_items(rest);
        lemma_span_cons(item, tail, tail.len());
    }
}

proof fn lemma_span_cons(first: cbor::CborItem, tail: Seq<cbor::CborItem>, n: nat)
    requires
        n <= tail.len(),
    ensures
        span(seq![first] + tail, n + 1) == first.len + span(tail, n),
    decreases n,
{
    let all = seq![first] + tail;
    if n > 0 {
        lemma_span_cons(first, tail, (n - 1) as nat);
        assert(all[n as int] == tail[n - 1]);
        assert(span(all, n + 1) == span(all, n) + all[n as int].len);
    } else {
        assert(all[0] == first);
        assert(span(all, 1) == span(all, 0) + all[0].len);
    }
}

/// Decode ONE spooled item for a body dispatch, out of the bytes that its entry
/// points at.
pub fn decode_spool_item(bytes: &[u8], path: &str, item_index: usize) -> (r: Result<
    Vec<u8>,
    ExecutionError,
>)
    ensures
        match cbor::cbor_item(bytes@) {
            None => r matches Err(e) && host_error(
                e,
                "region input spool '"@ + path@ + "' item "@ + text::decimal(item_index as nat)
                    + " does not decode: "@ + cbor::decode_error(bytes@),
            ),
            Some(item) => match transport::unwrapped(item.content, item_index as nat) {
                Ok(raw) => r matches Ok(v) && v@ == raw,
                Err(fault) => r matches Err(e) && host_error(
                    e,
                    stream_io::stream_fault_text(fault),
                ),
            },
        },
        match cbor::cbor_read(bytes@) {
            Ok(item) => match item.content {
                cbor::CborContent::Bytes(b) => r is Ok && r->Ok_0@ == b,
                cbor::CborContent::Text(t) => r is Ok && r->Ok_0@ == vstd::utf8::encode_utf8(t),
                cbor::CborContent::Other(_) => r is Err,
            },
            Err(_) => r is Err,
        },
{
    match read_value(bytes) {
        Err(why) => {
            let m = "region input spool '".to_owned().concat(path).concat("' item ").concat(
                decimal_usize(item_index).as_str(),
            ).concat(" does not decode: ").concat(why.as_str());
            assert(m@ == "region input spool '"@ + path@ + "' item "@ + text::decimal(
                item_index as nat,
            ) + " does not decode: "@ + why@);
            Err(ExecutionError::HostError(m))
        },
        Ok((value, _)) => match unwrap_cbor_value(value, item_index) {
            Ok(raw) => Ok(raw),
            Err(e) => Err(ExecutionError::HostError(e.message())),
        },
    }
}

/// What was tried on the spool of a region's input.
pub enum RegionAccess {
    Open,
    Read,
    Seek,
    ReadItem(usize),
}

/// What was tried, in words.
pub open spec fn region_access_text(access: RegionAccess) -> Seq<char> {
    match access {
        RegionAccess::Open => "failed to open region input spool '"@,
        RegionAccess::Read => "failed to read region input spool '"@,
        RegionAccess::Seek => "failed to seek region input spool '"@,
        RegionAccess::ReadItem(i) => "failed to read item "@ + text::decimal(i as nat)
            + " from region input spool '"@,
    }
}

/// The failure of an access to the spool of a region's input.
pub fn region_access_failed(access: RegionAccess, path: &str, why: &str) -> (e: ExecutionError)
    ensures
        host_error(e, region_access_text(access) + path@ + "': "@ + why@),
{
    let what = match access {
        RegionAccess::Open => "failed to open region input spool '".to_owned(),
        RegionAccess::Read => "failed to read region input spool '".to_owned(),
        RegionAccess::Seek => "failed to seek region input spool '".to_owned(),
        RegionAccess::ReadItem(i) => "failed to read item ".to_owned().concat(
            decimal_usize(i).as_str(),
        ).concat(" from region input spool '"),
    };
    ExecutionError::HostError(what.concat(path).concat("': ").concat(why))
}

// ---------------------------------------------------------------------------
// The spool writer
// ---------------------------------------------------------------------------
/// Disk spool for an UNBOUNDED INTERMEDIATE at a chain split boundary: the
/// collector engages it LAZILY when STREAM_START declares unbounded and no
/// persist writer exists. The file takes the exact `node_data` byte form:
/// - sequence: chunk payloads (raw CBOR fragments) appended verbatim — the
///   file IS the RFC 8742 CBOR sequence;
/// - blob: each chunk's CBOR Bytes/Text value unwrapped, raw bytes appended.
pub struct SpoolWriter {
    pub path: String,
    pub open: bool,
    pub is_sequence: bool,
    pub stream_meta: Option<StreamMeta>,
    pub total_bytes: usize,
    pub engaged: bool,
}

impl SpoolWriter {
    /// A spool that no stream was routed into.
    pub fn new(path: String) -> (s: Self)
        ensures
            s.path == path,
            !s.open,
            !s.is_sequence,
            s.stream_meta is None,
            s.total_bytes == 0,
            !s.engaged,
    {
        SpoolWriter {
            path,
            open: false,
            is_sequence: false,
            stream_meta: None,
            total_bytes: 0,
            engaged: false,
        }
    }

    /// Whether the collector routed a stream into this spool.
    pub fn engaged(&self) -> (r: bool)
        ensures
            r == self.engaged,
    {
        self.engaged
    }

    pub fn path(&self) -> (r: &str)
        ensures
            r@ == self.path@,
    {
        self.path.as_str()
    }

    pub fn is_sequence(&self) -> (r: bool)
        ensures
            r == self.is_sequence,
    {
        self.is_sequence
    }

    pub fn stream_meta(&self) -> (r: Option<&StreamMeta>)
        ensures
            match r {
                None => self.stream_meta is None,
                Some(m) => self.stream_meta == Some(*m),
            },
    {
        match &self.stream_meta {
            Some(m) => Some(m),
            None => None,
        }
    }

    /// A stream is routed into the spool, whose file is created next. A chain
    /// sink is exactly one stream: a second one is refused.
    pub fn on_stream_start(&mut self, is_sequence: Option<bool>, meta: Option<StreamMeta>) -> (r:
        Result<(), StreamIoError>)
        ensures
            match r {
                Ok(()) => {
                    &&& !old(self).engaged
                    &&& *final(self) == (SpoolWriter {
                        engaged: true,
                        is_sequence: is_sequence == Some(true),
                        stream_meta: meta,
                        ..*old(self)
                    })
                },
                Err(e) => {
                    &&& old(self).engaged
                    &&& *final(self) == *old(self)
                    &&& e@ == stream_io::StreamFault::Protocol(
                        "intermediate spool received a second STREAM_START — a chain sink is exactly one stream"@,
                    )
                },
            },
    {
        if self.engaged {
            return Err(
                StreamIoError::Protocol(
                    "intermediate spool received a second STREAM_START — a chain sink is exactly one stream".to_owned(),
                ),
            );
        }
        self.engaged = true;
        self.is_sequence = match is_sequence {
            Some(b) => b,
            None => false,
        };
        self.stream_meta = meta;
        Ok(())
    }

    /// The spool's file exists.
    pub fn on_file_created(&mut self)
        ensures
            *final(self) == (SpoolWriter { open: true, ..*old(self) }),
    {
        self.open = true;
    }

    /// The bytes that a chunk appends to the file.
    pub fn chunk_bytes(&self, payload: &[u8]) -> (r: Result<Vec<u8>, StreamIoError>)
        ensures
            if !self.open {
                r matches Err(e) && e@ == stream_io::StreamFault::Protocol(
                    "intermediate spool received a CHUNK before STREAM_START"@,
                )
            } else if self.is_sequence {
                r matches Ok(v) && v@ == payload@
            } else {
                match cbor::cbor_item(payload@) {
                    None => r matches Err(e) && transport::undecodable(
                        e,
                        "spool blob chunk: "@,
                        payload@,
                    ),
                    Some(item) => match transport::unwrapped(item.content, 0) {
                        Ok(raw) => r matches Ok(v) && v@ == raw,
                        Err(fault) => r matches Err(e) && e@ == fault,
                    },
                }
            },
            // A byte string is appended as the bytes that it holds.
            forall|held: Seq<u8>|
                self.open && !self.is_sequence && payload@ == #[trigger] cbor::bytes_encoding(held)
                    ==> r is Ok && r->Ok_0@ == held,
            self.open && !self.is_sequence ==> match cbor::cbor_read(payload@) {
                Ok(item) => match item.content {
                    cbor::CborContent::Bytes(b) => r is Ok && r->Ok_0@ == b,
                    cbor::CborContent::Text(t) => r is Ok && r->Ok_0@ == vstd::utf8::encode_utf8(
                        t,
                    ),
                    cbor::CborContent::Other(_) => r is Err,
                },
                Err(_) => r is Err,
            },
    {
        if !self.open {
            return Err(
                StreamIoError::Protocol(
                    "intermediate spool received a CHUNK before STREAM_START".to_owned(),
                ),
            );
        }
        if self.is_sequence {
            // Raw CBOR fragments append verbatim — concatenation of the
            // producer's self-delimiting values is the RFC 8742 form.
            return Ok(slice_to_vec(payload));
        }
        // Blob chunks are complete CBOR Bytes/Text values.
        proof {
            assert forall|held: Seq<u8>| payload@ == #[trigger] cbor::bytes_encoding(
                held,
            ) implies payload@ == cbor::bytes_encoding(held) + Seq::<u8>::empty() by {
                assert(cbor::bytes_encoding(held) + Seq::<u8>::empty() =~= cbor::bytes_encoding(
                    held,
                ));
            }
        }
        match read_value(payload) {
            Err(why) => {
                let m = "spool blob chunk: ".to_owned().concat(why.as_str());
                assert(m@ == "spool blob chunk: "@ + why@);
                Err(StreamIoError::CborDecode(m))
            },
            Ok((value, _)) => unwrap_cbor_value(value, 0),
        }
    }

    /// A chunk's bytes are in the file.
    pub fn on_written(&mut self, bytes: usize)
        requires
            old(self).total_bytes + bytes <= usize::MAX,
        ensures
            *final(self) == (SpoolWriter {
                total_bytes: (old(self).total_bytes + bytes) as usize,
                ..*old(self)
            }),
    {
        self.total_bytes = self.total_bytes + bytes;
    }

    /// What the spool persisted.
    pub fn finish(self) -> (r: WriterResult)
        ensures
            r.is_sequence == self.is_sequence,
            r.media_urn@ == Seq::<char>::empty(),
            text::views(r.saved_paths@) == seq![self.path@],
            r.total_bytes == self.total_bytes,
            r.stream_meta == self.stream_meta,
            r.item_metas@.len() == 0,
    {
        let mut saved_paths: Vec<String> = Vec::new();
        let ghost path = self.path@;
        saved_paths.push(self.path);
        assert(text::views(saved_paths@) =~= seq![path]);
        let media_urn = String::new();
        assert(media_urn@ =~= Seq::<char>::empty());
        WriterResult {
            is_sequence: self.is_sequence,
            media_urn,
            saved_paths,
            total_bytes: self.total_bytes,
            stream_meta: self.stream_meta,
            item_metas: Vec::new(),
        }
    }
}

/// What was tried on a spool file.
#[derive(Debug, Clone, Copy, PartialEq, Eq, Structural)]
pub enum SpoolAccess {
    Create,
    Append,
    Flush,
    Open,
    Read,
    /// Open, read or stat the spool of a gather member.
    OpenGathered,
    ReadGathered,
    StatGathered,
}

/// What was tried, in words.
pub open spec fn access_text(access: SpoolAccess) -> Seq<char> {
    match access {
        SpoolAccess::Create => "failed to create spool file '"@,
        SpoolAccess::Append => "failed to append to spool '"@,
        SpoolAccess::Flush => "failed to flush spool '"@,
        SpoolAccess::Open => "failed to open spool '"@,
        SpoolAccess::Read => "failed to read spool '"@,
        SpoolAccess::OpenGathered => "failed to open gather spool '"@,
        SpoolAccess::ReadGathered => "failed to read gather spool '"@,
        SpoolAccess::StatGathered => "failed to stat gather spool '"@,
    }
}

/// The failure of an access to a spool file.
pub fn access_failed(access: SpoolAccess, path: &str, why: &str) -> (e: StreamIoError)
    ensures
        e@ == stream_io::StreamFault::Protocol(access_text(access) + path@ + "': "@ + why@),
{
    let what = match access {
        SpoolAccess::Create => "failed to create spool file '",
        SpoolAccess::Append => "failed to append to spool '",
        SpoolAccess::Flush => "failed to flush spool '",
        SpoolAccess::Open => "failed to open spool '",
        SpoolAccess::Read => "failed to read spool '",
        SpoolAccess::OpenGathered => "failed to open gather spool '",
        SpoolAccess::ReadGathered => "failed to read gather spool '",
        SpoolAccess::StatGathered => "failed to stat gather spool '",
    };
    StreamIoError::Protocol(what.to_owned().concat(path).concat("': ").concat(why))
}

// ---------------------------------------------------------------------------
// Laws
// ---------------------------------------------------------------------------
proof fn lemma_valid_prefix_is_longest(bytes: Seq<u8>, n: nat, m: int)
    requires
        valid_prefix(bytes, n) < m <= n,
    ensures
        !vstd::utf8::valid_utf8(bytes.take(m)),
    decreases n,
{
    if m < n {
        lemma_valid_prefix_is_longest(bytes, (n - 1) as nat, m);
    }
}

/// A preview is the text of the longest front part of an item, of at most
/// 2048 bytes, that is UTF-8; an item without such a part has none.
pub proof fn a_preview_is_the_longest_text_in_front(bytes: Seq<u8>)
    ensures
        match preview(bytes) {
            Some(t) => exists|k: int|
                #![trigger bytes.take(k)]
                {
                    &&& 0 < k <= bytes.len()
                    &&& k <= 2048
                    &&& vstd::utf8::valid_utf8(bytes.take(k))
                    &&& t == vstd::utf8::decode_utf8(bytes.take(k))
                    &&& forall|m: int|
                        k < m <= bytes.len() && m <= 2048 ==> !vstd::utf8::valid_utf8(
                            #[trigger] bytes.take(m),
                        )
                },
            None => forall|m: int|
                0 < m <= bytes.len() && m <= 2048 ==> !vstd::utf8::valid_utf8(
                    #[trigger] bytes.take(m),
                ),
        },
{
    let cap = if bytes.len() < ITEM_PREVIEW_CAP {
        bytes.len()
    } else {
        ITEM_PREVIEW_CAP as nat
    };
    let k = valid_prefix(bytes, cap);
    lemma_valid_prefix_bounds(bytes, cap);
    assert forall|m: int| k < m <= bytes.len() && m <= 2048 implies !vstd::utf8::valid_utf8(
        #[trigger] bytes.take(m),
    ) by {
        lemma_valid_prefix_is_longest(bytes, cap, m);
    }
    if k > 0 {
        assert(vstd::utf8::valid_utf8(bytes.take(k as int)));
    }
}

/// The index of a spool that holds a run of strings says of every item where it
/// starts, how many bytes it spans, and how much data it carries.
pub proof fn an_index_points_at_every_item(
    data: Seq<u8>,
    contents: Seq<cbor::CborContent>,
    lens: Seq<nat>,
    index: Seq<SpoolItemEntry>,
    i: int,
)
    requires
        transport::is_run(data, contents, lens),
        indexes(index, transport::sequence_items(data)),
        0 <= i < contents.len(),
    ensures
        index.len() == contents.len(),
        index[i].offset == transport::spanned(lens, i),
        index[i].len == lens[i],
        match contents[i] {
            cbor::CborContent::Bytes(b) => index[i].raw_len == b.len() && text::opt_view(
                index[i].preview,
            ) == preview(b),
            cbor::CborContent::Text(t) => index[i].raw_len == vstd::utf8::encode_utf8(t).len()
                && text::opt_view(index[i].preview) == preview(vstd::utf8::encode_utf8(t)),
            cbor::CborContent::Other(_) => false,
        },
{
    transport::lemma_value_of_run(data, contents, lens, i);
    transport::lemma_items_of_run(data, contents, lens);
    let items = transport::sequence_items(data);
    assert(describes(index[i], items, i));
    lemma_span_is_spanned(items, lens, i as nat);
}

proof fn lemma_span_is_spanned(items: Seq<cbor::CborItem>, lens: Seq<nat>, n: nat)
    requires
        n <= items.len(),
        items.len() == lens.len(),
        forall|i: int| 0 <= i < items.len() ==> (#[trigger] items[i]).len == lens[i],
    ensures
        span(items, n) == transport::spanned(lens, n as int),
    decreases n,
{
    if n > 0 {
        lemma_span_is_spanned(items, lens, (n - 1) as nat);
    }
}

} // verus!
