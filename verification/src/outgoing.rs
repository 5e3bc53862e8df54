//! Outgoing streams: the chunk payloads that carry node data to a cartridge.
//!
//! A stream is opened by STREAM_START, carries its payloads as CHUNKs numbered
//! from zero in the order given here, and is closed by STREAM_END with their
//! count. Data that lives on disk is fed through in windows, of which only one
//! is resident at a time.

use crate::cbor;
use crate::cbor::{read_value, CborValue};
use crate::frame;
use crate::frame::{Frame, FrameType, MessageId, StreamMeta};
use crate::stream_io;
use crate::stream_io::StreamIoError;
use crate::text;
use crate::text::decimal_usize;
use crate::transport;
use crate::transport::encode_bytes;
use vstd::prelude::*;
use vstd::slice::{slice_subrange, slice_to_vec};
use vstd::string::*;

verus! {

/// How many bytes of a spool file are resident at once while feeding it
/// downstream — the streaming window, not a size cap.
pub const SPOOL_READ_WINDOW: usize = 262144;

/// How many bytes of a spool file are read at once: a sequence is read in
/// windows, a blob in pieces that go out as they are read.
pub fn read_window(is_sequence: bool, max_chunk: usize) -> (n: usize)
    ensures
        n == if is_sequence {
            SPOOL_READ_WINDOW as int
        } else if max_chunk > 1 {
            max_chunk as int
        } else {
            1
        },
{
    if is_sequence {
        SPOOL_READ_WINDOW
    } else if max_chunk > 1 {
        max_chunk
    } else {
        1
    }
}

/// The failure to send a frame of a stream.
pub open spec fn send_fault(frame: FrameType, why: Seq<char>) -> stream_io::StreamFault {
    stream_io::StreamFault::Transport(
        (match frame {
            FrameType::StreamStart => "STREAM_START: "@,
            FrameType::Chunk => "CHUNK: "@,
            FrameType::StreamEnd => "STREAM_END: "@,
            _ => Seq::empty(),
        }) + why,
    )
}

/// The failure to send a frame of a stream; a credit that could not be acquired
/// is reported in its own words.
pub fn send_failed(frame: FrameType, why: &str) -> (e: StreamIoError)
    ensures
        e@ == send_fault(frame, why@),
{
    let what = match frame {
        FrameType::StreamStart => "STREAM_START: ",
        FrameType::Chunk => "CHUNK: ",
        FrameType::StreamEnd => "STREAM_END: ",
        _ => "",
    };
    proof {
        reveal_strlit("");
        assert(""@ =~= Seq::<char>::empty());
    }
    StreamIoError::Transport(what.to_owned().concat(why))
}

/// The payloads of a stream, and the failure that ends the stream behind them,
/// if one does.
pub struct StreamPayloads {
    pub payloads: Vec<Vec<u8>>,
    pub failure: Option<StreamIoError>,
}

/// The data cut into pieces of at most `max` bytes; empty data is one empty
/// piece.
pub open spec fn chunked(data: Seq<u8>, max: nat) -> Seq<Seq<u8>>
    decreases data.len(),
{
    if data.len() <= max || max == 0 {
        seq![data]
    } else {
        seq![data.take(max as int)] + chunked(data.skip(max as int), max)
    }
}

/// Each piece as a byte string.
pub open spec fn encoded_each(chunks: Seq<Seq<u8>>) -> Seq<Seq<u8>> {
    Seq::new(chunks.len(), |i: int| cbor::bytes_encoding(chunks[i]))
}

/// The cardinality flag that STREAM_START carries.
pub fn sequence_flag(is_sequence: bool) -> (r: Option<bool>)
    ensures
        r == if is_sequence {
            Some(true)
        } else {
            None
        },
{
    if is_sequence {
        Some(true)
    } else {
        None
    }
}

/// What splitting a CBOR sequence comes to: one payload per complete value;
/// bytes left over are a failure behind them.
pub open spec fn split_into(data: Seq<u8>, r: StreamPayloads) -> bool {
    &&& transport::byte_views(r.payloads@) == transport::sequence_payloads(data)
    &&& r.failure is None <==> transport::sequence_rest(data).len() == 0
}

/// Split a CBOR sequence into the bytes of its values; where bytes are left over,
/// the decoder's own words about them.
pub fn split_sequence(data: &[u8]) -> (r: (Vec<Vec<u8>>, Option<String>))
    ensures
        transport::byte_views(r.0@) == transport::sequence_payloads(data@),
        r.1 is None <==> transport::sequence_rest(data@).len() == 0,
        r.1 matches Some(why) ==> why@ == cbor::decode_error(transport::sequence_rest(data@)),
{
    let mut payloads: Vec<Vec<u8>> = Vec::new();
    let mut pos: usize = 0;
    let ghost all = transport::sequence_payloads(data@);
    proof {
        assert(data@.skip(0) =~= data@);
        assert(transport::byte_views(payloads@) + transport::sequence_payloads(data@) =~= all);
    }
    while pos < data.len()
        invariant
            pos <= data.len(),
            all == transport::sequence_payloads(data@),
            transport::byte_views(payloads@) + transport::sequence_payloads(data@.skip(pos as int)) == all,
            transport::sequence_rest(data@.skip(pos as int)) == transport::sequence_rest(data@),
        decreases data.len() - pos,
    {
        let left = slice_subrange(data, pos, data.len());
        assert(left@ =~= data@.skip(pos as int));
        match read_value(left) {
            Err(e) => {
                assert(transport::byte_views(payloads@) + Seq::<Seq<u8>>::empty() =~= transport::byte_views(payloads@));
                return (payloads, Some(e));
            },
            Ok((_, len)) => {
                let ghost before = transport::byte_views(payloads@);
                let item = slice_to_vec(slice_subrange(left, 0, len));
                assert(item@ =~= left@.take(len as int));
                payloads.push(item);
                proof {
                    assert(transport::starts_with_item(left@));
                    assert(transport::byte_views(payloads@) =~= before.push(left@.take(len as int)));
                    assert(left@.skip(len as int) =~= data@.skip(pos + len));
                    let tail = transport::sequence_payloads(data@.skip(pos + len));
                    assert(before.push(left@.take(len as int)) + tail =~= before + (seq![
                        left@.take(len as int),
                    ] + tail));
                }
                pos = pos + len;
            },
        }
    }
    proof {
        assert(data@.skip(pos as int) =~= Seq::<u8>::empty());
        assert(!transport::starts_with_item(Seq::<u8>::empty()));
        assert(transport::byte_views(payloads@) + Seq::<Seq<u8>>::empty() =~= transport::byte_views(payloads@));
    }
    (payloads, None)
}

proof fn lemma_encoded_each_push(chunks: Seq<Seq<u8>>, last: Seq<u8>)
    ensures
        encoded_each(chunks.push(last)) == encoded_each(chunks).push(cbor::bytes_encoding(last)),
{
    assert(encoded_each(chunks.push(last)) =~= encoded_each(chunks).push(cbor::bytes_encoding(last)));
}

/// The payloads of a single input stream:
/// - Scalar (`is_sequence=false`): wraps each chunk in a CBOR byte string
/// - Sequence (`is_sequence=true`): sends raw CBOR item bytes directly
///   (matching `emit_list_item` semantics on the cartridge side)
pub fn stream_payloads(data: &[u8], is_sequence: bool, max_chunk: usize) -> (r: StreamPayloads)
    requires
        !is_sequence ==> max_chunk > 0,
    ensures
        is_sequence ==> split_into(data@, r),
        is_sequence ==> (r.failure matches Some(e) ==> transport::undecodable(
            e,
            "sequence item "@ + text::decimal(transport::sequence_payloads(data@).len()) + ": "@,
            transport::sequence_rest(data@),
        )),
        !is_sequence ==> r.failure is None && transport::byte_views(r.payloads@) == encoded_each(
            chunked(data@, max_chunk as nat),
        ),
{
    if is_sequence {
        let (payloads, why) = split_sequence(data);
        assert(payloads@.len() == transport::byte_views(payloads@).len());
        let failure = match why {
            None => None,
            Some(e) => {
                let context = "sequence item ".to_owned().concat(
                    decimal_usize(payloads.len()).as_str(),
                ).concat(": ");
                let message = context.concat(e.as_str());
                assert(message@ == ("sequence item "@ + text::decimal(payloads@.len()) + ": "@) + e@);
                Some(StreamIoError::CborDecode(message))
            },
        };
        return StreamPayloads { payloads, failure };
    }
    let mut payloads: Vec<Vec<u8>> = Vec::new();
    let mut offset: usize = 0;
    let ghost all = chunked(data@, max_chunk as nat);
    let ghost mut cut: Seq<Seq<u8>> = Seq::empty();
    proof {
        assert(data@.skip(0) =~= data@);
        assert(cut + all =~= all);
        assert(transport::byte_views(payloads@) =~= encoded_each(cut));
    }
    while data.len() - offset > max_chunk
        invariant
            offset <= data.len(),
            max_chunk > 0,
            all == chunked(data@, max_chunk as nat),
            cut + chunked(data@.skip(offset as int), max_chunk as nat) == all,
            transport::byte_views(payloads@) == encoded_each(cut),
        decreases data.len() - offset,
    {
        let piece = slice_to_vec(slice_subrange(data, offset, offset + max_chunk));
        let ghost left = data@.skip(offset as int);
        assert(piece@ =~= left.take(max_chunk as int));
        match encode_bytes(piece) {
            Err(e) => {
                return StreamPayloads { payloads, failure: Some(e) };
            },
            Ok(payload) => {
                let ghost before = transport::byte_views(payloads@);
                payloads.push(payload);
                proof {
                    assert(transport::byte_views(payloads@) =~= before.push(payload@));
                    lemma_encoded_each_push(cut, left.take(max_chunk as int));
                    assert(left.skip(max_chunk as int) =~= data@.skip(offset + max_chunk));
                    let tail = chunked(data@.skip(offset + max_chunk), max_chunk as nat);
                    assert(cut.push(left.take(max_chunk as int)) + tail =~= cut + (seq![
                        left.take(max_chunk as int),
                    ] + tail));
                    cut = cut.push(left.take(max_chunk as int));
                }
            },
        }
        offset = offset + max_chunk;
    }
    let piece = slice_to_vec(slice_subrange(data, offset, data.len()));
    assert(piece@ =~= data@.skip(offset as int));
    match encode_bytes(piece) {
        Err(e) => StreamPayloads { payloads, failure: Some(e) },
        Ok(payload) => {
            let ghost before = transport::byte_views(payloads@);
            payloads.push(payload);
            proof {
                assert(transport::byte_views(payloads@) =~= before.push(payload@));
                lemma_encoded_each_push(cut, data@.skip(offset as int));
                assert(cut + seq![data@.skip(offset as int)] =~= cut.push(
                    data@.skip(offset as int),
                ));
            }
            StreamPayloads { payloads, failure: None }
        },
    }
}

/// Joining starts with the first piece.
pub proof fn lemma_joined_cons(first: Seq<u8>, chunks: Seq<Seq<u8>>)
    ensures
        transport::joined(seq![first] + chunks) == first + transport::joined(chunks),
    decreases chunks.len(),
{
    let all = seq![first] + chunks;
    if chunks.len() == 0 {
        assert(all.drop_last() =~= Seq::<Seq<u8>>::empty());
        assert(transport::joined(Seq::empty()) =~= Seq::<u8>::empty());
        assert(transport::joined(all) =~= first + transport::joined(chunks));
    } else {
        lemma_joined_cons(first, chunks.drop_last());
        assert(all.drop_last() =~= seq![first] + chunks.drop_last());
        assert(transport::joined(all) =~= first + transport::joined(chunks));
    }
}

/// A scalar stream is lossless: its pieces put together are the data, and its
/// payloads put together are the byte strings of those pieces — what decoding
/// in scalar mode reads back joined.
pub proof fn scalar_stream_is_lossless(data: Seq<u8>, max: nat)
    ensures
        transport::joined(chunked(data, max)) == data,
        transport::joined(encoded_each(chunked(data, max))) == transport::encodings(chunked(data, max)),
    decreases data.len(),
{
    lemma_joined_encoded(chunked(data, max));
    if data.len() <= max || max == 0 {
        lemma_joined_cons(data, Seq::empty());
        assert(seq![data] + Seq::<Seq<u8>>::empty() =~= seq![data]);
        assert(transport::joined(Seq::empty()) =~= Seq::<u8>::empty());
        assert(data + Seq::<u8>::empty() =~= data);
    } else {
        scalar_stream_is_lossless(data.skip(max as int), max);
        lemma_joined_cons(data.take(max as int), chunked(data.skip(max as int), max));
        assert(data.take(max as int) + data.skip(max as int) =~= data);
    }
}

/// A sequence stream is lossless: the bytes of its values and what is left
/// behind them, put together, are the data.
pub proof fn sequence_stream_is_lossless(data: Seq<u8>)
    ensures
        transport::joined(transport::sequence_payloads(data)) + transport::sequence_rest(data)
            == data,
    decreases data.len(),
{
    if transport::starts_with_item(data) {
        let len = cbor::cbor_item(data)->Some_0.len as int;
        let tail = data.skip(len);
        sequence_stream_is_lossless(tail);
        lemma_joined_cons(data.take(len), transport::sequence_payloads(tail));
        assert(data.take(len) + tail =~= data);
        assert(data.take(len) + transport::joined(transport::sequence_payloads(tail))
            + transport::sequence_rest(tail) =~= data.take(len) + tail);
    } else {
        assert(transport::joined(Seq::empty()) + data =~= data);
    }
}

/// Payloads that each hold one piece as a byte string, put together, are the
/// byte strings of the pieces: however a blob was cut, reading it back joins
/// the pieces.
pub proof fn pieces_are_read_back(chunks: Seq<Seq<u8>>)
    ensures
        transport::joined(encoded_each(chunks)) == transport::encodings(chunks),
{
    lemma_joined_encoded(chunks);
}

proof fn lemma_joined_encoded(chunks: Seq<Seq<u8>>)
    ensures
        transport::joined(encoded_each(chunks)) == transport::encodings(chunks),
    decreases chunks.len(),
{
    if chunks.len() == 0 {
        assert(encoded_each(chunks) =~= Seq::<Seq<u8>>::empty());
    } else {
        lemma_joined_encoded(chunks.drop_first());
        lemma_joined_cons(cbor::bytes_encoding(chunks[0]), encoded_each(chunks.drop_first()));
        assert(encoded_each(chunks) =~= seq![cbor::bytes_encoding(chunks[0])] + encoded_each(
            chunks.drop_first(),
        ));
    }
}

// ---------------------------------------------------------------------------
// Frames
// ---------------------------------------------------------------------------
/// Whether `f` opens a stream.
pub open spec fn opens_stream(
    f: Frame,
    rid: MessageId,
    stream_id: Seq<char>,
    media_urn: Seq<char>,
    meta: Option<StreamMeta>,
    is_sequence: bool,
) -> bool {
    &&& frame::is_blank(
        Frame { stream_id: None, media_urn: None, is_sequence: None, meta: None, ..f },
        FrameType::StreamStart,
        rid,
    )
    &&& text::opt_view(f.stream_id) == Some(stream_id)
    &&& text::opt_view(f.media_urn) == Some(media_urn)
    &&& f.is_sequence == (if is_sequence {
        Some(true)
    } else {
        None
    })
    &&& f.meta == meta
}

/// Whether `f` carries the payload at place `index` of a stream.
pub open spec fn carries_chunk(
    f: Frame,
    rid: MessageId,
    stream_id: Seq<char>,
    index: nat,
    payload: Seq<u8>,
) -> bool {
    &&& frame::is_blank(
        Frame { seq: 0, stream_id: None, index: None, payload: None, ..f },
        FrameType::Chunk,
        rid,
    )
    &&& f.seq == index
    &&& text::opt_view(f.stream_id) == Some(stream_id)
    &&& f.index is Some && f.index->Some_0 == index
    &&& f.payload is Some && f.payload->Some_0@ == payload
}

/// Whether `f` closes a stream of `count` chunks.
pub open spec fn closes_stream(f: Frame, rid: MessageId, stream_id: Seq<char>, count: nat) -> bool {
    &&& frame::is_blank(Frame { stream_id: None, index: None, ..f }, FrameType::StreamEnd, rid)
    &&& text::opt_view(f.stream_id) == Some(stream_id)
    &&& f.index is Some && f.index->Some_0 == count
}

/// A stream that is being sent: STREAM_START, CHUNKs numbered from zero,
/// STREAM_END with their count.
pub struct OutgoingStream {
    pub rid: MessageId,
    pub stream_id: String,
    /// How many chunks went out.
    pub chunks: u64,
}

impl OutgoingStream {
    /// Open a stream.
    pub fn open(
        rid: MessageId,
        stream_id: &str,
        media_urn: &str,
        meta: Option<StreamMeta>,
        is_sequence: bool,
    ) -> (r: (Self, Frame))
        ensures
            r.0.rid == rid,
            r.0.stream_id@ == stream_id@,
            r.0.chunks == 0,
            opens_stream(r.1, rid, stream_id@, media_urn@, meta, is_sequence),
    {
        let f = Frame {
            stream_id: Some(stream_id.to_owned()),
            media_urn: Some(media_urn.to_owned()),
            is_sequence: sequence_flag(is_sequence),
            meta,
            ..Frame::new(FrameType::StreamStart, rid)
        };
        (OutgoingStream { rid, stream_id: stream_id.to_owned(), chunks: 0 }, f)
    }

    /// The next chunk.
    pub fn chunk(&mut self, payload: Vec<u8>) -> (f: Frame)
        requires
            old(self).chunks < u64::MAX,
        ensures
            *final(self) == (OutgoingStream { chunks: (old(self).chunks + 1) as u64, ..*old(self) }),
            carries_chunk(
                f,
                old(self).rid,
                old(self).stream_id@,
                old(self).chunks as nat,
                payload@,
            ),
    {
        let index: u64 = self.chunks;
        self.chunks = index + 1;
        Frame {
            seq: index,
            stream_id: Some(self.stream_id.clone()),
            index: Some(index),
            payload: Some(payload),
            ..Frame::new(FrameType::Chunk, self.rid)
        }
    }

    /// Close the stream.
    pub fn close(self) -> (f: Frame)
        ensures
            closes_stream(f, self.rid, self.stream_id@, self.chunks as nat),
    {
        Frame {
            stream_id: Some(self.stream_id),
            index: Some(self.chunks),
            ..Frame::new(FrameType::StreamEnd, self.rid)
        }
    }
}

/// The frames of a stream, and the failure behind them, if there is one.
pub struct StreamFrames {
    pub frames: Vec<Frame>,
    pub failure: Option<StreamIoError>,
}

/// Whether frames send the payloads as one stream, which is closed where
/// nothing failed.
pub open spec fn sends(
    frames: Seq<Frame>,
    rid: MessageId,
    stream_id: Seq<char>,
    media_urn: Seq<char>,
    meta: Option<StreamMeta>,
    is_sequence: bool,
    payloads: Seq<Seq<u8>>,
    complete: bool,
) -> bool {
    &&& frames.len() == payloads.len() + (if complete {
        2int
    } else {
        1
    })
    &&& opens_stream(frames[0], rid, stream_id, media_urn, meta, is_sequence)
    &&& forall|i: int|
        0 <= i < payloads.len() ==> carries_chunk(
            #[trigger] frames[i + 1],
            rid,
            stream_id,
            i as nat,
            payloads[i],
        )
    &&& complete ==> closes_stream(frames.last(), rid, stream_id, payloads.len())
}

/// All frames of a stream of data that is in memory.
pub fn stream_frames(
    rid: MessageId,
    stream_id: &str,
    media_urn: &str,
    data: &[u8],
    meta: Option<StreamMeta>,
    is_sequence: bool,
    max_chunk: usize,
) -> (r: StreamFrames)
    requires
        !is_sequence ==> max_chunk > 0,
    ensures
        sends(
            r.frames@,
            rid,
            stream_id@,
            media_urn@,
            meta,
            is_sequence,
            if is_sequence {
                transport::sequence_payloads(data@)
            } else {
                encoded_each(chunked(data@, max_chunk as nat))
            },
            r.failure is None,
        ),
        is_sequence ==> (r.failure is None <==> transport::sequence_rest(data@).len() == 0),
        is_sequence ==> (r.failure matches Some(e) ==> transport::undecodable(
            e,
            "sequence item "@ + text::decimal(transport::sequence_payloads(data@).len()) + ": "@,
            transport::sequence_rest(data@),
        )),
        !is_sequence ==> r.failure is None,
{
    let split = stream_payloads(data, is_sequence, max_chunk);
    let ghost payloads = transport::byte_views(split.payloads@);
    let n: usize = split.payloads.len();
    let mut rest = split.payloads;
    let mut frames: Vec<Frame> = Vec::new();
    let (mut stream, start) = OutgoingStream::open(rid, stream_id, media_urn, meta, is_sequence);
    frames.push(start);
    let ghost mut k: int = 0;
    proof {
        assert(transport::byte_views(rest@) =~= payloads.skip(0));
    }
    while rest.len() > 0
        invariant
            0 <= k <= payloads.len(),
            payloads.len() == n,
            transport::byte_views(rest@) == payloads.skip(k),
            stream.rid == rid,
            stream.stream_id@ == stream_id@,
            stream.chunks == k,
            frames@.len() == k + 1,
            opens_stream(frames@[0], rid, stream_id@, media_urn@, meta, is_sequence),
            forall|i: int|
                0 <= i < k ==> carries_chunk(
                    #[trigger] frames@[i + 1],
                    rid,
                    stream_id@,
                    i as nat,
                    payloads[i],
                ),
        decreases rest@.len(),
    {
        let ghost ahead = rest@;
        let payload = rest.remove(0);
        proof {
            let views = transport::byte_views(ahead);
            assert(views == payloads.skip(k));
            assert(views.len() == ahead.len());
            assert(views[0] == payload@);
            assert(payloads[k] == payload@);
            assert forall|j: int| 0 <= j < rest@.len() implies #[trigger] transport::byte_views(
                rest@,
            )[j] == payloads.skip(k + 1)[j] by {
                assert(rest@[j] == ahead[j + 1]);
                assert(views[j + 1] == payloads.skip(k)[j + 1]);
            }
            assert(transport::byte_views(rest@) =~= payloads.skip(k + 1));
        }
        let ghost before = frames@;
        let f = stream.chunk(payload);
        frames.push(f);
        proof {
            assert forall|i: int| 0 <= i < k + 1 implies carries_chunk(
                #[trigger] frames@[i + 1],
                rid,
                stream_id@,
                i as nat,
                payloads[i],
            ) by {
                if i < k {
                    assert(frames@[i + 1] == before[i + 1]);
                }
            }
            k = k + 1;
        }
    }
    assert(k == payloads.len()) by {
        assert(payloads.skip(k).len() == 0);
    }
    if split.failure.is_none() {
        let ghost before = frames@;
        frames.push(stream.close());
        proof {
            assert forall|i: int| 0 <= i < payloads.len() implies carries_chunk(
                #[trigger] frames@[i + 1],
                rid,
                stream_id@,
                i as nat,
                payloads[i],
            ) by {
                assert(frames@[i + 1] == before[i + 1]);
            }
            assert(frames@[0] == before[0]);
        }
    }
    StreamFrames { frames, failure: split.failure }
}

// ---------------------------------------------------------------------------
// Windowed scanning
// ---------------------------------------------------------------------------
/// A value that a scanner found: its bytes and what it decodes to.
pub struct ScannedItem {
    pub bytes: Vec<u8>,
    pub value: CborValue,
}

/// The items that a scanner found.
pub open spec fn scanned_items(v: Seq<ScannedItem>) -> Seq<cbor::CborItem> {
    Seq::new(v.len(), |i: int| cbor::CborItem { content: v[i].value@, len: v[i].bytes@.len() })
}

/// The bytes of the items that a scanner found.
pub open spec fn scanned_bytes(v: Seq<ScannedItem>) -> Seq<Seq<u8>> {
    Seq::new(v.len(), |i: int| v[i].bytes@)
}

/// Scanning `front` yields `items` with the bytes `pieces` and leaves `rest`,
/// whatever follows.
spec fn yields(
    front: Seq<u8>,
    items: Seq<cbor::CborItem>,
    pieces: Seq<Seq<u8>>,
    rest: Seq<u8>,
) -> bool {
    forall|more: Seq<u8>|
        #![trigger front + more]
        {
            &&& transport::sequence_items(front + more) == items + transport::sequence_items(rest + more)
            &&& transport::sequence_payloads(front + more) == pieces + transport::sequence_payloads(rest + more)
            &&& transport::sequence_rest(front + more) == transport::sequence_rest(rest + more)
        }
}

/// Drains complete CBOR values out of a byte stream that arrives in windows,
/// and keeps the partial tail.
pub struct SequenceScanner {
    buf: Vec<u8>,
    fed: Ghost<Seq<u8>>,
}

impl SequenceScanner {
    #[verifier::type_invariant]
    spec fn is_a_faithful_prefix(self) -> bool {
        &&& yields(
            self.fed@,
            transport::sequence_items(self.fed@),
            transport::sequence_payloads(self.fed@),
            self.buf@,
        )
        &&& self.buf@ == transport::sequence_rest(self.fed@)
    }

    /// Everything that was fed in so far.
    pub closed spec fn fed(&self) -> Seq<u8> {
        self.fed@
    }

    /// A scanner that has seen nothing.
    pub fn new() -> (s: Self)
        ensures
            s.fed() == Seq::<u8>::empty(),
    {
        let fed: Ghost<Seq<u8>> = Ghost(Seq::<u8>::empty());
        let buf: Vec<u8> = Vec::new();
        proof {
            assert(!transport::starts_with_item(Seq::<u8>::empty()));
            assert forall|more: Seq<u8>| #![trigger fed@ + more] ({
                &&& transport::sequence_items(fed@ + more) == transport::sequence_items(fed@) + transport::sequence_items(buf@ + more)
                &&& transport::sequence_payloads(fed@ + more) == transport::sequence_payloads(fed@) + transport::sequence_payloads(
                    buf@ + more,
                )
                &&& transport::sequence_rest(fed@ + more) == transport::sequence_rest(buf@ + more)
            }) by {
                assert(fed@ + more =~= more);
                assert(buf@ + more =~= more);
                assert(Seq::<cbor::CborItem>::empty() + transport::sequence_items(more) =~= transport::sequence_items(more));
                assert(Seq::<Seq<u8>>::empty() + transport::sequence_payloads(more) =~= transport::sequence_payloads(
                    more,
                ));
            }
        }
        SequenceScanner { buf, fed }
    }

    /// The bytes of an incomplete value at the end of what was fed in.
    pub fn remainder(&self) -> (n: usize)
        ensures
            n == transport::sequence_rest(self.fed()).len(),
    {
        proof {
            use_type_invariant(self);
        }
        self.buf.len()
    }

    /// Take in the next window and hand out every value that it completes. How
    /// the stream is cut into windows makes no difference to the values.
    pub fn feed(&mut self, window: &[u8]) -> (r: Vec<ScannedItem>)
        ensures
            final(self).fed() == old(self).fed() + window@,
            transport::sequence_items(final(self).fed()) == transport::sequence_items(old(self).fed()) + scanned_items(r@),
            transport::sequence_payloads(final(self).fed()) == transport::sequence_payloads(old(self).fed())
                + scanned_bytes(r@),
    {
        proof {
            use_type_invariant(&*self);
        }
        let ghost fed = self.fed@;
        let ghost held = self.buf@;
        let mut buf: Vec<u8> = Vec::new();
        buf.append(&mut slice_to_vec(self.buf.as_slice()));
        buf.append(&mut slice_to_vec(window));
        let ghost start = held + window@;
        assert(buf@ =~= start);
        let mut found: Vec<ScannedItem> = Vec::new();
        let mut pos: usize = 0;
        let mut complete: bool = true;
        proof {
            assert(buf@.skip(0) =~= start);
            lemma_yields_nothing(start);
            assert(scanned_items(found@) =~= Seq::empty());
            assert(scanned_bytes(found@) =~= Seq::empty());
        }
        while complete && pos < buf.len()
            invariant
                pos <= buf.len(),
                buf@ == start,
                yields(start, scanned_items(found@), scanned_bytes(found@), buf@.skip(pos as int)),
                !complete ==> !transport::starts_with_item(buf@.skip(pos as int)),
            decreases buf.len() - pos, if complete { 1int } else { 0int },
        {
            let left = slice_subrange(buf.as_slice(), pos, buf.len());
            assert(left@ =~= buf@.skip(pos as int));
            match read_value(left) {
                Err(_) => {
                    complete = false;
                },
                Ok((value, len)) => {
                    let bytes = slice_to_vec(slice_subrange(left, 0, len));
                    assert(bytes@ =~= left@.take(len as int));
                    let ghost items = scanned_items(found@);
                    let ghost pieces = scanned_bytes(found@);
                    let ghost item = cbor::CborItem { content: value@, len: len as nat };
                    found.push(ScannedItem { bytes, value });
                    proof {
                        lemma_yields_one_more(start, items, pieces, left@, item);
                        assert(left@.skip(len as int) =~= buf@.skip(pos + len));
                        assert(scanned_items(found@) =~= items.push(item));
                        assert(scanned_bytes(found@) =~= pieces.push(left@.take(len as int)));
                    }
                    pos = pos + len;
                },
            }
        }
        let rest = slice_to_vec(slice_subrange(buf.as_slice(), pos, buf.len()));
        proof {
            let left = buf@.skip(pos as int);
            assert(rest@ =~= left);
            if pos == buf.len() {
                assert(left =~= Seq::<u8>::empty());
            }
            assert(!transport::starts_with_item(left));
            lemma_yields_compose(
                fed,
                held,
                window@,
                scanned_items(found@),
                scanned_bytes(found@),
                left,
            );
        }
        *self = SequenceScanner { buf: rest, fed: Ghost(fed + window@) };
        found
    }
}

proof fn lemma_yields_nothing(start: Seq<u8>)
    ensures
        yields(start, Seq::empty(), Seq::empty(), start),
{
    assert forall|more: Seq<u8>| #![trigger start + more] ({
        &&& transport::sequence_items(start + more) == Seq::<cbor::CborItem>::empty() + transport::sequence_items(start + more)
        &&& transport::sequence_payloads(start + more) == Seq::<Seq<u8>>::empty() + transport::sequence_payloads(
            start + more,
        )
    }) by {
        assert(Seq::<cbor::CborItem>::empty() + transport::sequence_items(start + more) =~= transport::sequence_items(
            start + more,
        ));
        assert(Seq::<Seq<u8>>::empty() + transport::sequence_payloads(start + more) =~= transport::sequence_payloads(
            start + more,
        ));
    }
}

proof fn lemma_yields_one_more(
    start: Seq<u8>,
    items: Seq<cbor::CborItem>,
    pieces: Seq<Seq<u8>>,
    left: Seq<u8>,
    item: cbor::CborItem,
)
    requires
        yields(start, items, pieces, left),
        0 < item.len <= left.len(),
        forall|more: Seq<u8>| #[trigger]
            cbor::cbor_read(left.take(item.len as int) + more) == Ok::<cbor::CborItem, Seq<char>>(
                item,
            ),
    ensures
        yields(
            start,
            items.push(item),
            pieces.push(left.take(item.len as int)),
            left.skip(item.len as int),
        ),
{
    let n = item.len as int;
    let next = left.skip(n);
    assert forall|more: Seq<u8>| #![trigger start + more] ({
        &&& transport::sequence_items(start + more) == items.push(item) + transport::sequence_items(next + more)
        &&& transport::sequence_payloads(start + more) == pieces.push(left.take(n)) + transport::sequence_payloads(
            next + more,
        )
        &&& transport::sequence_rest(start + more) == transport::sequence_rest(next + more)
    }) by {
        let whole = left + more;
        assert(whole =~= left.take(n) + (next + more));
        assert(cbor::cbor_read(left.take(n) + (next + more)) == Ok::<cbor::CborItem, Seq<char>>(
            item,
        ));
        assert(transport::starts_with_item(whole));
        assert(whole.skip(n) =~= next + more);
        assert(whole.take(n) =~= left.take(n));
        assert(items + (seq![item] + transport::sequence_items(next + more)) =~= items.push(item)
            + transport::sequence_items(next + more));
        assert(pieces + (seq![left.take(n)] + transport::sequence_payloads(next + more)) =~= pieces.push(
            left.take(n),
        ) + transport::sequence_payloads(next + more));
    }
}

proof fn lemma_yields_compose(
    fed: Seq<u8>,
    held: Seq<u8>,
    window: Seq<u8>,
    items: Seq<cbor::CborItem>,
    pieces: Seq<Seq<u8>>,
    left: Seq<u8>,
)
    requires
        yields(fed, transport::sequence_items(fed), transport::sequence_payloads(fed), held),
        yields(held + window, items, pieces, left),
        !transport::starts_with_item(left),
    ensures
        transport::sequence_items(fed + window) == transport::sequence_items(fed) + items,
        transport::sequence_payloads(fed + window) == transport::sequence_payloads(fed) + pieces,
        transport::sequence_rest(fed + window) == left,
        yields(
            fed + window,
            transport::sequence_items(fed + window),
            transport::sequence_payloads(fed + window),
            left,
        ),
{
    let none = Seq::<u8>::empty();
    assert((held + window) + none =~= held + window);
    assert(left + none =~= left);
    assert(items + Seq::<cbor::CborItem>::empty() =~= items);
    assert(pieces + Seq::<Seq<u8>>::empty() =~= pieces);
    assert(transport::sequence_items(fed + window) == transport::sequence_items(fed) + items);
    assert forall|more: Seq<u8>| #![trigger (fed + window) + more] ({
        &&& transport::sequence_items((fed + window) + more) == transport::sequence_items(fed + window) + transport::sequence_items(
            left + more,
        )
        &&& transport::sequence_payloads((fed + window) + more) == transport::sequence_payloads(fed + window)
            + transport::sequence_payloads(left + more)
        &&& transport::sequence_rest((fed + window) + more) == transport::sequence_rest(left + more)
    }) by {
        assert((fed + window) + more =~= fed + (window + more));
        assert(held + (window + more) =~= (held + window) + more);
        assert(transport::sequence_items(fed) + (items + transport::sequence_items(left + more)) =~= (transport::sequence_items(fed)
            + items) + transport::sequence_items(left + more));
        assert(transport::sequence_payloads(fed) + (pieces + transport::sequence_payloads(left + more)) =~= (
        transport::sequence_payloads(fed) + pieces) + transport::sequence_payloads(left + more));
    }
}

/// Data is cut at every `max` bytes: piece `i` starts behind `i` full pieces,
/// every piece but the last is full, and the last is not empty unless the data
/// is.
pub proof fn data_is_cut_into_full_pieces(data: Seq<u8>, max: nat, i: int)
    requires
        max > 0,
        0 <= i < chunked(data, max).len(),
    ensures
        0 <= i * max <= data.len(),
        i + 1 < chunked(data, max).len() ==> chunked(data, max)[i] == data.subrange(
            i * max,
            i * max + max,
        ) && i * max + max < data.len(),
        i + 1 == chunked(data, max).len() ==> chunked(data, max)[i] == data.skip(i * max)
            && data.len() - i * max <= max && (data.len() > 0 ==> i * max < data.len()),
    decreases data.len(),
{
    if data.len() > max {
        let tail = data.skip(max as int);
        let pieces = chunked(data, max);
        let rest = chunked(tail, max);
        assert(pieces =~= seq![data.take(max as int)] + rest);
        assert(rest.len() >= 1);
        if i == 0 {
            assert(0 * max == 0) by (nonlinear_arith);
            assert(data.take(max as int) =~= data.subrange(0, max as int));
        } else {
            data_is_cut_into_full_pieces(tail, max, i - 1);
            assert(i * max == (i - 1) * max + max) by (nonlinear_arith);
            assert(pieces[i] == rest[i - 1]);
            if i + 1 < pieces.len() {
                assert(tail.subrange((i - 1) * max, (i - 1) * max + max) =~= data.subrange(
                    i * max,
                    i * max + max,
                ));
            } else {
                assert(tail.skip((i - 1) * max) =~= data.skip(i * max));
            }
        }
    } else {
        assert(i == 0);
        assert(0 * max == 0) by (nonlinear_arith);
        assert(data.skip(0) =~= data);
    }
}

/// A framed stream opens, numbers its chunks from zero without a gap and, where
/// it is complete, ends with their count; every frame is of the same request and
/// stream, and the payloads stand in the chunks in order.
pub proof fn a_stream_is_framed_in_order(
    frames: Seq<Frame>,
    rid: MessageId,
    stream_id: Seq<char>,
    media_urn: Seq<char>,
    meta: Option<StreamMeta>,
    is_sequence: bool,
    payloads: Seq<Seq<u8>>,
    complete: bool,
    i: int,
)
    requires
        sends(frames, rid, stream_id, media_urn, meta, is_sequence, payloads, complete),
        0 <= i < frames.len(),
    ensures
        frames[i].id == rid,
        frames[i].stream_id is Some && frames[i].stream_id->0@ == stream_id,
        frames[i].frame_type == (if i == 0 {
            FrameType::StreamStart
        } else if i <= payloads.len() {
            FrameType::Chunk
        } else {
            FrameType::StreamEnd
        }),
        i == 0 ==> frames[i].media_urn is Some && frames[i].media_urn->0@ == media_urn
            && frames[i].meta == meta && (frames[i].is_sequence == Some(true) <==> is_sequence),
        1 <= i <= payloads.len() ==> frames[i].index == Some((i - 1) as u64) && i - 1 <= u64::MAX
            && frames[i].payload is Some && frames[i].payload->0@ == payloads[i - 1],
        complete ==> frames.len() == payloads.len() + 2 && frames.last().frame_type
            == FrameType::StreamEnd && frames.last().index is Some && frames.last().index->0
            == payloads.len(),
        !complete ==> frames.len() == payloads.len() + 1,
{
    if 1 <= i <= payloads.len() {
        assert(carries_chunk(frames[(i - 1) + 1], rid, stream_id, (i - 1) as nat, payloads[i - 1]));
    }
}

} // verus!
