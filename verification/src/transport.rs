//! The CBOR transport of node data: how a node's bytes become the chunk
//! payloads of a stream, and how payloads become node data again.

use crate::cbor;
use crate::cbor::{read_value, write_bytes, CborValue};
use crate::stream_io;
use crate::stream_io::StreamIoError;
use crate::text;
use crate::text::decimal_usize;
use vstd::prelude::*;
use vstd::slice::slice_subrange;
use vstd::string::*;

verus! {

// ---------------------------------------------------------------------------
// Model
// ---------------------------------------------------------------------------
/// Whether a complete value stands at the front of `data`.
pub open spec fn starts_with_item(data: Seq<u8>) -> bool {
    cbor::cbor_item(data) is Some && 0 < cbor::cbor_item(data)->Some_0.len <= data.len()
}

/// The complete values at the front of `data`, in order.
pub open spec fn sequence_items(data: Seq<u8>) -> Seq<cbor::CborItem>
    decreases data.len(),
{
    if starts_with_item(data) {
        let item = cbor::cbor_item(data)->Some_0;
        seq![item] + sequence_items(data.skip(item.len as int))
    } else {
        Seq::empty()
    }
}

/// What is left of `data` behind its complete values.
pub open spec fn sequence_rest(data: Seq<u8>) -> Seq<u8>
    decreases data.len(),
{
    if starts_with_item(data) {
        sequence_rest(data.skip(cbor::cbor_item(data)->Some_0.len as int))
    } else {
        data
    }
}

/// The bytes of the complete values at the front of `data`, one by one.
pub open spec fn sequence_payloads(data: Seq<u8>) -> Seq<Seq<u8>>
    decreases data.len(),
{
    if starts_with_item(data) {
        let len = cbor::cbor_item(data)->Some_0.len as int;
        seq![data.take(len)] + sequence_payloads(data.skip(len))
    } else {
        Seq::empty()
    }
}

/// The data that a transport value carries: a byte string's bytes, a text's
/// UTF-8 bytes, and nothing in anything else.
pub open spec fn carried(content: cbor::CborContent) -> Seq<u8> {
    match content {
        cbor::CborContent::Bytes(b) => b,
        cbor::CborContent::Text(t) => vstd::utf8::encode_utf8(t),
        cbor::CborContent::Other(_) => Seq::empty(),
    }
}

/// The data of a transport value, or the fault of one that carries none.
pub open spec fn unwrapped(content: cbor::CborContent, index: nat) -> Result<Seq<u8>, stream_io::StreamFault> {
    match content {
        cbor::CborContent::Other(description) => Err(stream_io::StreamFault::UnexpectedCborType(index, description)),
        _ => Ok(carried(content)),
    }
}

/// The data of each item.
pub open spec fn carried_all(items: Seq<cbor::CborItem>) -> Seq<Seq<u8>> {
    Seq::new(items.len(), |i: int| carried(items[i].content))
}

/// The first item at or after `from` that carries no data, or the number of
/// items where all carry some.
pub open spec fn first_foreign(items: Seq<cbor::CborItem>, from: int) -> int
    decreases items.len() - from,
{
    if from >= items.len() {
        items.len() as int
    } else if items[from].content is Other {
        from
    } else {
        first_foreign(items, from + 1)
    }
}

/// The contents of a list of byte vectors.
pub open spec fn byte_views(v: Seq<Vec<u8>>) -> Seq<Seq<u8>> {
    Seq::new(v.len(), |i: int| v[i]@)
}

/// The CBOR byte strings that hold the given data, one behind the other.
pub open spec fn encodings(chunks: Seq<Seq<u8>>) -> Seq<u8>
    decreases chunks.len(),
{
    if chunks.len() == 0 {
        Seq::empty()
    } else {
        cbor::bytes_encoding(chunks[0]) + encodings(chunks.drop_first())
    }
}

/// The given data, one behind the other.
pub open spec fn joined(chunks: Seq<Seq<u8>>) -> Seq<u8>
    decreases chunks.len(),
{
    if chunks.len() == 0 {
        Seq::empty()
    } else {
        joined(chunks.drop_last()) + chunks.last()
    }
}

// ---------------------------------------------------------------------------
// Byte strings
// ---------------------------------------------------------------------------
/// The CBOR byte-string HEADER for a payload of `len` bytes (major type 2).
/// Streaming a spooled blob as one item = this header followed by the raw
/// file bytes, split across chunk payloads.
pub fn cbor_bytes_header(len: u64) -> (r: Vec<u8>)
    ensures
        r@ == cbor::bytes_header(len as nat),
{
    let mut r: Vec<u8> = Vec::new();
    if len <= 23 {
        r.push(0x40u8 + len as u8);
    } else if len <= 0xFF {
        r.push(0x58);
        push_big_endian(&mut r, len, 1);
    } else if len <= 0xFFFF {
        r.push(0x59);
        push_big_endian(&mut r, len, 2);
    } else if len <= 0xFFFF_FFFF {
        r.push(0x5A);
        push_big_endian(&mut r, len, 4);
    } else {
        r.push(0x5B);
        push_big_endian(&mut r, len, 8);
    }
    assert(r@ =~= cbor::bytes_header(len as nat));
    r
}

fn push_big_endian(r: &mut Vec<u8>, n: u64, width: usize)
    ensures
        final(r)@ == old(r)@ + cbor::big_endian(n as nat, width as nat),
    decreases width,
{
    if width > 0 {
        push_big_endian(r, n / 256, width - 1);
        r.push((n % 256) as u8);
        assert(r@ =~= old(r)@ + cbor::big_endian(n as nat, width as nat));
    } else {
        assert(r@ =~= old(r)@ + cbor::big_endian(n as nat, 0));
    }
}

/// Unwrap a CBOR transport value to raw bytes.
///
/// Bytes → inner bytes, Text → UTF-8 bytes. Anything else is a
/// protocol error.
pub fn unwrap_cbor_value(value: CborValue, item_index: usize) -> (r: Result<Vec<u8>, StreamIoError>)
    ensures
        match value {
            CborValue::Bytes(b) => r is Ok && r->Ok_0@ == b@,
            CborValue::Text(t) => r is Ok && r->Ok_0@ == vstd::utf8::encode_utf8(t@),
            CborValue::Other(d) => r is Err && r->Err_0 == (StreamIoError::UnexpectedCborType {
                index: item_index,
                description: d,
            }),
        },
        match r {
            Ok(raw) => unwrapped(value@, item_index as nat) == Ok::<Seq<u8>, stream_io::StreamFault>(raw@),
            Err(e) => unwrapped(value@, item_index as nat) == Err::<Seq<u8>, stream_io::StreamFault>(e@),
        },
{
    match value {
        CborValue::Bytes(b) => Ok(b),
        CborValue::Text(t) => Ok(t.as_str().as_bytes_vec()),
        CborValue::Other(description) => Err(
            StreamIoError::UnexpectedCborType { index: item_index, description },
        ),
    }
}

/// One byte string per chunk payload.
pub fn encode_bytes(data: Vec<u8>) -> (r: Result<Vec<u8>, StreamIoError>)
    ensures
        r is Ok,
        r->Ok_0@ == cbor::bytes_encoding(data@),
{
    match write_bytes(data) {
        Ok(payload) => Ok(payload),
        Err(e) => Err(StreamIoError::CborEncode(e)),
    }
}

proof fn lemma_encodings_push(chunks: Seq<Seq<u8>>, last: Seq<u8>)
    ensures
        encodings(chunks.push(last)) == encodings(chunks) + cbor::bytes_encoding(last),
    decreases chunks.len(),
{
    if chunks.len() == 0 {
        assert(chunks.push(last).drop_first() =~= Seq::<Seq<u8>>::empty());
        assert(encodings(Seq::empty()) =~= Seq::<u8>::empty());
        assert(encodings(chunks.push(last)) =~= encodings(chunks) + cbor::bytes_encoding(last));
    } else {
        assert(chunks.push(last).drop_first() =~= chunks.drop_first().push(last));
        lemma_encodings_push(chunks.drop_first(), last);
        assert(encodings(chunks.push(last)) =~= encodings(chunks) + cbor::bytes_encoding(last));
    }
}

/// The RFC 8742 CBOR sequence of raw items: each item one byte string.
pub fn wrap_raw_items_as_cbor_sequence(items: &Vec<Vec<u8>>) -> (r: Result<Vec<u8>, StreamIoError>)
    ensures
        r is Ok,
        r->Ok_0@ == encodings(byte_views(items@)),
{
    let mut out: Vec<u8> = Vec::new();
    let mut i: usize = 0;
    assert(byte_views(items@).take(0) =~= Seq::<Seq<u8>>::empty());
    while i < items.len()
        invariant
            i <= items.len(),
            out@ == encodings(byte_views(items@).take(i as int)),
        decreases items.len() - i,
    {
        let mut payload = match encode_bytes(crate::run_arguments::clone_bytes(&items[i])) {
            Ok(p) => p,
            Err(e) => {
                return Err(e);
            },
        };
        proof {
            lemma_encodings_push(byte_views(items@).take(i as int), items@[i as int]@);
            assert(byte_views(items@).take(i + 1) =~= byte_views(items@).take(i as int).push(
                items@[i as int]@,
            ));
        }
        out.append(&mut payload);
        i = i + 1;
    }
    assert(byte_views(items@).take(items@.len() as int) =~= byte_views(items@));
    Ok(out)
}

// ---------------------------------------------------------------------------
// Decoding
// ---------------------------------------------------------------------------
/// Whether `e` says that no value stands at the front of `left`, in the
/// decoder's own words behind `context`.
pub open spec fn undecodable(e: StreamIoError, context: Seq<char>, left: Seq<u8>) -> bool {
    e@ == stream_io::StreamFault::CborDecode(context + cbor::decode_error(left))
}

/// What decoding terminal output in sequence mode comes to: the first item that
/// carries no data decides, then a value that does not decode.
pub open spec fn sequence_decoded(data: Seq<u8>, r: Result<Vec<Vec<u8>>, StreamIoError>) -> bool {
    let items = sequence_items(data);
    let foreign = first_foreign(items, 0);
    if foreign < items.len() {
        r matches Err(e) && unwrapped(items[foreign].content, foreign as nat) == Err::<
            Seq<u8>,
            stream_io::StreamFault,
        >(e@)
    } else if sequence_rest(data).len() > 0 {
        r matches Err(e) && undecodable(
            e,
            "sequence item "@ + text::decimal(items.len()) + ": "@,
            sequence_rest(data),
        )
    } else {
        r matches Ok(out) && byte_views(out@) == carried_all(items)
    }
}

/// What decoding terminal output in scalar mode comes to: one item, the data of
/// every value joined.
pub open spec fn scalar_decoded(data: Seq<u8>, r: Result<Vec<Vec<u8>>, StreamIoError>) -> bool {
    let items = sequence_items(data);
    let foreign = first_foreign(items, 0);
    if foreign < items.len() {
        r matches Err(e) && unwrapped(items[foreign].content, 0) == Err::<Seq<u8>, stream_io::StreamFault>(e@)
    } else if sequence_rest(data).len() > 0 {
        r matches Err(e) && undecodable(e, "terminal response: "@, sequence_rest(data))
    } else {
        r matches Ok(out) && byte_views(out@) == seq![joined(carried_all(items))]
    }
}

/// How far a reader has come through the byte strings of `chunks`: everything
/// that `taken` held was read, and `left` is still to be read.
spec fn halfway(data: Seq<u8>, left: Seq<u8>, taken: Seq<Seq<u8>>) -> bool {
    forall|chunks: Seq<Seq<u8>>|
        data == #[trigger] encodings(chunks) ==> {
            &&& taken.len() <= chunks.len()
            &&& taken == chunks.take(taken.len() as int)
            &&& left == encodings(chunks.skip(taken.len() as int))
        }
}

proof fn lemma_halfway_start(data: Seq<u8>)
    ensures
        halfway(data, data, Seq::empty()),
{
    assert forall|chunks: Seq<Seq<u8>>| data == #[trigger] encodings(chunks) implies ({
        &&& Seq::<Seq<u8>>::empty() == chunks.take(0)
        &&& data == encodings(chunks.skip(0))
    }) by {
        assert(chunks.take(0) =~= Seq::<Seq<u8>>::empty());
        assert(chunks.skip(0) =~= chunks);
    }
}

/// A reader that finds something left is not through with the chunks.
proof fn lemma_encodings_nonempty(chunks: Seq<Seq<u8>>)
    ensures
        chunks.len() > 0 ==> encodings(chunks).len() > 0,
{
    if chunks.len() > 0 {
        assert(cbor::bytes_encoding(chunks[0]).len() > 0);
    }
}

/// One value more was read off the front.
proof fn lemma_halfway_step(
    data: Seq<u8>,
    left: Seq<u8>,
    taken: Seq<Seq<u8>>,
    content: cbor::CborContent,
    len: nat,
)
    requires
        halfway(data, left, taken),
        left.len() > 0,
        forall|held: Seq<u8>, rest: Seq<u8>|
            left == #[trigger] (cbor::bytes_encoding(held) + rest) ==> content == cbor::CborContent::Bytes(held)
                && len == cbor::bytes_encoding(held).len(),
    ensures
        halfway(data, left.skip(len as int), taken.push(carried(content))),
{
    assert forall|chunks: Seq<Seq<u8>>| data == #[trigger] encodings(chunks) implies ({
        let more = taken.push(carried(content));
        &&& more.len() <= chunks.len()
        &&& more == chunks.take(more.len() as int)
        &&& left.skip(len as int) == encodings(chunks.skip(more.len() as int))
    }) by {
        let k = taken.len() as int;
        let ahead = chunks.skip(k);
        lemma_encodings_nonempty(ahead);
        assert(ahead.len() > 0) by {
            if ahead.len() == 0 {
                assert(encodings(ahead).len() == 0);
            }
        }
        let rest = encodings(ahead.drop_first());
        assert(left == cbor::bytes_encoding(ahead[0]) + rest);
        assert(carried(content) == chunks[k]);
        assert(chunks.take(k + 1) =~= chunks.take(k).push(chunks[k]));
        assert(ahead.drop_first() =~= chunks.skip(k + 1));
        assert(left.skip(len as int) =~= rest);
    }
}

proof fn lemma_joined_push(chunks: Seq<Seq<u8>>, last: Seq<u8>)
    ensures
        joined(chunks.push(last)) == joined(chunks) + last,
{
    assert(chunks.push(last).drop_last() =~= chunks);
}

/// What decoding a terminal output gives.
pub open spec fn decoded(
    data: Seq<u8>,
    is_sequence: Option<bool>,
    r: Result<Vec<Vec<u8>>, StreamIoError>,
) -> bool {
    if data.len() == 0 {
        r is Ok && byte_views(r->Ok_0@) == seq![Seq::<u8>::empty()]
    } else if is_sequence == Some(true) {
        sequence_decoded(data, r)
    } else {
        scalar_decoded(data, r)
    }
}

/// Decode terminal output bytes based on is_sequence flag.
///
/// Returns a list of unwrapped items:
/// - `is_sequence=true` (emit_list_item): each CBOR value in the
///   sequence is unwrapped (Bytes→raw, Text→UTF-8) into a separate item.
/// - `is_sequence=false/None` (write/emit_cbor): CBOR Bytes/Text
///   wrappers are unwrapped and concatenated into a single item.
///
/// Byte strings written one behind the other are read back: in sequence mode
/// item for item, in scalar mode joined.
pub fn decode_terminal_output(response_chunks: &[u8], is_sequence: Option<bool>) -> (r: Result<
    Vec<Vec<u8>>,
    StreamIoError,
>)
    ensures
        decoded(response_chunks@, is_sequence, r),
        forall|chunks: Seq<Seq<u8>>|
            response_chunks@.len() > 0 && response_chunks@ == #[trigger] encodings(chunks)
                ==> r is Ok && byte_views(r->Ok_0@) == (if is_sequence == Some(true) {
                chunks
            } else {
                seq![joined(chunks)]
            }),
{
    if response_chunks.len() == 0 {
        let mut out: Vec<Vec<u8>> = Vec::new();
        out.push(Vec::new());
        assert(byte_views(out@) =~= seq![Seq::<u8>::empty()]);
        return Ok(out);
    }
    let sequence: bool = match is_sequence {
        Some(b) => b,
        None => false,
    };
    let ghost data = response_chunks@;
    let ghost items = sequence_items(data);
    let mut out: Vec<Vec<u8>> = Vec::new();
    let mut flat: Vec<u8> = Vec::new();
    let mut count: usize = 0;
    let mut pos: usize = 0;
    let ghost mut taken: Seq<Seq<u8>> = Seq::empty();
    proof {
        lemma_halfway_start(data);
        assert(data.skip(0) =~= data);
        assert(items.skip(0) =~= items);
        assert(byte_views(out@) =~= taken);
    }
    while pos < response_chunks.len()
        invariant
            pos <= response_chunks.len(),
            data == response_chunks@,
            items == sequence_items(data),
            sequence == (is_sequence == Some(true)),
            taken.len() <= items.len(),
            count == taken.len(),
            count <= pos,
            sequence_items(data.skip(pos as int)) == items.skip(taken.len() as int),
            sequence_rest(data.skip(pos as int)) == sequence_rest(data),
            first_foreign(items, 0) == first_foreign(items, taken.len() as int),
            taken == carried_all(items).take(taken.len() as int),
            sequence ==> byte_views(out@) == taken,
            !sequence ==> flat@ == joined(taken),
            halfway(data, data.skip(pos as int), taken),
        decreases response_chunks.len() - pos,
    {
        let left = slice_subrange(response_chunks, pos, response_chunks.len());
        assert(left@ =~= data.skip(pos as int));
        match read_value(left) {
            Err(e) => {
                proof {
                    assert(sequence_items(left@) =~= Seq::empty());
                    assert(items.skip(taken.len() as int).len() == 0);
                    assert(taken.len() == items.len());
                    // Byte strings always decode.
                    assert forall|chunks: Seq<Seq<u8>>| data == #[trigger] encodings(
                        chunks,
                    ) implies false by {
                        let ahead = chunks.skip(taken.len() as int);
                        lemma_encodings_nonempty(ahead);
                        assert(ahead.len() > 0) by {
                            if ahead.len() == 0 {
                                assert(encodings(ahead).len() == 0);
                            }
                        }
                        assert(left@ == cbor::bytes_encoding(ahead[0]) + encodings(ahead.drop_first()));
                    }
                }
                if sequence {
                    let context = "sequence item ".to_owned().concat(
                        decimal_usize(count).as_str(),
                    ).concat(": ");
                    let message = context.concat(e.as_str());
                    assert(message@ == ("sequence item "@ + text::decimal(items.len()) + ": "@) + e@);
                    return Err(StreamIoError::CborDecode(message));
                } else {
                    let message = "terminal response: ".to_owned().concat(e.as_str());
                    assert(message@ == "terminal response: "@ + e@);
                    return Err(StreamIoError::CborDecode(message));
                }
            },
            Ok((value, len)) => {
                let ghost item = cbor::CborItem { content: value@, len: len as nat };
                proof {
                    assert(starts_with_item(left@));
                    assert(items.skip(taken.len() as int)[0] == item);
                    assert(items[taken.len() as int] == item);
                    lemma_halfway_step(data, left@, taken, value@, len as nat);
                    assert(left@.skip(len as int) =~= data.skip(pos + len));
                    assert(items.skip(taken.len() as int + 1) =~= items.skip(
                        taken.len() as int,
                    ).skip(1));
                    assert((seq![item] + sequence_items(left@.skip(len as int))).skip(1)
                        =~= sequence_items(left@.skip(len as int)));
                    assert(carried_all(items).take(taken.len() as int + 1) =~= carried_all(
                        items,
                    ).take(taken.len() as int).push(carried(value@)));
                    lemma_joined_push(taken, carried(value@));
                    if value@ is Other {
                        assert forall|chunks: Seq<Seq<u8>>| data == #[trigger] encodings(
                            chunks,
                        ) implies false by {
                            let ahead = chunks.skip(taken.len() as int);
                            lemma_encodings_nonempty(ahead);
                            assert(ahead.len() > 0) by {
                                if ahead.len() == 0 {
                                    assert(encodings(ahead).len() == 0);
                                }
                            }
                            assert(left@ == cbor::bytes_encoding(ahead[0]) + encodings(
                                ahead.drop_first(),
                            ));
                        }
                    }
                }
                let index: usize = if sequence {
                    count
                } else {
                    0
                };
                match unwrap_cbor_value(value, index) {
                    Err(e) => {
                        return Err(e);
                    },
                    Ok(raw) => {
                        let ghost before = byte_views(out@);
                        let ghost raw_view = raw@;
                        if sequence {
                            out.push(raw);
                            assert(byte_views(out@) =~= before.push(raw_view));
                        } else {
                            let mut raw = raw;
                            flat.append(&mut raw);
                        }
                        proof {
                            taken = taken.push(raw_view);
                        }
                    },
                }
                count = count + 1;
                pos = pos + len;
            },
        }
    }
    proof {
        assert(data.skip(pos as int) =~= Seq::<u8>::empty());
        assert(!starts_with_item(Seq::<u8>::empty()));
        assert(items.skip(taken.len() as int).len() == 0);
        assert(carried_all(items).take(items.len() as int) =~= carried_all(items));
        assert forall|chunks: Seq<Seq<u8>>| data == #[trigger] encodings(chunks) implies taken
            == chunks by {
            let ahead = chunks.skip(taken.len() as int);
            lemma_encodings_nonempty(ahead);
            assert(ahead.len() == 0);
            assert(chunks.take(taken.len() as int) =~= chunks);
        }
    }
    if sequence {
        Ok(out)
    } else {
        let mut single: Vec<Vec<u8>> = Vec::new();
        single.push(flat);
        assert(byte_views(single@) =~= seq![flat@]);
        Ok(single)
    }
}

// ---------------------------------------------------------------------------
// Laws
// ---------------------------------------------------------------------------
/// A byte string carries its bytes and a text its UTF-8 encoding.
pub proof fn strings_carry_their_bytes(b: Seq<u8>, t: Seq<char>)
    ensures
        carried(cbor::CborContent::Bytes(b)) == b,
        carried(cbor::CborContent::Text(t)) == vstd::utf8::encode_utf8(t),
{
}

/// The bytes that values span, the first `n` of them.
pub open spec fn spanned(lens: Seq<nat>, n: int) -> nat
    decreases n,
{
    if n <= 0 {
        0
    } else {
        spanned(lens, n - 1) + lens[n - 1]
    }
}

/// Whether values stand one behind the other in `data`, from its start to its
/// end: at the place where value `i` starts, the decoder reads it.
#[verifier::opaque]
pub open spec fn is_run(data: Seq<u8>, contents: Seq<cbor::CborContent>, lens: Seq<nat>) -> bool {
    &&& contents.len() == lens.len()
    &&& spanned(lens, lens.len() as int) == data.len()
    &&& forall|i: int|
        0 <= i < contents.len() ==> #[trigger] lens[i] > 0 && cbor::cbor_read(
            data.skip(spanned(lens, i) as int),
        ) == Ok::<cbor::CborItem, Seq<char>>(
            cbor::CborItem { content: contents[i], len: lens[i] },
        )
}

/// What a run says of its value `i`.
pub proof fn lemma_value_of_run(
    data: Seq<u8>,
    contents: Seq<cbor::CborContent>,
    lens: Seq<nat>,
    i: int,
)
    requires
        is_run(data, contents, lens),
    ensures
        contents.len() == lens.len(),
        spanned(lens, lens.len() as int) == data.len(),
        0 <= i < contents.len() ==> lens[i] > 0 && cbor::cbor_read(
            data.skip(spanned(lens, i) as int),
        ) == Ok::<cbor::CborItem, Seq<char>>(
            cbor::CborItem { content: contents[i], len: lens[i] },
        ),
{
    reveal(is_run);
}

proof fn lemma_spanned_bound(lens: Seq<nat>, i: int, n: int)
    requires
        0 <= i <= n <= lens.len(),
    ensures
        spanned(lens, i) <= spanned(lens, n),
    decreases n - i,
{
    if i < n {
        lemma_spanned_bound(lens, i, n - 1);
    }
}

/// Reading a run from value `i` on finds exactly its values, and nothing else.
proof fn lemma_run(data: Seq<u8>, contents: Seq<cbor::CborContent>, lens: Seq<nat>, i: int)
    requires
        is_run(data, contents, lens),
        0 <= i <= contents.len(),
    ensures
        ({
            let items = sequence_items(data.skip(spanned(lens, i) as int));
            &&& items.len() == contents.len() - i
            &&& forall|j: int|
                0 <= j < items.len() ==> (#[trigger] items[j]).content == contents[i + j]
                    && items[j].len == lens[i + j]
            &&& sequence_rest(data.skip(spanned(lens, i) as int)).len() == 0
        }),
    decreases contents.len() - i,
{
    let at = spanned(lens, i) as int;
    let left = data.skip(at);
    lemma_value_of_run(data, contents, lens, i);
    lemma_spanned_bound(lens, i, lens.len() as int);
    if i < contents.len() {
        lemma_spanned_bound(lens, i + 1, lens.len() as int);
        lemma_run(data, contents, lens, i + 1);
        let next = data.skip(spanned(lens, i + 1) as int);
        assert(left.skip(lens[i] as int) =~= next);
        assert(starts_with_item(left));
        let items = sequence_items(left);
        let tail = sequence_items(next);
        assert(items =~= seq![cbor::CborItem { content: contents[i], len: lens[i] }] + tail);
        assert forall|j: int| 0 <= j < items.len() implies (#[trigger] items[j]).content
            == contents[i + j] && items[j].len == lens[i + j] by {
            if j > 0 {
                assert(items[j] == tail[j - 1]);
            }
        }
    } else {
        assert(left.len() == 0);
        assert(left =~= Seq::<u8>::empty());
        assert(!starts_with_item(left));
    }
}

proof fn lemma_all_carry(items: Seq<cbor::CborItem>, from: int)
    requires
        0 <= from <= items.len(),
        forall|i: int| from <= i < items.len() ==> !((#[trigger] items[i]).content is Other),
    ensures
        first_foreign(items, from) == items.len(),
    decreases items.len() - from,
{
    if from < items.len() {
        lemma_all_carry(items, from + 1);
    }
}

/// The bytes that a string value stands for: a byte string's own, a text's UTF-8.
pub open spec fn string_bytes(contents: Seq<cbor::CborContent>) -> Seq<Seq<u8>> {
    Seq::new(
        contents.len(),
        |i: int|
            match contents[i] {
                cbor::CborContent::Bytes(b) => b,
                cbor::CborContent::Text(t) => vstd::utf8::encode_utf8(t),
                cbor::CborContent::Other(_) => Seq::empty(),
            },
    )
}

/// Joined data stands end to end, in order, with nothing between.
pub proof fn joined_data_stands_end_to_end(chunks: Seq<Seq<u8>>)
    ensures
        joined(chunks) == chunks.flatten(),
    decreases chunks.len(),
{
    chunks.lemma_flatten_and_flatten_alt_are_equivalent();
    if chunks.len() > 0 {
        joined_data_stands_end_to_end(chunks.drop_last());
        chunks.drop_last().lemma_flatten_and_flatten_alt_are_equivalent();
    }
}

/// A response that is a run of text and byte strings decodes: in sequence mode
/// item for item, each to its raw or UTF-8 bytes; in scalar mode to one item,
/// all of these joined.
pub proof fn a_run_of_strings_is_decoded(
    data: Seq<u8>,
    contents: Seq<cbor::CborContent>,
    lens: Seq<nat>,
    is_sequence: Option<bool>,
    r: Result<Vec<Vec<u8>>, StreamIoError>,
)
    requires
        decoded(data, is_sequence, r),
        is_run(data, contents, lens),
        contents.len() > 0,
        forall|i: int| 0 <= i < contents.len() ==> !(#[trigger] contents[i] is Other),
    ensures
        r is Ok,
        is_sequence == Some(true) ==> {
            &&& r->Ok_0@.len() == contents.len()
            &&& forall|i: int|
                0 <= i < contents.len() ==> (#[trigger] r->Ok_0@[i])@ == string_bytes(contents)[i]
        },
        is_sequence != Some(true) ==> r->Ok_0@.len() == 1 && r->Ok_0@[0]@ == string_bytes(
            contents,
        ).flatten(),
{
    lemma_run(data, contents, lens, 0);
    assert(data.skip(0) =~= data);
    let items = sequence_items(data);
    assert forall|i: int| 0 <= i < items.len() implies !((#[trigger] items[i]).content is Other) by {
        assert(items[i].content == contents[i]);
    }
    lemma_all_carry(items, 0);
    assert(carried_all(items) =~= string_bytes(contents)) by {
        assert forall|i: int| 0 <= i < items.len() implies carried_all(items)[i] == string_bytes(
            contents,
        )[i] by {
            assert(items[i].content == contents[i]);
        }
    }
    lemma_value_of_run(data, contents, lens, 0);
    lemma_spanned_bound(lens, 1, lens.len() as int);
    assert(spanned(lens, 1) == spanned(lens, 0) + lens[0]);
    joined_data_stands_end_to_end(string_bytes(contents));
    let out = byte_views(r->Ok_0@);
    assert(out.len() == r->Ok_0@.len());
    if is_sequence == Some(true) {
        assert forall|i: int| 0 <= i < contents.len() implies (#[trigger] r->Ok_0@[i])@
            == string_bytes(contents)[i] by {
            assert(out[i] == r->Ok_0@[i]@);
        }
    } else {
        assert(out[0] == r->Ok_0@[0]@);
    }
}

proof fn lemma_first_foreign_is(items: Seq<cbor::CborItem>, from: int, k: int)
    requires
        0 <= from <= k < items.len(),
        items[k].content is Other,
        forall|i: int| from <= i < k ==> !((#[trigger] items[i]).content is Other),
    ensures
        first_foreign(items, from) == k,
    decreases k - from,
{
    if from < k {
        assert(!(items[from].content is Other));
        lemma_first_foreign_is(items, from + 1, k);
    }
}

/// A response with a value that is neither text nor bytes is refused, and the
/// first such value is named: by its place in sequence mode.
pub proof fn a_foreign_value_is_refused(
    data: Seq<u8>,
    contents: Seq<cbor::CborContent>,
    lens: Seq<nat>,
    is_sequence: Option<bool>,
    r: Result<Vec<Vec<u8>>, StreamIoError>,
    k: int,
)
    requires
        decoded(data, is_sequence, r),
        is_run(data, contents, lens),
        0 <= k < contents.len(),
        contents[k] is Other,
        forall|i: int| 0 <= i < k ==> !(#[trigger] contents[i] is Other),
    ensures
        r is Err,
        r->Err_0@ == stream_io::StreamFault::UnexpectedCborType(
            if is_sequence == Some(true) {
                k as nat
            } else {
                0
            },
            contents[k]->Other_0,
        ),
{
    lemma_run(data, contents, lens, 0);
    assert(data.skip(0) =~= data);
    let items = sequence_items(data);
    assert(items[k].content == contents[k]);
    assert forall|i: int| 0 <= i < k implies !((#[trigger] items[i]).content is Other) by {
        assert(items[i].content == contents[i]);
    }
    lemma_first_foreign_is(items, 0, k);
    lemma_value_of_run(data, contents, lens, 0);
    lemma_spanned_bound(lens, 1, lens.len() as int);
    assert(spanned(lens, 1) == spanned(lens, 0) + lens[0]);
}

/// Items wrapped for the wire are their byte strings end to end, one for each.
pub proof fn every_item_is_one_byte_string(chunks: Seq<Seq<u8>>)
    ensures
        encodings(chunks) == Seq::new(
            chunks.len(),
            |i: int| cbor::bytes_encoding(chunks[i]),
        ).flatten(),
    decreases chunks.len(),
{
    let each = Seq::new(chunks.len(), |i: int| cbor::bytes_encoding(chunks[i]));
    if chunks.len() > 0 {
        let tail = chunks.drop_first();
        every_item_is_one_byte_string(tail);
        assert(each.drop_first() =~= Seq::new(tail.len(), |i: int| cbor::bytes_encoding(tail[i])));
    } else {
        assert(each.flatten() =~= Seq::<u8>::empty());
    }
}

/// The payloads of a run of values are the values' own bytes, each from where
/// the value starts to where the next one does.
pub proof fn a_payload_is_one_value(
    data: Seq<u8>,
    contents: Seq<cbor::CborContent>,
    lens: Seq<nat>,
    i: int,
)
    requires
        is_run(data, contents, lens),
        0 <= i < contents.len(),
    ensures
        sequence_payloads(data).len() == contents.len(),
        sequence_payloads(data)[i] == data.subrange(
            spanned(lens, i) as int,
            spanned(lens, i + 1) as int,
        ),
{
    lemma_value_of_run(data, contents, lens, i);
    lemma_run_payloads(data, contents, lens, 0, i);
    assert(data.skip(0) =~= data);
}

proof fn lemma_run_payloads(
    data: Seq<u8>,
    contents: Seq<cbor::CborContent>,
    lens: Seq<nat>,
    from: int,
    i: int,
)
    requires
        is_run(data, contents, lens),
        0 <= from <= i < contents.len(),
    ensures
        ({
            let left = sequence_payloads(data.skip(spanned(lens, from) as int));
            &&& left.len() == contents.len() - from
            &&& left[i - from] == data.subrange(
                spanned(lens, i) as int,
                spanned(lens, i + 1) as int,
            )
        }),
    decreases contents.len() - from,
{
    let at = spanned(lens, from) as int;
    let left = data.skip(at);
    lemma_value_of_run(data, contents, lens, from);
    lemma_spanned_bound(lens, from + 1, lens.len() as int);
    let next = data.skip(spanned(lens, from + 1) as int);
    assert(left.skip(lens[from] as int) =~= next);
    assert(left.take(lens[from] as int) =~= data.subrange(at, spanned(lens, from + 1) as int));
    assert(starts_with_item(left));
    let whole = sequence_payloads(left);
    let tail = sequence_payloads(next);
    assert(whole == seq![left.take(lens[from] as int)] + tail);
    if from + 1 < contents.len() {
        let j = if i > from {
            i
        } else {
            from + 1
        };
        lemma_run_payloads(data, contents, lens, from + 1, j);
        if i > from {
            assert(whole[i - from] == tail[i - from - 1]);
        } else {
            assert(whole[0] == left.take(lens[from] as int));
        }
    } else {
        assert(next =~= Seq::<u8>::empty());
        assert(!starts_with_item(next));
        assert(tail.len() == 0);
        assert(whole[0] == left.take(lens[from] as int));
    }
}

/// The values of a run are what it was put together from.
pub proof fn lemma_items_of_run(data: Seq<u8>, contents: Seq<cbor::CborContent>, lens: Seq<nat>)
    requires
        is_run(data, contents, lens),
    ensures
        sequence_items(data).len() == contents.len(),
        forall|j: int|
            0 <= j < contents.len() ==> (#[trigger] sequence_items(data)[j]).content == contents[j]
                && sequence_items(data)[j].len == lens[j],
        sequence_rest(data).len() == 0,
{
    lemma_run(data, contents, lens, 0);
    assert(data.skip(0) =~= data);
}

} // verus!
