//! Feeding spooled node data downstream, window by window.

use crate::cbor;
use crate::outgoing;
use crate::outgoing::{split_sequence, ScannedItem, SequenceScanner, StreamPayloads};
use crate::stream_io;
use crate::stream_io::StreamIoError;
use crate::text;
use crate::text::{decimal_u64, decimal_usize};
use crate::transport;
use crate::transport::{cbor_bytes_header, encode_bytes};
use vstd::prelude::*;
use vstd::string::*;

verus! {

/// The bytes of the items that a scanner found.
fn item_payloads(items: Vec<ScannedItem>) -> (r: Vec<Vec<u8>>)
    ensures
        transport::byte_views(r@) == outgoing::scanned_bytes(items@),
{
    let mut r: Vec<Vec<u8>> = Vec::new();
    let mut i: usize = 0;
    while i < items.len()
        invariant
            i <= items.len(),
            transport::byte_views(r@) == outgoing::scanned_bytes(items@).take(i as int),
        decreases items.len() - i,
    {
        let ghost before = transport::byte_views(r@);
        r.push(crate::run_arguments::clone_bytes(&items[i].bytes));
        assert(transport::byte_views(r@) =~= before.push(items@[i as int].bytes@));
        assert(outgoing::scanned_bytes(items@).take(i + 1) =~= outgoing::scanned_bytes(items@).take(i as int).push(
            items@[i as int].bytes@,
        ));
        i = i + 1;
    }
    assert(outgoing::scanned_bytes(items@).take(items@.len() as int) =~= outgoing::scanned_bytes(items@));
    r
}

/// The failure of a spool that ends in the middle of a value.
pub open spec fn truncated_fault(left: nat, which: Seq<char>, path: Seq<char>) -> stream_io::StreamFault {
    stream_io::StreamFault::Protocol(
        text::decimal(left) + " bytes of an incomplete CBOR item at the end of "@ + which + " '"@ + path
            + "' — truncated intermediate"@,
    )
}

fn truncated(left: usize, which: &str, path: &str) -> (e: StreamIoError)
    ensures
        e@ == truncated_fault(left as nat, which@, path@),
{
    StreamIoError::Protocol(
        decimal_usize(left).concat(" bytes of an incomplete CBOR item at the end of ").concat(
            which,
        ).concat(" '").concat(path).concat("' — truncated intermediate"),
    )
}

/// Feeds one spool file as a stream of its own. A sequence spool goes out item
/// by item; a blob spool goes out as one byte string per window, and an empty
/// one as a single empty byte string.
pub struct FileFeed {
    is_sequence: bool,
    scanner: SequenceScanner,
    sent_any: bool,
}

impl FileFeed {
    /// Whether the spool holds a sequence.
    pub closed spec fn sequence(&self) -> bool {
        self.is_sequence
    }

    /// What was read from the spool so far, where it holds a sequence.
    pub closed spec fn read_so_far(&self) -> Seq<u8> {
        self.scanner.fed()
    }

    /// Whether a blob window went out already.
    pub closed spec fn started(&self) -> bool {
        self.sent_any
    }

    /// A feed at the start of its file.
    pub fn new(is_sequence: bool) -> (f: Self)
        ensures
            f.sequence() == is_sequence,
            f.read_so_far() == Seq::<u8>::empty(),
            !f.started(),
    {
        FileFeed { is_sequence, scanner: SequenceScanner::new(), sent_any: false }
    }

    /// A window was read: the payloads that it gives rise to. The payloads of a
    /// sequence depend on the file alone, not on how it was cut into windows.
    pub fn on_window(&mut self, window: Vec<u8>) -> (r: Result<Vec<Vec<u8>>, StreamIoError>)
        ensures
            r is Ok,
            final(self).sequence() == old(self).sequence(),
            old(self).sequence() ==> {
                &&& final(self).read_so_far() == old(self).read_so_far() + window@
                &&& final(self).started() == old(self).started()
                &&& transport::sequence_payloads(final(self).read_so_far()) == transport::sequence_payloads(
                    old(self).read_so_far(),
                ) + transport::byte_views(r->Ok_0@)
            },
            !old(self).sequence() ==> {
                &&& final(self).read_so_far() == old(self).read_so_far()
                &&& final(self).started()
                &&& transport::byte_views(r->Ok_0@) == seq![cbor::bytes_encoding(window@)]
            },
    {
        if self.is_sequence {
            let items = self.scanner.feed(window.as_slice());
            Ok(item_payloads(items))
        } else {
            self.sent_any = true;
            match encode_bytes(window) {
                Ok(payload) => {
                    let mut r: Vec<Vec<u8>> = Vec::new();
                    r.push(payload);
                    assert(transport::byte_views(r@) =~= seq![payload@]);
                    Ok(r)
                },
                Err(e) => Err(e),
            }
        }
    }

    /// The file is at its end: a last payload where an empty blob needs one, or
    /// the failure of a truncated sequence.
    pub fn on_eof(&self, path: &str) -> (r: Result<Vec<Vec<u8>>, StreamIoError>)
        ensures
            self.sequence() ==> match r {
                Ok(last) => transport::sequence_rest(self.read_so_far()).len() == 0 && last@.len() == 0,
                Err(e) => {
                    &&& transport::sequence_rest(self.read_so_far()).len() > 0
                    &&& e@ == truncated_fault(
                        transport::sequence_rest(self.read_so_far()).len(),
                        "spool"@,
                        path@,
                    )
                },
            },
            !self.sequence() ==> r is Ok && transport::byte_views(r->Ok_0@) == if self.started() {
                Seq::<Seq<u8>>::empty()
            } else {
                seq![cbor::bytes_encoding(Seq::empty())]
            },
    {
        let none: Vec<Vec<u8>> = Vec::new();
        assert(transport::byte_views(none@) =~= Seq::<Seq<u8>>::empty());
        if self.is_sequence {
            let left: usize = self.scanner.remainder();
            if left > 0 {
                return Err(truncated(left, "spool", path));
            }
            Ok(none)
        } else if self.sent_any {
            Ok(none)
        } else {
            let empty: Vec<u8> = Vec::new();
            match encode_bytes(empty) {
                Ok(payload) => {
                    let mut r: Vec<Vec<u8>> = Vec::new();
                    r.push(payload);
                    assert(transport::byte_views(r@) =~= seq![payload@]);
                    assert(empty@ =~= Seq::<u8>::empty());
                    Ok(r)
                },
                Err(e) => Err(e),
            }
        }
    }
}

// ---------------------------------------------------------------------------
// Gathered streams
// ---------------------------------------------------------------------------
/// One member of a GATHER (N producers concatenating into one sequence
/// arg), in the order the resolver declared its sources.
pub enum GatherMember {
    /// In-memory member: `node_data` form — raw bytes for a scalar (wrapped
    /// as one CBOR Bytes item), an RFC 8742 CBOR sequence for a sequence
    /// (items forwarded as-is).
    Memory { data: Vec<u8>, is_sequence: bool },
    /// A spooled member (an UNBOUNDED intermediate whose feed ended): its
    /// items stream from the file in bounded windows — the member's whole
    /// point is never being memory-resident. A sequence spool contributes
    /// its items; a blob spool contributes ONE item whose CBOR byte-string
    /// streams across chunk payloads (receivers reassemble split items by
    /// contract).
    Spooled { path: String, is_sequence: bool },
}

/// How a member's items go out.
pub enum MemberFeed {
    /// All at once.
    Ready(StreamPayloads),
    /// From a sequence spool, item by item.
    Items(GatheredItems),
    /// From a blob spool, as the pieces of one item.
    Blob(String),
}

/// A sequence spool that feeds a gather.
pub struct GatheredItems {
    pub path: String,
    pub scanner: SequenceScanner,
}

/// What a gather member in memory contributes: a scalar one item, a sequence
/// its items and a failure behind them where it does not decode.
pub open spec fn member_payloads(data: Seq<u8>, is_sequence: bool, r: StreamPayloads) -> bool {
    if is_sequence {
        &&& outgoing::split_into(data, r)
        &&& r.failure matches Some(e) ==> transport::undecodable(
            e,
            "gather sequence member item: "@,
            transport::sequence_rest(data),
        )
    } else {
        r.failure is None && transport::byte_views(r.payloads@) == seq![cbor::bytes_encoding(data)]
    }
}

/// Begin a member of a gather.
pub fn begin_member(member: GatherMember) -> (r: MemberFeed)
    ensures
        match member {
            GatherMember::Memory { data, is_sequence } => r matches MemberFeed::Ready(p)
                && member_payloads(data@, is_sequence, p),
            GatherMember::Spooled { path, is_sequence } => if is_sequence {
                r matches MemberFeed::Items(g) && g.path == path && g.scanner.fed() == Seq::<
                    u8,
                >::empty()
            } else {
                r == MemberFeed::Blob(path)
            },
        },
{
    match member {
        GatherMember::Memory { data, is_sequence } => {
            if is_sequence {
                let (payloads, why) = split_sequence(data.as_slice());
                let failure = match why {
                    None => None,
                    Some(e) => {
                        let message = "gather sequence member item: ".to_owned().concat(e.as_str());
                        assert(message@ == "gather sequence member item: "@ + e@);
                        Some(StreamIoError::CborDecode(message))
                    },
                };
                MemberFeed::Ready(StreamPayloads { payloads, failure })
            } else {
                let mut payloads: Vec<Vec<u8>> = Vec::new();
                match encode_bytes(data) {
                    Ok(payload) => {
                        payloads.push(payload);
                        assert(transport::byte_views(payloads@) =~= seq![payload@]);
                        MemberFeed::Ready(StreamPayloads { payloads, failure: None })
                    },
                    Err(e) => MemberFeed::Ready(StreamPayloads { payloads, failure: Some(e) }),
                }
            }
        },
        GatherMember::Spooled { path, is_sequence } => {
            if is_sequence {
                MemberFeed::Items(GatheredItems { path, scanner: SequenceScanner::new() })
            } else {
                MemberFeed::Blob(path)
            }
        },
    }
}

impl GatheredItems {
    /// A window was read: the items that it completes.
    pub fn on_window(&mut self, window: &[u8]) -> (r: Vec<Vec<u8>>)
        ensures
            final(self).path == old(self).path,
            final(self).scanner.fed() == old(self).scanner.fed() + window@,
            transport::sequence_payloads(final(self).scanner.fed()) == transport::sequence_payloads(
                old(self).scanner.fed(),
            ) + transport::byte_views(r@),
    {
        let items = self.scanner.feed(window);
        item_payloads(items)
    }

    /// The file is at its end, which must not lie inside a value.
    pub fn on_eof(&self) -> (r: Result<(), StreamIoError>)
        ensures
            match r {
                Ok(()) => transport::sequence_rest(self.scanner.fed()).len() == 0,
                Err(e) => {
                    &&& transport::sequence_rest(self.scanner.fed()).len() > 0
                    &&& e@ == truncated_fault(
                        transport::sequence_rest(self.scanner.fed()).len(),
                        "gather spool"@,
                        self.path@,
                    )
                },
            },
    {
        let left: usize = self.scanner.remainder();
        if left > 0 {
            return Err(truncated(left, "gather spool", self.path.as_str()));
        }
        Ok(())
    }
}

/// A blob spool that goes out as ONE item: its byte-string header, then the raw
/// file bytes, split across payloads.
pub struct BlobFeed {
    pub promised: u64,
    pub sent: u64,
}

impl BlobFeed {
    /// Begin the item of a file of `len` bytes; its first payload is the
    /// header.
    pub fn begin(len: u64) -> (r: (Self, Vec<u8>))
        ensures
            r.0.promised == len,
            r.0.sent == 0,
            r.1@ == cbor::bytes_header(len as nat),
    {
        (BlobFeed { promised: len, sent: 0 }, cbor_bytes_header(len))
    }

    /// A window was read: it goes out as it is.
    pub fn on_window(&mut self, window: &Vec<u8>) -> (payload: Vec<u8>)
        requires
            old(self).sent + window@.len() <= u64::MAX,
        ensures
            final(self).promised == old(self).promised,
            final(self).sent == old(self).sent + window@.len(),
            payload@ == window@,
    {
        self.sent = self.sent + window.len() as u64;
        crate::run_arguments::clone_bytes(window)
    }

    /// The file is at its end: what went out must be what the header promised.
    pub fn on_eof(&self, path: &str) -> (r: Result<(), StreamIoError>)
        ensures
            match r {
                Ok(()) => self.sent == self.promised,
                Err(e) => {
                    &&& self.sent != self.promised
                    &&& e@ == stream_io::StreamFault::Protocol(
                        "gather spool '"@ + path@ + "' changed size mid-send ("@ + text::decimal(
                            self.sent as nat,
                        ) + " bytes sent, header promised "@ + text::decimal(self.promised as nat)
                            + ") — the item on the wire is corrupt"@,
                    )
                },
            },
    {
        if self.sent != self.promised {
            return Err(
                StreamIoError::Protocol(
                    "gather spool '".to_owned().concat(path).concat(
                        "' changed size mid-send (",
                    ).concat(decimal_u64(self.sent).as_str()).concat(
                        " bytes sent, header promised ",
                    ).concat(decimal_u64(self.promised).as_str()).concat(
                        ") — the item on the wire is corrupt",
                    ),
                ),
            );
        }
        Ok(())
    }
}

/// The payloads of a blob item — the header, then the windows of a file as long
/// as the header promised — put together are the byte string of the file.
pub proof fn blob_windows_are_one_item(windows: Seq<Seq<u8>>, promised: nat)
    requires
        transport::joined(windows).len() == promised,
    ensures
        transport::joined(seq![cbor::bytes_header(promised)] + windows) == cbor::bytes_encoding(transport::joined(windows)),
{
    outgoing::lemma_joined_cons(cbor::bytes_header(promised), windows);
}

} // verus!
