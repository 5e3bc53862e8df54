//! CBOR transport values: what the wire carries and how it is taken apart.
//!
//! A sequence of items travels as an RFC 8742 CBOR sequence: self-delimiting
//! values, one behind the other. Scalar data travels as CBOR byte strings.

use vstd::prelude::*;
use vstd::string::*;

verus! {

/// A decoded transport value. Only byte strings and text carry data; anything
/// else is kept as its description.
#[derive(Debug)]
pub enum CborValue {
    Bytes(Vec<u8>),
    Text(String),
    Other(String),
}

/// The contents of a `CborValue`.
pub ghost enum CborContent {
    Bytes(Seq<u8>),
    Text(Seq<char>),
    Other(Seq<char>),
}

impl View for CborValue {
    type V = CborContent;

    open spec fn view(&self) -> CborContent {
        match *self {
            CborValue::Bytes(b) => CborContent::Bytes(b@),
            CborValue::Text(t) => CborContent::Text(t@),
            CborValue::Other(d) => CborContent::Other(d@),
        }
    }
}

/// A value at the front of a byte sequence, and how many bytes it spans.
pub ghost struct CborItem {
    pub content: CborContent,
    pub len: nat,
}

/// What decoding the front of `data` gives: the value that stands there, or the
/// decoder's words about why none does.
pub uninterp spec fn cbor_read(data: Seq<u8>) -> Result<CborItem, Seq<char>>;

/// The CBOR value at the front of `data`, if a complete one stands there.
pub open spec fn cbor_item(data: Seq<u8>) -> Option<CborItem> {
    match cbor_read(data) {
        Ok(item) => Some(item),
        Err(_) => None,
    }
}

/// The decoder's words about `data`, at whose front no complete value stands.
pub open spec fn decode_error(data: Seq<u8>) -> Seq<char> {
    cbor_read(data)->Err_0
}

/// Big-endian bytes of `n`, `width` of them.
pub open spec fn big_endian(n: nat, width: nat) -> Seq<u8>
    decreases width,
{
    if width == 0 {
        Seq::empty()
    } else {
        big_endian(n / 256, (width - 1) as nat).push((n % 256) as u8)
    }
}

/// The header of a CBOR byte string of `len` bytes: major type 2 with the
/// shortest length encoding.
pub open spec fn bytes_header(len: nat) -> Seq<u8> {
    if len <= 23 {
        seq![(0x40 + len) as u8]
    } else if len <= 0xFF {
        seq![0x58u8] + big_endian(len, 1)
    } else if len <= 0xFFFF {
        seq![0x59u8] + big_endian(len, 2)
    } else if len <= 0xFFFF_FFFF {
        seq![0x5Au8] + big_endian(len, 4)
    } else {
        seq![0x5Bu8] + big_endian(len, 8)
    }
}

/// The CBOR byte string that holds `data`.
pub open spec fn bytes_encoding(data: Seq<u8>) -> Seq<u8> {
    bytes_header(data.len()) + data
}

/// `ciborium::de::from_reader` for a `ciborium::Value`, over a cursor on
/// `data` whose position afterwards is the number of bytes that the value
/// spans.
///
/// Claimed of it: what it gives is `cbor_read` of the bytes alone, a value that
/// is neither bytes nor text standing as its debug rendering and an error as it
/// displays. A value's span is not empty and lies within `data`; nothing past
/// the span is read, so the same bytes followed by others yield the same; and a
/// byte string as `ciborium::into_writer` writes it is read back.
#[verifier::external_body]
pub(crate) fn read_value(data: &[u8]) -> (r: Result<(CborValue, usize), String>)
    ensures
        match r {
            Ok((value, len)) => {
                &&& cbor_read(data@) == Ok::<CborItem, Seq<char>>(
                    (CborItem { content: value@, len: len as nat }),
                )
                &&& 0 < len <= data@.len()
                &&& forall|more: Seq<u8>| #[trigger]
                    cbor_read(data@.take(len as int) + more) == Ok::<CborItem, Seq<char>>(
                        (CborItem { content: value@, len: len as nat }),
                    )
            },
            Err(why) => cbor_read(data@) == Err::<CborItem, Seq<char>>(why@),
        },
        forall|held: Seq<u8>, rest: Seq<u8>|
            data@ == #[trigger] (bytes_encoding(held) + rest) ==> {
                &&& r is Ok
                &&& r->Ok_0.0@ == CborContent::Bytes(held)
                &&& r->Ok_0.1 == bytes_encoding(held).len()
            },
{
    let mut cursor = std::io::Cursor::new(data);
    match ciborium::de::from_reader::<ciborium::Value, _>(&mut cursor) {
        Ok(ciborium::Value::Bytes(b)) => Ok((CborValue::Bytes(b), cursor.position() as usize)),
        Ok(ciborium::Value::Text(t)) => Ok((CborValue::Text(t), cursor.position() as usize)),
        Ok(v) => Ok((CborValue::Other(format!("{:?}", v)), cursor.position() as usize)),
        Err(e) => Err(format!("{}", e)),
    }
}

/// `ciborium::into_writer` of a `ciborium::Value::Bytes` into a vector, which
/// takes every write: the shortest byte-string header, then the bytes.
#[verifier::external_body]
pub(crate) fn write_bytes(data: Vec<u8>) -> (r: Result<Vec<u8>, String>)
    ensures
        r is Ok,
        r->Ok_0@ == bytes_encoding(data@),
{
    let mut out: Vec<u8> = Vec::new();
    match ciborium::into_writer(&ciborium::Value::Bytes(data), &mut out) {
        Ok(()) => Ok(out),
        Err(e) => Err(format!("{}", e)),
    }
}

proof fn lemma_divisions(n: nat, k: nat)
    ensures
        n / 256 / (vstd::arithmetic::power::pow(256, k) as nat) == n / (
        vstd::arithmetic::power::pow(256, k + 1) as nat),
        vstd::arithmetic::power::pow(256, k) > 0,
{
    vstd::arithmetic::power::lemma_pow_positive(256, k);
    reveal(vstd::arithmetic::power::pow);
    assert(vstd::arithmetic::power::pow(256, k + 1) == 256 * vstd::arithmetic::power::pow(256, k));
    vstd::arithmetic::div_mod::lemma_div_denominator(
        n as int,
        256,
        vstd::arithmetic::power::pow(256, k),
    );
}

/// Byte `i` of a big-endian number of `width` bytes is its digit at that place
/// in base 256, the highest place first.
pub proof fn big_endian_places(n: nat, width: nat, i: int)
    requires
        0 <= i < width,
    ensures
        big_endian(n, width).len() == width,
        big_endian(n, width)[i] as nat == n / (vstd::arithmetic::power::pow(
            256,
            (width - 1 - i) as nat,
        ) as nat) % 256,
    decreases width,
{
    if i == width - 1 {
        vstd::arithmetic::power::lemma_pow0(256);
        if width > 1 {
            big_endian_places(n / 256, (width - 1) as nat, 0);
        } else {
            assert(big_endian(n / 256, 0) =~= Seq::<u8>::empty());
        }
        let p = vstd::arithmetic::power::pow(256, (width - 1 - i) as nat) as nat;
        assert(p == 1);
        assert(n / p == n) by (nonlinear_arith)
            requires
                p == 1,
        ;
        assert(big_endian(n, width)[i] == (n % 256) as u8);
    } else {
        big_endian_places(n / 256, (width - 1) as nat, i);
        lemma_divisions(n, (width - 2 - i) as nat);
        assert(big_endian(n, width)[i] == big_endian(n / 256, (width - 1) as nat)[i]);
        assert((width - 1 - 1 - i) as nat + 1 == (width - 1 - i) as nat);
    }
}

/// A byte string starts with major type 2 and its length in the shortest form:
/// in the first byte itself below 24, else in 1, 2, 4 or 8 big-endian bytes,
/// whichever is the first that holds it; the data follows unchanged.
pub proof fn a_byte_string_states_its_length(data: Seq<u8>)
    ensures
        ({
            let len = data.len();
            let e = bytes_encoding(data);
            let width: nat = if len < 24 {
                0
            } else if len < 256 {
                1
            } else if len < 65536 {
                2
            } else if len < 4294967296 {
                4
            } else {
                8
            };
            &&& e.len() == 1 + width + len
            &&& e[0] == (if len < 24 {
                (64 + len) as int
            } else if len < 256 {
                88
            } else if len < 65536 {
                89
            } else if len < 4294967296 {
                90
            } else {
                91
            })
            &&& e.skip((1 + width) as int) == data
            &&& forall|i: int|
                0 <= i < width ==> #[trigger] e[1 + i] as nat == len / (
                vstd::arithmetic::power::pow(256, (width - 1 - i) as nat) as nat) % 256
        }),
{
    let len = data.len();
    let e = bytes_encoding(data);
    let width: nat = if len < 24 {
        0
    } else if len < 256 {
        1
    } else if len < 65536 {
        2
    } else if len < 4294967296 {
        4
    } else {
        8
    };
    if width > 0 {
        big_endian_places(len, width, 0);
    }
    assert(bytes_header(len).len() == 1 + width);
    assert(e.skip((1 + width) as int) =~= data);
    assert forall|i: int| 0 <= i < width implies #[trigger] e[1 + i] as nat == len / (
    vstd::arithmetic::power::pow(256, (width - 1 - i) as nat) as nat) % 256 by {
        big_endian_places(len, width, i);
        assert(e[1 + i] == bytes_header(len)[1 + i]);
        assert(bytes_header(len)[1 + i] == big_endian(len, width)[i]);
    }
}

} // verus!
