//! The wire format: the mathematical model of protocol values, of their
//! encoding, and of what decoding makes of a buffer.

use crate::decimal::{decimal, parse_signed, MINUS};
use vstd::prelude::*;

verus! {

/// ASCII carriage return.
pub const CR: u8 = 13;

/// ASCII line feed.
pub const LF: u8 = 10;

/// ASCII `+`, the first byte of a simple string.
pub const SIMPLE_STRING: u8 = 43;

/// ASCII `-`, the first byte of an error.
pub const ERROR: u8 = 45;

/// ASCII `$`, the first byte of a bulk string.
pub const BULK_STRING: u8 = 36;

/// ASCII `*`, the first byte of an array.
pub const ARRAY: u8 = 42;

/// ASCII `1`.
pub const ONE: u8 = 49;

/// The mathematical model of a protocol value.
pub enum Value {
    Null,
    SimpleString(Seq<u8>),
    BulkString(Seq<u8>),
    Error(Seq<u8>),
    Array(Seq<Value>),
}

/// Why a buffer cannot be the start of any value.
#[derive(Clone, Copy, Debug, PartialEq, Eq, Structural)]
pub enum ParseError {
    /// The first byte opens no kind of value.
    UnknownPrefix,
    /// The length line of a bulk string is no number, or is below `-1`.
    InvalidBulkLength,
    /// The count line of an array is no number, or is below `-1`.
    InvalidArrayLength,
    /// The payload of a bulk string is not followed by a line end.
    MissingCrlf,
}

/// What decoding makes of a buffer.
pub enum Parsed<T> {
    /// The buffer does not hold a whole value yet: more bytes are needed.
    NeedMoreData,
    /// The buffer starts with a whole value, which takes this many bytes.
    Decoded(T, nat),
    /// The buffer does not start with a value, whatever bytes may follow.
    Malformed(ParseError),
}

/// A line end: carriage return, line feed.
pub open spec fn crlf() -> Seq<u8> {
    seq![CR, LF]
}

/// The wire form of a value.
pub open spec fn encode(v: Value) -> Seq<u8>
    decreases v,
{
    match v {
        Value::Null => seq![BULK_STRING, MINUS, ONE] + crlf(),
        Value::SimpleString(s) => seq![SIMPLE_STRING] + s + crlf(),
        Value::BulkString(s) => seq![BULK_STRING] + decimal(s.len()) + crlf() + s + crlf(),
        Value::Error(s) => seq![ERROR] + s + crlf(),
        Value::Array(items) => seq![ARRAY] + decimal(items.len()) + crlf() + encode_all(items),
    }
}

/// The wire forms of a sequence of values, one after the other.
pub open spec fn encode_all(items: Seq<Value>) -> Seq<u8>
    decreases items,
{
    if items.len() == 0 {
        Seq::empty()
    } else {
        encode_all(items.drop_last()) + encode(items.last())
    }
}

/// `encode_all` of a sequence with one more value at its end.
pub proof fn lemma_encode_all_push(items: Seq<Value>, last: Value)
    ensures
        encode_all(items.push(last)) == encode_all(items) + encode(last),
{
    assert(items.push(last).drop_last() =~= items);
}

/// A line end starts at index `i` of `s`.
pub open spec fn is_crlf_at(s: Seq<u8>, i: int) -> bool {
    0 <= i && i + 1 < s.len() && s[i] == CR && s[i + 1] == LF
}

/// `i` is the index of the first line end in `s`.
pub open spec fn is_first_crlf(s: Seq<u8>, i: int) -> bool {
    is_crlf_at(s, i) && forall|j: int| 0 <= j < i ==> !is_crlf_at(s, j)
}

/// The index of the first line end in `s`, if it holds one.
pub open spec fn first_crlf(s: Seq<u8>) -> Option<int> {
    if exists|i: int| is_first_crlf(s, i) {
        Some(choose|i: int| is_first_crlf(s, i))
    } else {
        None
    }
}

/// The first line end is where a scan from the front finds it.
pub proof fn lemma_first_crlf_found(s: Seq<u8>, i: int)
    requires
        is_first_crlf(s, i),
    ensures
        first_crlf(s) == Some(i),
{
    let c = choose|k: int| is_first_crlf(s, k);
    assert(is_first_crlf(s, c));
    if c < i {
        assert(!is_crlf_at(s, c));
    } else if i < c {
        assert(!is_crlf_at(s, i));
    }
}

/// A sequence without a line end has no first one.
pub proof fn lemma_first_crlf_absent(s: Seq<u8>)
    requires
        forall|j: int| 0 <= j ==> !is_crlf_at(s, j),
    ensures
        first_crlf(s) is None,
{
    if exists|i: int| is_first_crlf(s, i) {
        let c = choose|k: int| is_first_crlf(s, k);
        assert(is_crlf_at(s, c));
    }
}

/// What `first_crlf` says of the sequence it is applied to.
pub proof fn lemma_first_crlf(s: Seq<u8>)
    ensures
        match first_crlf(s) {
            Some(i) => is_first_crlf(s, i),
            None => forall|j: int| !is_crlf_at(s, j),
        },
{
    if exists|i: int| is_first_crlf(s, i) {
    } else {
        assert forall|j: int| !is_crlf_at(s, j) by {
            lemma_no_first_means_none(s, j);
        }
    }
}

/// Where a line end starts at `j`, a first one starts at or before `j`.
proof fn lemma_no_first_means_none(s: Seq<u8>, j: int)
    requires
        !exists|i: int| is_first_crlf(s, i),
    ensures
        !is_crlf_at(s, j),
    decreases j,
{
    if is_crlf_at(s, j) {
        if forall|k: int| 0 <= k < j ==> !is_crlf_at(s, k) {
            assert(is_first_crlf(s, j));
        } else {
            let k = choose|k: int| 0 <= k < j && is_crlf_at(s, k);
            lemma_no_first_means_none(s, k);
        }
    }
}

/// What is left of `buf` after its first `used` bytes.
pub open spec fn rest_after(buf: Seq<u8>, used: nat) -> Seq<u8> {
    if used <= buf.len() {
        buf.skip(used as int)
    } else {
        Seq::empty()
    }
}

/// Decodes a simple string: the bytes between the first byte and the first
/// line end.
pub open spec fn decode_simple_string(buf: Seq<u8>) -> Parsed<Value> {
    match first_crlf(buf) {
        None => Parsed::NeedMoreData,
        Some(end) => Parsed::Decoded(Value::SimpleString(buf.subrange(1, end)), (end + 2) as nat),
    }
}

/// Decodes a bulk string: a length line, then that many bytes and a line end.
/// The length `-1` stands for the null value.
pub open spec fn decode_bulk_string(buf: Seq<u8>) -> Parsed<Value> {
    match first_crlf(buf) {
        None => Parsed::NeedMoreData,
        Some(end) => match parse_signed(buf.subrange(1, end)) {
            None => Parsed::Malformed(ParseError::InvalidBulkLength),
            Some(len) => {
                let start = end + 2;
                if len == -1 {
                    Parsed::Decoded(Value::Null, start as nat)
                } else if len < 0 {
                    Parsed::Malformed(ParseError::InvalidBulkLength)
                } else if buf.len() < start + len + 2 {
                    Parsed::NeedMoreData
                } else if !(buf[start + len] == CR && buf[start + len + 1] == LF) {
                    Parsed::Malformed(ParseError::MissingCrlf)
                } else {
                    Parsed::Decoded(
                        Value::BulkString(buf.subrange(start, start + len)),
                        (start + len + 2) as nat,
                    )
                }
            },
        },
    }
}

/// Decodes an array: a count line, then that many values. The count `-1`
/// stands for an empty array.
pub open spec fn decode_array(buf: Seq<u8>) -> Parsed<Value>
    decreases buf.len(), 0nat,
{
    match first_crlf(buf) {
        None => Parsed::NeedMoreData,
        Some(end) => match parse_signed(buf.subrange(1, end)) {
            None => Parsed::Malformed(ParseError::InvalidArrayLength),
            Some(count) => {
                if count == -1 {
                    Parsed::Decoded(Value::Array(Seq::empty()), (end + 2) as nat)
                } else if count < 0 {
                    Parsed::Malformed(ParseError::InvalidArrayLength)
                } else {
                    proof {
                        lemma_first_crlf(buf);
                    }
                    match decode_items(buf.skip(end + 2), count as nat) {
                        Parsed::NeedMoreData => Parsed::NeedMoreData,
                        Parsed::Malformed(e) => Parsed::Malformed(e),
                        Parsed::Decoded(items, used) => Parsed::Decoded(
                            Value::Array(items),
                            (end + 2 + used) as nat,
                        ),
                    }
                }
            },
        },
    }
}

/// Decodes `count` values that follow one another from the start of `buf`.
/// The first one that is not whole, or is malformed, decides.
pub open spec fn decode_items(buf: Seq<u8>, count: nat) -> Parsed<Seq<Value>>
    decreases buf.len(), count + 2,
{
    if count == 0 {
        Parsed::Decoded(Seq::empty(), 0)
    } else {
        match decode_items(buf, (count - 1) as nat) {
            Parsed::NeedMoreData => Parsed::NeedMoreData,
            Parsed::Malformed(e) => Parsed::Malformed(e),
            Parsed::Decoded(items, used) => match decode(rest_after(buf, used)) {
                Parsed::NeedMoreData => Parsed::NeedMoreData,
                Parsed::Malformed(e) => Parsed::Malformed(e),
                Parsed::Decoded(item, n) => Parsed::Decoded(items.push(item), used + n),
            },
        }
    }
}

/// Decodes the value at the start of `buf`, by its first byte.
pub open spec fn decode(buf: Seq<u8>) -> Parsed<Value>
    decreases buf.len(), 1nat,
{
    if buf.len() == 0 {
        Parsed::NeedMoreData
    } else if buf[0] == SIMPLE_STRING {
        decode_simple_string(buf)
    } else if buf[0] == BULK_STRING {
        decode_bulk_string(buf)
    } else if buf[0] == ARRAY {
        decode_array(buf)
    } else {
        Parsed::Malformed(ParseError::UnknownPrefix)
    }
}

/// A failure among the first `k` values is the failure of any longer run.
pub proof fn lemma_decode_items_failure(buf: Seq<u8>, k: nat, count: nat)
    requires
        k <= count,
        !(decode_items(buf, k) is Decoded),
    ensures
        decode_items(buf, count) == decode_items(buf, k),
    decreases count - k,
{
    if k < count {
        lemma_decode_items_failure(buf, k, (count - 1) as nat);
    }
}

} // verus!
