//! The codec and the frame reader: protocol values in memory, their
//! encoding and decoding, and the receive buffer of a connection.

use crate::buffer::{
    buffer_advance, buffer_bytes, buffer_extend, buffer_len, buffer_with_capacity, buffered,
};
use crate::decimal::{parse_i64, push_decimal, MINUS};
use crate::wire::{
    crlf, decode, decode_array, decode_bulk_string, decode_items, decode_simple_string, encode,
    encode_all, first_crlf, is_crlf_at, lemma_decode_items_failure, lemma_encode_all_push,
    lemma_first_crlf, lemma_first_crlf_absent, lemma_first_crlf_found, rest_after, ParseError,
    Parsed, Value, ARRAY, BULK_STRING, CR, ERROR, LF, ONE, SIMPLE_STRING,
};
use bytes::BytesMut;
use vstd::prelude::*;
use vstd::slice::{slice_subrange, slice_to_vec};

verus! {

/// A protocol value as it is held in memory.
#[derive(Debug, PartialEq, Eq)]
pub enum DataType {
    Null,
    SimpleString(Vec<u8>),
    BulkString(Vec<u8>),
    Error(Vec<u8>),
    Array(Vec<DataType>),
}

/// The models of a sequence of protocol values, in order.
pub open spec fn views(items: Seq<DataType>) -> Seq<Value>
    decreases items,
{
    if items.len() == 0 {
        Seq::empty()
    } else {
        views(items.drop_last()).push(items.last().view())
    }
}

impl View for DataType {
    type V = Value;

    open spec fn view(&self) -> Value
        decreases self,
    {
        match self {
            DataType::Null => Value::Null,
            DataType::SimpleString(s) => Value::SimpleString(s@),
            DataType::BulkString(s) => Value::BulkString(s@),
            DataType::Error(s) => Value::Error(s@),
            DataType::Array(items) => Value::Array(views(items@)),
        }
    }
}

/// `views` keeps the length and models each item in place.
pub proof fn lemma_views(items: Seq<DataType>)
    ensures
        views(items).len() == items.len(),
        forall|i: int| 0 <= i < items.len() ==> #[trigger] views(items)[i] == items[i]@,
    decreases items.len(),
{
    if items.len() > 0 {
        lemma_views(items.drop_last());
        assert(views(items) == views(items.drop_last()).push(items.last().view()));
        assert(views(items).len() == items.len());
    } else {
        assert(views(items).len() == 0);
    }
}

/// `views` of a sequence with one more item at its end.
pub proof fn lemma_views_push(items: Seq<DataType>, last: DataType)
    ensures
        views(items.push(last)) == views(items).push(last@),
{
    assert(items.push(last).drop_last() =~= items);
}

impl Clone for DataType {
    fn clone(&self) -> (copy: Self)
        ensures
            copy@ == self@,
        decreases self,
    {
        match self {
            DataType::Null => DataType::Null,
            DataType::SimpleString(s) => DataType::SimpleString(slice_to_vec(s.as_slice())),
            DataType::BulkString(s) => DataType::BulkString(slice_to_vec(s.as_slice())),
            DataType::Error(s) => DataType::Error(slice_to_vec(s.as_slice())),
            DataType::Array(items) => DataType::Array(clone_all(items)),
        }
    }
}

/// Copies of `items`, in order.
fn clone_all(items: &Vec<DataType>) -> (copies: Vec<DataType>)
    ensures
        views(copies@) == views(items@),
    decreases items,
{
    let mut copies: Vec<DataType> = Vec::new();
    let mut i: usize = 0;
    assert(items@.take(0) =~= copies@);
    while i < items.len()
        invariant
            i <= items@.len(),
            views(copies@) == views(items@.take(i as int)),
        decreases items@.len() - i,
    {
        let ghost before = copies@;
        proof {
            vstd::std_specs::vec::axiom_vec_index_decreases(*items, i as int);
        }
        let copy = items[i].clone();
        copies.push(copy);
        i = i + 1;
        proof {
            lemma_views_push(before, copy);
            lemma_views_push(items@.take(i - 1), items@[i - 1]);
            assert(items@.take(i as int) =~= items@.take(i - 1).push(items@[i - 1]));
        }
    }
    assert(items@.take(i as int) =~= items@);
    copies
}

/// Appends `bytes` to `out`.
fn push_bytes(out: &mut Vec<u8>, bytes: &[u8])
    ensures
        final(out)@ == old(out)@ + bytes@,
{
    let mut i: usize = 0;
    while i < bytes.len()
        invariant
            i <= bytes@.len(),
            out@ == old(out)@ + bytes@.take(i as int),
        decreases bytes@.len() - i,
    {
        out.push(bytes[i]);
        i = i + 1;
        assert(bytes@.take(i as int) =~= bytes@.take(i - 1).push(bytes@[i - 1]));
    }
    assert(bytes@.take(i as int) =~= bytes@);
}

/// Appends a line end to `out`.
fn push_crlf(out: &mut Vec<u8>)
    ensures
        final(out)@ == old(out)@ + crlf(),
{
    out.push(CR);
    out.push(LF);
    assert(out@ =~= old(out)@ + crlf());
}

impl DataType {
    /// The wire form of this value.
    pub fn serialize(self) -> (out: Vec<u8>)
        ensures
            out@ == encode(self@),
    {
        let mut out: Vec<u8> = Vec::new();
        self.write_to(&mut out);
        out
    }

    /// Appends the wire form of this value to `out`.
    pub fn write_to(&self, out: &mut Vec<u8>)
        ensures
            final(out)@ == old(out)@ + encode(self@),
        decreases self,
    {
        match self {
            DataType::Null => {
                out.push(BULK_STRING);
                out.push(MINUS);
                out.push(ONE);
                push_crlf(out);
                assert(out@ =~= old(out)@ + encode(self@));
            },
            DataType::SimpleString(s) => {
                out.push(SIMPLE_STRING);
                push_bytes(out, s.as_slice());
                push_crlf(out);
                assert(out@ =~= old(out)@ + encode(self@));
            },
            DataType::BulkString(s) => {
                out.push(BULK_STRING);
                push_decimal(out, s.len());
                push_crlf(out);
                push_bytes(out, s.as_slice());
                push_crlf(out);
                assert(out@ =~= old(out)@ + encode(self@));
            },
            DataType::Error(s) => {
                out.push(ERROR);
                push_bytes(out, s.as_slice());
                push_crlf(out);
                assert(out@ =~= old(out)@ + encode(self@));
            },
            DataType::Array(items) => {
                out.push(ARRAY);
                push_decimal(out, items.len());
                push_crlf(out);
                proof {
                    lemma_views(items@);
                }
                write_all(items, out);
                assert(out@ =~= old(out)@ + encode(self@));
            },
        }
    }
}

/// Appends the wire forms of `items` to `out`, one after the other.
fn write_all(items: &Vec<DataType>, out: &mut Vec<u8>)
    ensures
        final(out)@ == old(out)@ + encode_all(views(items@)),
    decreases items,
{
    let mut i: usize = 0;
    assert(views(items@.take(0)) =~= Seq::<Value>::empty());
    while i < items.len()
        invariant
            i <= items@.len(),
            out@ == old(out)@ + encode_all(views(items@.take(i as int))),
        decreases items@.len() - i,
    {
        proof {
            vstd::std_specs::vec::axiom_vec_index_decreases(*items, i as int);
        }
        items[i].write_to(out);
        i = i + 1;
        proof {
            let before = items@.take(i - 1);
            assert(items@.take(i as int) =~= before.push(items@[i - 1]));
            lemma_views_push(before, items@[i - 1]);
            lemma_encode_all_push(views(before), items@[i - 1]@);
        }
    }
    assert(items@.take(i as int) =~= items@);
}

/// The model of a parser's answer: `Ok(None)` asks for more data, an error
/// says that the buffer is malformed.
pub open spec fn parsed_view(r: Result<Option<(DataType, usize)>, ParseError>) -> Parsed<Value> {
    match r {
        Ok(None) => Parsed::NeedMoreData,
        Ok(Some((value, consumed))) => Parsed::Decoded(value@, consumed as nat),
        Err(e) => Parsed::Malformed(e),
    }
}

/// Finds the first line end in `buffer`.
pub fn find_crlf(buffer: &[u8]) -> (r: Option<usize>)
    ensures
        match r {
            Some(i) => first_crlf(buffer@) == Some(i as int),
            None => first_crlf(buffer@) is None,
        },
{
    let mut i: usize = 0;
    while i < buffer.len() && i + 1 < buffer.len()
        invariant
            i <= buffer@.len(),
            forall|j: int| 0 <= j < i ==> !is_crlf_at(buffer@, j),
        decreases buffer@.len() - i,
    {
        if buffer[i] == CR && buffer[i + 1] == LF {
            proof {
                lemma_first_crlf_found(buffer@, i as int);
            }
            return Some(i);
        }
        i = i + 1;
    }
    proof {
        lemma_first_crlf_absent(buffer@);
    }
    None
}

/// Splits off the first line of `buffer`: the bytes before the first line
/// end, and the length of the line with its end.
pub fn read_line(buffer: &[u8]) -> (r: Option<(&[u8], usize)>)
    ensures
        match r {
            Some((line, consumed)) => first_crlf(buffer@) == Some(consumed - 2) && line@
                == buffer@.subrange(0, consumed - 2) && 2 <= consumed <= buffer@.len(),
            None => first_crlf(buffer@) is None,
        },
{
    match find_crlf(buffer) {
        Some(pos) => {
            proof {
                lemma_first_crlf(buffer@);
            }
            assert(pos + 2 <= buffer.len());
            Some((slice_subrange(buffer, 0, pos), pos + 2))
        },
        None => None,
    }
}

/// Copies `buffer[from..to]` into a vector of its own.
fn copy_range(buffer: &[u8], from: usize, to: usize) -> (out: Vec<u8>)
    requires
        from <= to <= buffer@.len(),
    ensures
        out@ == buffer@.subrange(from as int, to as int),
{
    slice_to_vec(slice_subrange(buffer, from, to))
}

/// Decodes the value at the start of `data`, if it is whole: the value and
/// the number of bytes it takes. `Ok(None)` asks for more bytes.
pub fn parse_resp(data: &[u8]) -> (r: Result<Option<(DataType, usize)>, ParseError>)
    ensures
        parsed_view(r) == decode(data@),
        r matches Ok(Some((_, consumed))) ==> 0 < consumed <= data@.len(),
    decreases data@.len(), 1nat,
{
    if data.len() == 0 {
        return Ok(None);
    }
    let first = data[0];
    if first == SIMPLE_STRING {
        parse_simple_string(data)
    } else if first == BULK_STRING {
        parse_bulk_string(data)
    } else if first == ARRAY {
        parse_array(data)
    } else {
        Err(ParseError::UnknownPrefix)
    }
}

/// Decodes a simple string from a buffer that starts with `+`.
pub fn parse_simple_string(buffer: &[u8]) -> (r: Result<Option<(DataType, usize)>, ParseError>)
    requires
        buffer@.len() > 0,
        buffer@[0] == SIMPLE_STRING,
    ensures
        parsed_view(r) == decode_simple_string(buffer@),
        r matches Ok(Some((_, consumed))) ==> 0 < consumed <= buffer@.len(),
{
    match read_line(buffer) {
        Some((line, consumed)) => {
            proof {
                lemma_first_crlf(buffer@);
                assert(line@.subrange(1, line@.len() as int) =~= buffer@.subrange(
                    1,
                    consumed - 2,
                ));
            }
            let text = copy_range(line, 1, line.len());
            Ok(Some((DataType::SimpleString(text), consumed)))
        },
        None => Ok(None),
    }
}

/// Decodes a bulk string from a buffer that starts with `$`.
pub fn parse_bulk_string(buffer: &[u8]) -> (r: Result<Option<(DataType, usize)>, ParseError>)
    requires
        buffer@.len() > 0,
        buffer@[0] == BULK_STRING,
    ensures
        parsed_view(r) == decode_bulk_string(buffer@),
        r matches Ok(Some((_, consumed))) ==> 0 < consumed <= buffer@.len(),
{
    let (line, line_len) = match read_line(buffer) {
        Some(it) => it,
        None => {
            return Ok(None);
        },
    };
    proof {
        lemma_first_crlf(buffer@);
        assert(line@.subrange(1, line@.len() as int) =~= buffer@.subrange(1, line_len - 2));
    }
    let len: i64 = match parse_i64(slice_subrange(line, 1, line.len())) {
        Some(len) => len,
        None => {
            return Err(ParseError::InvalidBulkLength);
        },
    };
    if len == -1 {
        return Ok(Some((DataType::Null, line_len)));
    }
    if len < 0 {
        return Err(ParseError::InvalidBulkLength);
    }
    let needed: u128 = line_len as u128 + len as u128 + 2;
    if (buffer.len() as u128) < needed {
        return Ok(None);
    }
    let end: usize = line_len + len as usize;
    if buffer[end] != CR || buffer[end + 1] != LF {
        return Err(ParseError::MissingCrlf);
    }
    let payload = copy_range(buffer, line_len, end);
    Ok(Some((DataType::BulkString(payload), end + 2)))
}

/// Decodes an array from a buffer that starts with `*`.
#[verifier::loop_isolation(false)]
pub fn parse_array(buffer: &[u8]) -> (r: Result<Option<(DataType, usize)>, ParseError>)
    requires
        buffer@.len() > 0,
        buffer@[0] == ARRAY,
    ensures
        parsed_view(r) == decode_array(buffer@),
        r matches Ok(Some((_, consumed))) ==> 0 < consumed <= buffer@.len(),
    decreases buffer@.len(), 0nat,
{
    let (line, line_len) = match read_line(buffer) {
        Some(it) => it,
        None => {
            return Ok(None);
        },
    };
    proof {
        lemma_first_crlf(buffer@);
        assert(line@.subrange(1, line@.len() as int) =~= buffer@.subrange(1, line_len - 2));
    }
    let count: i64 = match parse_i64(slice_subrange(line, 1, line.len())) {
        Some(count) => count,
        None => {
            return Err(ParseError::InvalidArrayLength);
        },
    };
    if count == -1 {
        return Ok(Some((DataType::Array(Vec::new()), line_len)));
    }
    if count < 0 {
        return Err(ParseError::InvalidArrayLength);
    }
    let ghost body = buffer@.skip(line_len as int);
    let mut elements: Vec<DataType> = Vec::new();
    let mut total_consumed: usize = line_len;
    let mut done: i64 = 0;
    while done < count
        invariant
            0 <= done <= count,
            line_len <= total_consumed <= buffer@.len(),
            body == buffer@.skip(line_len as int),
            decode_items(body, done as nat) == Parsed::Decoded(
                views(elements@),
                (total_consumed - line_len) as nat,
            ),
        decreases count - done,
    {
        let rest = slice_subrange(buffer, total_consumed, buffer.len());
        proof {
            assert(rest@ =~= rest_after(body, (total_consumed - line_len) as nat));
        }
        match parse_resp(rest) {
            Ok(Some((element, consumed))) => {
                proof {
                    lemma_views_push(elements@, element);
                }
                elements.push(element);
                total_consumed = total_consumed + consumed;
            },
            Ok(None) => {
                proof {
                    lemma_decode_items_failure(body, (done + 1) as nat, count as nat);
                }
                return Ok(None);
            },
            Err(e) => {
                proof {
                    lemma_decode_items_failure(body, (done + 1) as nat, count as nat);
                }
                return Err(e);
            },
        }
        done = done + 1;
    }
    Ok(Some((DataType::Array(elements), total_consumed)))
}

/// What one read cycle on a connection yields.
#[derive(Debug, PartialEq, Eq)]
pub enum ReadOutcome {
    /// The read returned no bytes: the peer has closed the connection.
    PeerClosed,
    /// The bytes received so far do not hold a whole value.
    NeedMoreData,
    /// The next value on the connection.
    Frame(DataType),
}

/// The mathematical model of what one read cycle yields.
pub enum ReadStep {
    PeerClosed,
    NeedMoreData,
    Frame(Value),
    Malformed(ParseError),
}

/// The model of an answer of `RespListener::read`.
pub open spec fn read_view(r: Result<ReadOutcome, ParseError>) -> ReadStep {
    match r {
        Ok(ReadOutcome::PeerClosed) => ReadStep::PeerClosed,
        Ok(ReadOutcome::NeedMoreData) => ReadStep::NeedMoreData,
        Ok(ReadOutcome::Frame(value)) => ReadStep::Frame(value@),
        Err(e) => ReadStep::Malformed(e),
    }
}

/// One read cycle: the bytes left in the buffer and what is yielded, from the
/// bytes that were buffered and those that the read returned. A read of no
/// bytes means that the peer closed. Else the new bytes join the buffer, and
/// the first value, if it is whole, leaves it.
pub open spec fn read_step(buffer: Seq<u8>, incoming: Seq<u8>) -> (Seq<u8>, ReadStep) {
    if incoming.len() == 0 {
        (buffer, ReadStep::PeerClosed)
    } else {
        let all = buffer + incoming;
        match decode(all) {
            Parsed::NeedMoreData => (all, ReadStep::NeedMoreData),
            Parsed::Decoded(value, consumed) => (rest_after(all, consumed), ReadStep::Frame(value)),
            Parsed::Malformed(e) => (all, ReadStep::Malformed(e)),
        }
    }
}

/// The room that a new receive buffer has, in bytes. It grows as needed.
pub const INITIAL_CAPACITY: usize = 1024;

/// The receive buffer of one connection.
pub struct RespListener {
    data: BytesMut,
}

impl View for RespListener {
    type V = Seq<u8>;

    /// The bytes received and not yet decoded.
    closed spec fn view(&self) -> Seq<u8> {
        buffered(self.data)
    }
}

impl RespListener {
    /// A listener that has received nothing.
    pub fn new() -> (listener: Self)
        ensures
            listener@ == Seq::<u8>::empty(),
    {
        RespListener { data: buffer_with_capacity(INITIAL_CAPACITY) }
    }

    /// The number of bytes received and not yet decoded.
    pub fn buffered_len(&self) -> (len: usize)
        ensures
            len == self@.len(),
    {
        buffer_len(&self.data)
    }

    /// Takes the bytes that one read on the connection returned, and yields
    /// at most one value.
    pub fn read(&mut self, incoming: &[u8]) -> (r: Result<ReadOutcome, ParseError>)
        requires
            old(self)@.len() + incoming@.len() <= usize::MAX,
        ensures
            (final(self)@, read_view(r)) == read_step(old(self)@, incoming@),
    {
        if incoming.len() == 0 {
            return Ok(ReadOutcome::PeerClosed);
        }
        buffer_extend(&mut self.data, incoming);
        match parse_resp(buffer_bytes(&self.data)) {
            Ok(Some((value, consumed))) => {
                buffer_advance(&mut self.data, consumed);
                Ok(ReadOutcome::Frame(value))
            },
            Ok(None) => Ok(ReadOutcome::NeedMoreData),
            Err(e) => Err(e),
        }
    }
}

} // verus!
