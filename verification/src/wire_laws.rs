//! What decoding makes of the wire form of a value, whole or cut short.

use crate::decimal::{decimal, digits_value, is_digit, lemma_decimal_parses, parse_signed, MINUS};
use crate::resp::{read_step, ReadStep};
use crate::wire::{
    crlf, decode, decode_items, encode, encode_all, first_crlf, is_crlf_at, is_first_crlf,
    lemma_first_crlf, lemma_first_crlf_absent, lemma_first_crlf_found, rest_after, ParseError,
    Parsed, Value, ARRAY, BULK_STRING, CR, LF, ONE, SIMPLE_STRING,
};
use vstd::prelude::*;

verus! {

/// A value that the decoder reads back from its wire form: it holds no error
/// value, no simple string with a line end inside, and no length or count
/// above `i64::MAX`.
pub open spec fn supported(v: Value) -> bool
    decreases v,
{
    match v {
        Value::Null => true,
        Value::SimpleString(s) => forall|i: int| !is_crlf_at(s, i),
        Value::BulkString(s) => s.len() <= i64::MAX,
        Value::Error(_) => false,
        Value::Array(items) => items.len() <= i64::MAX && forall|i: int|
            0 <= i < items.len() ==> supported(#[trigger] items[i]),
    }
}

/// A line made of a first byte, a text without a line end, and a line end.
pub open spec fn line(sigil: u8, text: Seq<u8>) -> Seq<u8> {
    seq![sigil] + text + crlf()
}

/// In a buffer that starts with such a line, the first line end is the line's
/// own.
pub proof fn lemma_line_end(sigil: u8, text: Seq<u8>, rest: Seq<u8>)
    requires
        sigil != CR,
        forall|i: int| !is_crlf_at(text, i),
    ensures
        first_crlf(line(sigil, text) + rest) == Some(1 + text.len() as int),
        (line(sigil, text) + rest).subrange(1, 1 + text.len() as int) == text,
        (line(sigil, text) + rest).skip(text.len() as int + 3) == rest,
        line(sigil, text).len() == text.len() + 3,
{
    let buf = line(sigil, text) + rest;
    let end = 1 + text.len() as int;
    assert forall|j: int| 0 <= j < end implies !is_crlf_at(buf, j) by {
        if j >= 1 && j + 1 < end {
            assert(buf[j] == text[j - 1]);
            assert(buf[j + 1] == text[j]);
            assert(!is_crlf_at(text, j - 1));
        }
    }
    assert(is_first_crlf(buf, end));
    lemma_first_crlf_found(buf, end);
    assert(buf.subrange(1, end) =~= text);
    assert(buf.skip(end + 2) =~= rest);
}

/// A buffer that stops inside such a line holds no line end.
pub proof fn lemma_line_cut(sigil: u8, text: Seq<u8>, k: int)
    requires
        sigil != CR,
        forall|i: int| !is_crlf_at(text, i),
        0 <= k < text.len() + 3,
    ensures
        first_crlf(line(sigil, text).take(k)) is None,
{
    let buf = line(sigil, text).take(k);
    assert forall|j: int| 0 <= j implies !is_crlf_at(buf, j) by {
        if j >= 1 && j + 1 < k && j + 1 < 1 + text.len() {
            assert(buf[j] == text[j - 1]);
            assert(buf[j + 1] == text[j]);
            assert(!is_crlf_at(text, j - 1));
        }
    }
    lemma_first_crlf_absent(buf);
}

/// The decimal text of a length is a line text that reads back as that length.
pub proof fn lemma_decimal_line(n: nat)
    requires
        n <= i64::MAX,
    ensures
        forall|i: int| !is_crlf_at(decimal(n), i),
        parse_signed(decimal(n)) == Some(n as int),
{
    lemma_decimal_parses(n);
    let d = decimal(n);
    assert forall|i: int| !is_crlf_at(d, i) by {
        if 0 <= i < d.len() {
            assert(is_digit(d[i]));
        }
    }
    assert(is_digit(d[0]));
}

/// The wire form of the null value decodes to it, whatever follows.
proof fn lemma_decode_encoded_null(rest: Seq<u8>)
    ensures
        decode(encode(Value::Null) + rest) == Parsed::Decoded(Value::Null, 5),
        encode(Value::Null).len() == 5,
{
    let text = seq![MINUS, ONE];
    assert(encode(Value::Null) =~= line(BULK_STRING, text));
    assert forall|i: int| !is_crlf_at(text, i) by {}
    lemma_line_end(BULK_STRING, text, rest);
    assert(text.skip(1) =~= seq![ONE]);
    assert(seq![ONE].drop_last() =~= Seq::<u8>::empty());
    assert(digits_value(seq![ONE]) == 1) by {
        reveal_with_fuel(digits_value, 2);
    }
    assert(is_digit(ONE));
    assert(parse_signed(text) == Some(-1int));
}

/// The wire form of a bulk string of a length within `i64` decodes to it,
/// whatever follows.
proof fn lemma_decode_encoded_bulk(s: Seq<u8>, rest: Seq<u8>)
    requires
        s.len() <= i64::MAX,
    ensures
        decode(encode(Value::BulkString(s)) + rest) == Parsed::Decoded(
            Value::BulkString(s),
            encode(Value::BulkString(s)).len(),
        ),
{
    let v = Value::BulkString(s);
    let buf = encode(v) + rest;
    let text = decimal(s.len());
    let tail = s + crlf() + rest;
    lemma_decimal_line(s.len());
    assert(buf =~= line(BULK_STRING, text) + tail);
    lemma_line_end(BULK_STRING, text, tail);
    let start = text.len() as int + 3;
    assert(buf.subrange(start, start + s.len()) =~= s);
    assert(buf[start + s.len()] == CR);
    assert(buf[start + s.len() + 1] == LF);
    assert(encode(v).len() == start + s.len() + 2);
}

/// Decoding the wire form of a supported value, whatever follows it, gives
/// the value back and takes exactly the bytes of the wire form.
pub proof fn lemma_decode_encoded(v: Value, rest: Seq<u8>)
    requires
        supported(v),
    ensures
        decode(encode(v) + rest) == Parsed::Decoded(v, encode(v).len()),
    decreases v,
{
    match v {
        Value::Null => {
            lemma_decode_encoded_null(rest);
        },
        Value::SimpleString(s) => {
            assert(encode(v) =~= line(SIMPLE_STRING, s));
            lemma_line_end(SIMPLE_STRING, s, rest);
        },
        Value::BulkString(s) => {
            lemma_decode_encoded_bulk(s, rest);
        },
        Value::Error(_) => {},
        Value::Array(items) => {
            let buf = encode(v) + rest;
            let text = decimal(items.len());
            let tail = encode_all(items) + rest;
            lemma_decimal_line(items.len());
            assert(buf =~= line(ARRAY, text) + tail);
            lemma_line_end(ARRAY, text, tail);
            lemma_decode_encoded_items(items, rest);
            assert(encode(v).len() == text.len() + 3 + encode_all(items).len());
        },
    }
}

/// Decoding the wire forms of supported values that follow one another gives
/// the values back, in order.
pub proof fn lemma_decode_encoded_items(items: Seq<Value>, rest: Seq<u8>)
    requires
        forall|i: int| 0 <= i < items.len() ==> supported(#[trigger] items[i]),
    ensures
        decode_items(encode_all(items) + rest, items.len()) == Parsed::Decoded(
            items,
            encode_all(items).len(),
        ),
    decreases items,
{
    let buf = encode_all(items) + rest;
    if items.len() == 0 {
        assert(items =~= Seq::<Value>::empty());
    } else {
        let front = items.drop_last();
        let last = items.last();
        let used = encode_all(front).len();
        assert(buf =~= encode_all(front) + (encode(last) + rest));
        lemma_decode_encoded_items(front, encode(last) + rest);
        assert(rest_after(buf, used) =~= encode(last) + rest);
        lemma_decode_encoded(last, rest);
        assert(front.push(last) =~= items);
    }
}

/// Round trip: decoding the wire form of a supported value gives the value
/// and the length of the wire form.
pub proof fn theorem_round_trip(v: Value)
    requires
        supported(v),
    ensures
        decode(encode(v)) == Parsed::Decoded(v, encode(v).len()),
{
    lemma_decode_encoded(v, Seq::empty());
    assert(encode(v) + Seq::<u8>::empty() =~= encode(v));
}

/// A buffer's first byte opens a kind of value that the decoder reads.
pub open spec fn opens_value(buf: Seq<u8>) -> bool {
    buf.len() > 0 && (buf[0] == SIMPLE_STRING || buf[0] == BULK_STRING || buf[0] == ARRAY)
}

/// An empty buffer asks for more bytes, and so does one that opens a value
/// and holds no line end yet. One that holds bytes and opens no value is
/// malformed, with or without a line end.
pub proof fn theorem_partial_line_needs_more(buf: Seq<u8>)
    ensures
        buf.len() == 0 ==> decode(buf) == Parsed::<Value>::NeedMoreData,
        opens_value(buf) && first_crlf(buf) is None ==> decode(buf) == Parsed::<
            Value,
        >::NeedMoreData,
        buf.len() > 0 && !opens_value(buf) ==> decode(buf) == Parsed::<Value>::Malformed(
            ParseError::UnknownPrefix,
        ),
{
}

/// A buffer that stops inside the wire form of a bulk string asks for more
/// bytes.
proof fn lemma_cut_bulk_needs_more(s: Seq<u8>, k: int)
    requires
        s.len() <= i64::MAX,
        0 < k < encode(Value::BulkString(s)).len(),
    ensures
        decode(encode(Value::BulkString(s)).take(k)) == Parsed::<Value>::NeedMoreData,
{
    let v = Value::BulkString(s);
    let buf = encode(v).take(k);
    let text = decimal(s.len());
    let tail = s + crlf();
    lemma_decimal_line(s.len());
    assert(encode(v) =~= line(BULK_STRING, text) + tail);
    if k < text.len() + 3 {
        assert(buf =~= line(BULK_STRING, text).take(k));
        lemma_line_cut(BULK_STRING, text, k);
    } else {
        let cut = tail.take(k - text.len() - 3);
        assert(buf =~= line(BULK_STRING, text) + cut);
        lemma_line_end(BULK_STRING, text, cut);
    }
}

/// A buffer that stops inside the wire form of a supported value asks for
/// more bytes.
pub proof fn lemma_cut_needs_more(v: Value, k: int)
    requires
        supported(v),
        0 <= k < encode(v).len(),
    ensures
        decode(encode(v).take(k)) == Parsed::<Value>::NeedMoreData,
    decreases v,
{
    let buf = encode(v).take(k);
    if k > 0 {
        match v {
            Value::Null => {
                let text = seq![MINUS, ONE];
                assert(encode(v) =~= line(BULK_STRING, text));
                assert forall|i: int| !is_crlf_at(text, i) by {}
                lemma_line_cut(BULK_STRING, text, k);
            },
            Value::SimpleString(s) => {
                assert(encode(v) =~= line(SIMPLE_STRING, s));
                lemma_line_cut(SIMPLE_STRING, s, k);
            },
            Value::BulkString(s) => {
                lemma_cut_bulk_needs_more(s, k);
            },
            Value::Error(_) => {},
            Value::Array(items) => {
                let text = decimal(items.len());
                let tail = encode_all(items);
                lemma_decimal_line(items.len());
                assert(encode(v) =~= line(ARRAY, text) + tail);
                if k < text.len() + 3 {
                    assert(buf =~= line(ARRAY, text).take(k));
                    lemma_line_cut(ARRAY, text, k);
                } else {
                    let m = k - text.len() - 3;
                    let cut = tail.take(m);
                    assert(buf =~= line(ARRAY, text) + cut);
                    lemma_line_end(ARRAY, text, cut);
                    lemma_cut_items_need_more(items, m);
                }
            },
        }
    }
}

/// A buffer that stops inside the wire forms of supported values that follow
/// one another asks for more bytes.
pub proof fn lemma_cut_items_need_more(items: Seq<Value>, k: int)
    requires
        forall|i: int| 0 <= i < items.len() ==> supported(#[trigger] items[i]),
        0 <= k < encode_all(items).len(),
    ensures
        decode_items(encode_all(items).take(k), items.len()) == Parsed::<
            Seq<Value>,
        >::NeedMoreData,
    decreases items,
{
    let buf = encode_all(items).take(k);
    if items.len() > 0 {
        let front = items.drop_last();
        let last = items.last();
        let used = encode_all(front).len();
        if k < used {
            assert(buf =~= encode_all(front).take(k));
            lemma_cut_items_need_more(front, k);
        } else {
            let cut = encode(last).take(k - used);
            assert(buf =~= encode_all(front) + cut);
            lemma_decode_encoded_items(front, cut);
            assert(rest_after(buf, used) =~= cut);
            lemma_cut_needs_more(last, k - used);
        }
    }
}

/// A decoded value takes at least one byte and no more bytes than the buffer
/// holds, and it is a supported value.
pub proof fn lemma_decoded(buf: Seq<u8>)
    ensures
        decode(buf) matches Parsed::Decoded(v, n) ==> 0 < n <= buf.len() && supported(v),
    decreases buf.len(), 1nat,
{
    if buf.len() > 0 {
        lemma_first_crlf(buf);
        if buf[0] == SIMPLE_STRING {
            if let Some(end) = first_crlf(buf) {
                let text = buf.subrange(1, end);
                assert forall|i: int| !is_crlf_at(text, i) by {
                    if is_crlf_at(text, i) {
                        assert(is_crlf_at(buf, i + 1));
                    }
                }
            }
        } else if buf[0] == ARRAY {
            if let Some(end) = first_crlf(buf) {
                if let Some(count) = parse_signed(buf.subrange(1, end)) {
                    if count >= 0 {
                        lemma_decoded_items(buf.skip(end + 2), count as nat);
                    }
                }
            }
        }
    }
}

/// Decoded values that follow one another are as many as were asked for, take
/// no more bytes than the buffer holds, and are supported values.
pub proof fn lemma_decoded_items(buf: Seq<u8>, count: nat)
    ensures
        decode_items(buf, count) matches Parsed::Decoded(items, n) ==> n <= buf.len()
            && items.len() == count && forall|i: int|
            0 <= i < items.len() ==> supported(#[trigger] items[i]),
    decreases buf.len(), count + 2,
{
    if count > 0 {
        lemma_decoded_items(buf, (count - 1) as nat);
        if let Parsed::Decoded(items, used) = decode_items(buf, (count - 1) as nat) {
            lemma_decoded(rest_after(buf, used));
        }
    }
}

/// The supported values are exactly those that their wire form gives back.
pub proof fn theorem_round_trip_exactly(v: Value)
    ensures
        supported(v) <==> decode(encode(v)) == Parsed::Decoded(v, encode(v).len()),
{
    if supported(v) {
        theorem_round_trip(v);
    }
    lemma_decoded(encode(v));
}

/// Whatever value a buffer decodes to, its own wire form decodes to it again.
pub proof fn theorem_decoded_round_trips(buf: Seq<u8>)
    ensures
        decode(buf) matches Parsed::Decoded(v, n) ==> decode(encode(v)) == Parsed::Decoded(
            v,
            encode(v).len(),
        ),
{
    lemma_decoded(buf);
    if let Parsed::Decoded(v, n) = decode(buf) {
        theorem_round_trip(v);
    }
}

/// The first line end of a buffer stays the first when the bytes after it
/// are cut off and others are put in their place.
pub proof fn lemma_first_crlf_kept(buf: Seq<u8>, n: int, other: Seq<u8>)
    requires
        first_crlf(buf) matches Some(end) && end + 2 <= n <= buf.len(),
    ensures
        first_crlf(buf.take(n) + other) == first_crlf(buf),
{
    lemma_first_crlf(buf);
    let end = first_crlf(buf)->0;
    let kept = buf.take(n) + other;
    assert(kept[end] == buf[end]);
    assert(kept[end + 1] == buf[end + 1]);
    assert forall|j: int| 0 <= j < end implies !is_crlf_at(kept, j) by {
        assert(kept[j] == buf[j]);
        assert(kept[j + 1] == buf[j + 1]);
        assert(!is_crlf_at(buf, j));
    }
    lemma_first_crlf_found(kept, end);
}

/// Decoding reads no byte beyond those that the value takes: with other
/// bytes after them, or none, the result is the same.
pub proof fn theorem_decode_reads_own_bytes(buf: Seq<u8>, other: Seq<u8>)
    ensures
        decode(buf) matches Parsed::Decoded(v, n) ==> decode(buf.take(n as int) + other)
            == decode(buf),
    decreases buf.len(), 1nat,
{
    if let Parsed::Decoded(v, n) = decode(buf) {
        lemma_decoded(buf);
        lemma_first_crlf(buf);
        let kept = buf.take(n as int) + other;
        let end = first_crlf(buf)->0;
        lemma_first_crlf_kept(buf, n as int, other);
        assert(kept[0] == buf[0]);
        assert(kept.subrange(1, end) =~= buf.subrange(1, end));
        if buf[0] == BULK_STRING {
            let len = parse_signed(buf.subrange(1, end))->0;
            if len >= 0 {
                let start = end + 2;
                assert(kept.subrange(start, start + len) =~= buf.subrange(start, start + len));
                assert(kept[start + len] == buf[start + len]);
                assert(kept[start + len + 1] == buf[start + len + 1]);
            }
        } else if buf[0] == ARRAY {
            let count = parse_signed(buf.subrange(1, end))->0;
            if count >= 0 {
                let rest = buf.skip(end + 2);
                lemma_decoded_items(rest, count as nat);
                lemma_decode_items_read_own_bytes(rest, count as nat, other);
                let used = n - end - 2;
                assert(kept.skip(end + 2) =~= rest.take(used) + other);
            }
        }
    }
}

/// Decoding values that follow one another reads no byte beyond those that
/// the values take.
pub proof fn lemma_decode_items_read_own_bytes(buf: Seq<u8>, count: nat, other: Seq<u8>)
    ensures
        decode_items(buf, count) matches Parsed::Decoded(items, n) ==> decode_items(
            buf.take(n as int) + other,
            count,
        ) == decode_items(buf, count),
    decreases buf.len(), count + 2,
{
    if let Parsed::Decoded(items, n) = decode_items(buf, count) {
        if count > 0 {
            let before = (count - 1) as nat;
            let used = decode_items(buf, before)->Decoded_1;
            let tail = rest_after(buf, used);
            let m = decode(tail)->Decoded_1;
            lemma_decoded_items(buf, before);
            lemma_decoded(tail);
            let kept = buf.take(n as int) + other;
            let own = buf.subrange(used as int, n as int);
            assert(kept =~= buf.take(used as int) + (own + other));
            lemma_decode_items_read_own_bytes(buf, before, own + other);
            assert(rest_after(kept, used) =~= tail.take(m as int) + other);
            theorem_decode_reads_own_bytes(tail, other);
        }
    }
}

/// Once decoding has decided, more bytes change nothing: a buffer that starts
/// with a whole value, or is malformed, stays so whatever is added to it.
pub proof fn theorem_decided_is_final(buf: Seq<u8>, more: Seq<u8>)
    ensures
        !(decode(buf) is NeedMoreData) ==> decode(buf + more) == decode(buf),
    decreases buf.len(), 1nat,
{
    if !(decode(buf) is NeedMoreData) && opens_value(buf) {
        let longer = buf + more;
        lemma_first_crlf(buf);
        let end = first_crlf(buf)->0;
        assert(buf.take(buf.len() as int) =~= buf);
        lemma_first_crlf_kept(buf, buf.len() as int, more);
        assert(longer[0] == buf[0]);
        assert(longer.subrange(1, end) =~= buf.subrange(1, end));
        if buf[0] == BULK_STRING {
            if let Some(len) = parse_signed(buf.subrange(1, end)) {
                if len >= 0 {
                    let start = end + 2;
                    assert(longer[start + len] == buf[start + len]);
                    assert(longer[start + len + 1] == buf[start + len + 1]);
                    assert(longer.subrange(start, start + len) =~= buf.subrange(
                        start,
                        start + len,
                    ));
                }
            }
        } else if buf[0] == ARRAY {
            if let Some(count) = parse_signed(buf.subrange(1, end)) {
                if count >= 0 {
                    lemma_decided_items_are_final(buf.skip(end + 2), count as nat, more);
                    assert(longer.skip(end + 2) =~= buf.skip(end + 2) + more);
                }
            }
        }
    }
}

/// Once decoding values that follow one another has decided, more bytes
/// change nothing.
pub proof fn lemma_decided_items_are_final(buf: Seq<u8>, count: nat, more: Seq<u8>)
    ensures
        !(decode_items(buf, count) is NeedMoreData) ==> decode_items(buf + more, count)
            == decode_items(buf, count),
    decreases buf.len(), count + 2,
{
    if count > 0 && !(decode_items(buf, count) is NeedMoreData) {
        let before = (count - 1) as nat;
        lemma_decided_items_are_final(buf, before, more);
        if let Parsed::Decoded(items, used) = decode_items(buf, before) {
            lemma_decoded_items(buf, before);
            assert(rest_after(buf + more, used) =~= rest_after(buf, used) + more);
            theorem_decided_is_final(rest_after(buf, used), more);
        }
    }
}

/// A read that completes the wire form of a supported value yields the value
/// and leaves the buffer empty.
pub proof fn lemma_read_completes(v: Value, k: int)
    requires
        supported(v),
        0 <= k < encode(v).len(),
    ensures
        read_step(encode(v).take(k), encode(v).skip(k)) == (
            Seq::<u8>::empty(),
            ReadStep::Frame(v),
        ),
{
    let wire = encode(v);
    theorem_round_trip(v);
    assert(wire.take(k) + wire.skip(k) =~= wire);
    assert(rest_after(wire, wire.len()) =~= Seq::<u8>::empty());
}

/// The bytes of `chunks`, one chunk after the other.
pub open spec fn joined(chunks: Seq<Seq<u8>>) -> Seq<u8>
    decreases chunks.len(),
{
    if chunks.len() == 0 {
        Seq::empty()
    } else {
        joined(chunks.drop_last()) + chunks.last()
    }
}

/// Read cycles that hand over `chunks`, one chunk per read: the bytes left in
/// the buffer at the end, and what each cycle yielded.
pub open spec fn read_chunks(buffer: Seq<u8>, chunks: Seq<Seq<u8>>) -> (Seq<u8>, Seq<ReadStep>)
    decreases chunks.len(),
{
    if chunks.len() == 0 {
        (buffer, Seq::empty())
    } else {
        let (held, yielded) = read_chunks(buffer, chunks.drop_last());
        let (left, step) = read_step(held, chunks.last());
        (left, yielded.push(step))
    }
}

/// While the chunks handed over stop inside the wire form of a supported
/// value, every cycle asks for more and the buffer keeps them all.
pub proof fn lemma_read_chunks_cut(v: Value, chunks: Seq<Seq<u8>>)
    requires
        supported(v),
        forall|i: int| 0 <= i < chunks.len() ==> (#[trigger] chunks[i]).len() > 0,
        joined(chunks).len() < encode(v).len(),
        joined(chunks) == encode(v).take(joined(chunks).len() as int),
    ensures
        read_chunks(Seq::empty(), chunks) == (
            joined(chunks),
            Seq::new(chunks.len(), |i: int| ReadStep::NeedMoreData),
        ),
    decreases chunks.len(),
{
    let waiting = Seq::new(chunks.len(), |i: int| ReadStep::NeedMoreData);
    if chunks.len() == 0 {
        assert(waiting =~= Seq::<ReadStep>::empty());
    } else {
        let front = chunks.drop_last();
        let k = joined(chunks).len() as int;
        assert(joined(front) =~= encode(v).take(joined(front).len() as int)) by {
            assert(joined(chunks) == joined(front) + chunks.last());
        }
        lemma_read_chunks_cut(v, front);
        lemma_cut_needs_more(v, k);
        assert(Seq::new(front.len(), |i: int| ReadStep::NeedMoreData).push(
            ReadStep::NeedMoreData,
        ) =~= waiting);
    }
}

/// The wire form of a supported value, handed to an empty frame reader in
/// chunks of any sizes but zero, yields the value once, with its last chunk,
/// and nothing before. The buffer is empty afterwards.
pub proof fn theorem_chunked_read(v: Value, chunks: Seq<Seq<u8>>)
    requires
        supported(v),
        forall|i: int| 0 <= i < chunks.len() ==> (#[trigger] chunks[i]).len() > 0,
        joined(chunks) == encode(v),
    ensures
        chunks.len() > 0,
        read_chunks(Seq::empty(), chunks) == (
            Seq::<u8>::empty(),
            Seq::new((chunks.len() - 1) as nat, |i: int| ReadStep::NeedMoreData).push(
                ReadStep::Frame(v),
            ),
        ),
{
    let wire = encode(v);
    theorem_round_trip(v);
    assert(wire.len() > 0);
    assert(chunks.len() > 0);
    let front = chunks.drop_last();
    let k = joined(front).len() as int;
    assert(wire == joined(front) + chunks.last());
    assert(joined(front) =~= wire.take(k));
    assert(chunks.last() =~= wire.skip(k));
    lemma_read_chunks_cut(v, front);
    lemma_read_completes(v, k);
}

/// The bytes of a buffer as chunks of one byte each.
pub open spec fn bytewise(bytes: Seq<u8>) -> Seq<Seq<u8>> {
    Seq::new(bytes.len(), |i: int| seq![bytes[i]])
}

/// Chunks of one byte each, joined, are the bytes they were made of.
pub proof fn lemma_joined_bytewise(bytes: Seq<u8>)
    ensures
        joined(bytewise(bytes)) == bytes,
    decreases bytes.len(),
{
    if bytes.len() == 0 {
        assert(bytes =~= Seq::<u8>::empty());
    } else {
        lemma_joined_bytewise(bytes.drop_last());
        assert(bytewise(bytes).drop_last() =~= bytewise(bytes.drop_last()));
        assert(bytes.drop_last() + seq![bytes.last()] =~= bytes);
    }
}

/// The wire form of a supported value, handed to an empty frame reader one
/// byte at a time, yields the value once, at its last byte, and nothing
/// before; handed over in one read it yields the same value. Either way the
/// buffer is empty afterwards.
pub proof fn theorem_bytewise_read(v: Value)
    requires
        supported(v),
    ensures
        encode(v).len() > 0,
        read_step(Seq::empty(), encode(v)) == (Seq::<u8>::empty(), ReadStep::Frame(v)),
        read_chunks(Seq::empty(), bytewise(encode(v))) == (
            Seq::<u8>::empty(),
            Seq::new((encode(v).len() - 1) as nat, |i: int| ReadStep::NeedMoreData).push(
                ReadStep::Frame(v),
            ),
        ),
{
    let wire = encode(v);
    theorem_round_trip(v);
    assert(wire.len() > 0);
    lemma_read_completes(v, 0);
    assert(wire.take(0) =~= Seq::<u8>::empty());
    assert(wire.skip(0) =~= wire);
    lemma_joined_bytewise(wire);
    theorem_chunked_read(v, bytewise(wire));
}

} // verus!
