//! What holds between encoding and decoding.

use vstd::prelude::*;
use vstd::utf8::*;
use crate::decimal::{
    decimal_digits, format_decimal, is_digit, lemma_format_bytes, lemma_parse_format, MINUS,
};
use crate::line::{
    CR, has_terminator, lemma_split_line_concat, lemma_split_line_none, lemma_split_line_shape,
    split_line, terminator, terminator_at,
};
use crate::value::{ParseError, Value};
use crate::wire::{
    element_count, encode, encode_all, lemma_parse_progress, parse, parse_items, parse_number,
    parse_text, TAG_ARRAY, TAG_ERROR, TAG_SIMPLE, well_formed,
};

verus! {

/// Bytes below 128 are valid UTF-8.
proof fn lemma_ascii_is_utf8(s: Seq<u8>)
    requires
        forall|i: int| 0 <= i < s.len() ==> #[trigger] s[i] < 128,
    ensures
        valid_utf8(s),
{
    let chars = Seq::new(s.len(), |i: int| s[i] as char);
    assert(is_ascii_chars(chars));
    is_ascii_chars_encode_utf8(chars);
    assert(encode_utf8(chars) =~= s);
    encode_utf8_valid_utf8(chars);
}

/// The decimal text of a number is valid UTF-8 and holds no line's end, not
/// even with a carriage return behind it.
proof fn lemma_format_is_line(n: int)
    ensures
        valid_utf8(format_decimal(n)),
        !has_terminator(format_decimal(n)),
        !has_terminator(format_decimal(n) + seq![CR]),
{
    let s = format_decimal(n);
    lemma_format_bytes(n);
    assert forall|i: int| 0 <= i < s.len() implies #[trigger] s[i] < 128 by {
        let b = format_decimal(n)[i];
        assert(is_digit(b) || b == MINUS);
    }
    lemma_ascii_is_utf8(s);
    assert forall|i: int| !terminator_at(s, i) by {
        if 0 <= i < s.len() {
            let b = format_decimal(n)[i];
            assert(is_digit(b) || b == MINUS);
        }
    }
    lemma_cr_ends_no_line(s);
}

/// A carriage return behind a line that holds no line's end makes none.
proof fn lemma_cr_ends_no_line(line: Seq<u8>)
    requires
        !has_terminator(line),
    ensures
        !has_terminator(line + seq![CR]),
{
    let s = line + seq![CR];
    assert forall|i: int| !terminator_at(s, i) by {
        if terminator_at(s, i) {
            if i + 1 < line.len() {
                assert(terminator_at(line, i));
            }
        }
    }
}

/// A text without a line's end, written as a line, is read back as itself.
proof fn lemma_text_line(text: Seq<char>, tail: Seq<u8>)
    requires
        !has_terminator(encode_utf8(text)),
    ensures
        parse_text(encode_utf8(text) + terminator() + tail) == Ok::<_, ParseError>((tail, text)),
{
    lemma_split_line_concat(encode_utf8(text), tail);
    encode_utf8_valid_utf8(text);
    encode_utf8_decode_utf8(text);
}

/// A number, written as a line, is read back as itself.
proof fn lemma_number_line(n: i64, tail: Seq<u8>)
    ensures
        parse_number(format_decimal(n as int) + terminator() + tail) == Ok::<_, ParseError>(
            (tail, n),
        ),
{
    lemma_format_is_line(n as int);
    lemma_split_line_concat(format_decimal(n as int), tail);
    lemma_parse_format(n);
}

/// An encoding has at least its tag.
proof fn lemma_encode_nonempty(v: Value)
    ensures
        encode(v).len() >= 1,
{
}

/// The encoding of a well-formed value, with anything behind it, decodes to
/// that value and leaves what stood behind it.
pub proof fn lemma_parse_encode(v: Value, tail: Seq<u8>)
    requires
        well_formed(v),
    ensures
        parse(encode(v) + tail) == Ok::<_, ParseError>((tail, v)),
    decreases v,
{
    let s = encode(v) + tail;
    match v {
        Value::SimpleString(text) => {
            assert(s.skip(1) =~= encode_utf8(text) + terminator() + tail);
            lemma_text_line(text, tail);
        },
        Value::Error(text) => {
            assert(s.skip(1) =~= encode_utf8(text) + terminator() + tail);
            lemma_text_line(text, tail);
        },
        Value::Integer(n) => {
            assert(s.skip(1) =~= format_decimal(n as int) + terminator() + tail);
            lemma_number_line(n, tail);
        },
        Value::BulkString(None) => {
            assert(decimal_digits(1) =~= seq![49u8]);
            assert(s.skip(1) =~= format_decimal(-1) + terminator() + tail);
            lemma_number_line(-1i64, tail);
        },
        Value::BulkString(Some(data)) => {
            let size = data.len() as i64;
            let rest = data + terminator() + tail;
            assert(s.skip(1) =~= format_decimal(size as int) + terminator() + rest);
            lemma_number_line(size, rest);
            assert(rest.skip(size + 2) =~= tail);
            assert(rest.take(size as int) =~= data);
        },
        Value::Array(items) => {
            let size = items.len() as i64;
            let rest = encode_all(items) + tail;
            assert(s.skip(1) =~= format_decimal(size as int) + terminator() + rest);
            lemma_number_line(size, rest);
            lemma_parse_encode_all(items, tail);
        },
    }
}

/// The encodings of well-formed values, one after another and with
/// anything behind them, decode to those values and leave what stood behind
/// them.
pub proof fn lemma_parse_encode_all(items: Seq<Value>, tail: Seq<u8>)
    requires
        forall|i: int| 0 <= i < items.len() ==> well_formed(#[trigger] items[i]),
    ensures
        parse_items(encode_all(items) + tail, items.len()) == Ok::<_, ParseError>((tail, items)),
    decreases items,
{
    let s = encode_all(items) + tail;
    if items.len() == 0 {
        assert(s =~= tail);
        assert(items =~= Seq::<Value>::empty());
    } else {
        let others = items.drop_first();
        let rest = encode_all(others) + tail;
        assert(s =~= encode(items[0]) + rest);
        lemma_parse_encode(items[0], rest);
        lemma_parse_progress(s);
        assert forall|i: int| 0 <= i < others.len() implies well_formed(#[trigger] others[i]) by {
            assert(others[i] == items[i + 1]);
        }
        lemma_parse_encode_all(others, tail);
        assert(seq![items[0]] + others =~= items);
    }
}

/// Round trip: the encoding of a well-formed value decodes to that value,
/// and nothing is left over.
pub proof fn round_trip(v: Value)
    requires
        well_formed(v),
    ensures
        parse(encode(v)) == Ok::<_, ParseError>((Seq::<u8>::empty(), v)),
{
    lemma_parse_encode(v, Seq::empty());
    assert(encode(v) + Seq::<u8>::empty() =~= encode(v));
}

/// Pipelining: where the encodings of two values stand one after the other,
/// with anything behind them, decoding takes the first value and leaves the
/// second encoding and what stood behind it.
pub proof fn pipelining(first: Value, second: Value, tail: Seq<u8>)
    requires
        well_formed(first),
    ensures
        parse(encode(first) + encode(second) + tail) == Ok::<_, ParseError>(
            (encode(second) + tail, first),
        ),
{
    lemma_parse_encode(first, encode(second) + tail);
    assert(encode(first) + encode(second) + tail =~= encode(first) + (encode(second) + tail));
}

/// Truncation: the encoding of a well-formed value without its last byte
/// does not decode, because the buffer ends too early.
pub proof fn truncation(v: Value)
    requires
        well_formed(v),
    ensures
        parse(encode(v).drop_last()) == Err::<(Seq<u8>, Value), _>(ParseError::UnexpectedEof),
    decreases v,
{
    let s = encode(v).drop_last();
    match v {
        Value::SimpleString(text) => {
            assert(s.skip(1) =~= encode_utf8(text) + seq![CR]);
            lemma_cr_ends_no_line(encode_utf8(text));
            lemma_split_line_none(s.skip(1));
        },
        Value::Error(text) => {
            assert(s.skip(1) =~= encode_utf8(text) + seq![CR]);
            lemma_cr_ends_no_line(encode_utf8(text));
            lemma_split_line_none(s.skip(1));
        },
        Value::Integer(n) => {
            assert(s.skip(1) =~= format_decimal(n as int) + seq![CR]);
            lemma_format_is_line(n as int);
            lemma_split_line_none(s.skip(1));
        },
        Value::BulkString(None) => {
            assert(decimal_digits(1) =~= seq![49u8]);
            assert(s.skip(1) =~= format_decimal(-1) + seq![CR]);
            lemma_format_is_line(-1);
            lemma_split_line_none(s.skip(1));
        },
        Value::BulkString(Some(data)) => {
            let size = data.len() as i64;
            let rest = data + seq![CR];
            assert(s.skip(1) =~= format_decimal(size as int) + terminator() + rest);
            lemma_number_line(size, rest);
        },
        Value::Array(items) => {
            let size = items.len() as i64;
            if items.len() == 0 {
                assert(encode_all(items) =~= Seq::<u8>::empty());
                assert(s.skip(1) =~= format_decimal(size as int) + seq![CR]);
                lemma_format_is_line(size as int);
                lemma_split_line_none(s.skip(1));
            } else {
                lemma_encode_all_nonempty(items);
                let rest = encode_all(items).drop_last();
                assert(s.skip(1) =~= format_decimal(size as int) + terminator() + rest);
                lemma_number_line(size, rest);
                truncation_all(items);
            }
        },
    }
}

/// The encodings of one value or more are not empty.
proof fn lemma_encode_all_nonempty(items: Seq<Value>)
    requires
        items.len() > 0,
    ensures
        encode_all(items).len() >= 1,
{
    lemma_encode_nonempty(items[0]);
}

/// The encodings of well-formed values, one after another and without the
/// last byte, do not decode to as many values, because the buffer ends too
/// early.
pub proof fn truncation_all(items: Seq<Value>)
    requires
        items.len() > 0,
        forall|i: int| 0 <= i < items.len() ==> well_formed(#[trigger] items[i]),
    ensures
        parse_items(encode_all(items).drop_last(), items.len()) == Err::<
            (Seq<u8>, Seq<Value>),
            _,
        >(ParseError::UnexpectedEof),
    decreases items,
{
    let s = encode_all(items).drop_last();
    let others = items.drop_first();
    lemma_encode_nonempty(items[0]);
    if others.len() == 0 {
        assert(encode_all(others) =~= Seq::<u8>::empty());
        assert(s =~= encode(items[0]).drop_last());
        truncation(items[0]);
    } else {
        lemma_encode_all_nonempty(others);
        let rest = encode_all(others).drop_last();
        assert(s =~= encode(items[0]) + rest);
        lemma_parse_encode(items[0], rest);
        lemma_parse_progress(s);
        assert forall|i: int| 0 <= i < others.len() implies well_formed(#[trigger] others[i]) by {
            assert(others[i] == items[i + 1]);
        }
        truncation_all(others);
    }
}

/// A line that `split_line` cut off holds no line's end.
proof fn lemma_line_has_no_terminator(s: Seq<u8>)
    ensures
        match split_line(s) {
            Some((_, line)) => !has_terminator(line),
            None => true,
        },
{
    lemma_split_line_shape(s);
    if let Some((_, line)) = split_line(s) {
        assert forall|j: int| !terminator_at(line, j) by {
            if terminator_at(line, j) {
                assert(terminator_at(s, j));
            }
        }
    }
}

/// Whatever decodes is well-formed: its texts hold no line's end, a bulk
/// string has as many bytes as its size line said, and an array as many
/// elements.
pub proof fn decoded_is_well_formed(s: Seq<u8>)
    ensures
        match parse(s) {
            Ok((_, v)) => well_formed(v),
            Err(_) => true,
        },
    decreases s.len(), 0nat,
{
    if s.len() > 0 {
        let body = s.skip(1);
        lemma_line_has_no_terminator(body);
        if s[0] == TAG_SIMPLE || s[0] == TAG_ERROR {
            if let Some((_, line)) = split_line(body) {
                if valid_utf8(line) {
                    decode_utf8_encode_utf8(line);
                }
            }
        } else if s[0] == TAG_ARRAY {
            if let Ok((rest, size)) = parse_number(body) {
                lemma_split_line_shape(body);
                decoded_are_well_formed(rest, element_count(size));
            }
        }
    }
}

/// Whatever values decode one after another are well-formed, and they are
/// as many as were asked for.
pub proof fn decoded_are_well_formed(s: Seq<u8>, count: nat)
    ensures
        match parse_items(s, count) {
            Ok((_, items)) => items.len() == count && forall|i: int|
                0 <= i < items.len() ==> well_formed(#[trigger] items[i]),
            Err(_) => true,
        },
    decreases s.len(), 1 + count,
{
    if count > 0 {
        decoded_is_well_formed(s);
        if let Ok((rest, first)) = parse(s) {
            if rest.len() < s.len() {
                decoded_are_well_formed(rest, (count - 1) as nat);
            }
        }
    }
}

/// Whatever decodes, encoded again, decodes to the same value with nothing
/// left over: also the empty array that a null array was read as.
pub proof fn decoded_round_trip(s: Seq<u8>)
    ensures
        match parse(s) {
            Ok((_, v)) => parse(encode(v)) == Ok::<_, ParseError>((Seq::<u8>::empty(), v)),
            Err(_) => true,
        },
{
    decoded_is_well_formed(s);
    if let Ok((_, v)) = parse(s) {
        round_trip(v);
    }
}

} // verus!
