//! The wire format as mathematics: the bytes that a value is written as,
//! and the value that stands at the front of a buffer.

use vstd::prelude::*;
use vstd::utf8::*;
use crate::decimal::{format_decimal, parse_decimal, MINUS};
use crate::line::{has_terminator, lemma_split_line_shape, split_line, terminator, CR, LF};
use crate::value::{ParseError, Value};

verus! {

/// The tag `+` of a simple string.
pub const TAG_SIMPLE: u8 = 43;

/// The tag `-` of an error.
pub const TAG_ERROR: u8 = 45;

/// The tag `:` of an integer.
pub const TAG_INTEGER: u8 = 58;

/// The tag `$` of a bulk string.
pub const TAG_BULK: u8 = 36;

/// The tag `*` of an array.
pub const TAG_ARRAY: u8 = 42;

/// The bytes `$-1\r\n` of the null bulk string.
pub open spec fn null_bulk() -> Seq<u8> {
    seq![TAG_BULK, MINUS, 49u8, CR, LF]
}

/// The bytes that `v` is written as.
pub open spec fn encode(v: Value) -> Seq<u8>
    decreases v,
{
    match v {
        Value::SimpleString(text) => seq![TAG_SIMPLE] + encode_utf8(text) + terminator(),
        Value::Error(text) => seq![TAG_ERROR] + encode_utf8(text) + terminator(),
        Value::Integer(n) => seq![TAG_INTEGER] + format_decimal(n as int) + terminator(),
        Value::BulkString(None) => null_bulk(),
        Value::BulkString(Some(data)) => seq![TAG_BULK] + format_decimal(data.len() as int)
            + terminator() + data + terminator(),
        Value::Array(items) => seq![TAG_ARRAY] + format_decimal(items.len() as int)
            + terminator() + encode_all(items),
    }
}

/// The encodings of `items`, one after another.
pub open spec fn encode_all(items: Seq<Value>) -> Seq<u8>
    decreases items,
{
    if items.len() == 0 {
        Seq::empty()
    } else {
        encode(items[0]) + encode_all(items.drop_first())
    }
}

/// Whether `v` can be written so that it is read back as itself: its texts
/// hold no line's end, and its lengths fit in a signed 64-bit number.
pub open spec fn well_formed(v: Value) -> bool
    decreases v,
{
    match v {
        Value::SimpleString(text) => !has_terminator(encode_utf8(text)),
        Value::Error(text) => !has_terminator(encode_utf8(text)),
        Value::Integer(_) => true,
        Value::BulkString(None) => true,
        Value::BulkString(Some(data)) => data.len() <= i64::MAX,
        Value::Array(items) => items.len() <= i64::MAX && forall|i: int|
            0 <= i < items.len() ==> well_formed(#[trigger] items[i]),
    }
}

/// A line of text at the front of `s`: what follows the line, and the text
/// that the line holds in UTF-8.
pub open spec fn parse_text(s: Seq<u8>) -> Result<(Seq<u8>, Seq<char>), ParseError> {
    match split_line(s) {
        None => Err(ParseError::UnexpectedEof),
        Some((rest, line)) => if valid_utf8(line) {
            Ok((rest, decode_utf8(line)))
        } else {
            Err(ParseError::FromUtf8Error)
        },
    }
}

/// A line with a decimal number at the front of `s`: what follows the line,
/// and the number. A line that is not UTF-8 is refused as such before it is
/// read as a number.
pub open spec fn parse_number(s: Seq<u8>) -> Result<(Seq<u8>, i64), ParseError> {
    match split_line(s) {
        None => Err(ParseError::UnexpectedEof),
        Some((rest, line)) => if !valid_utf8(line) {
            Err(ParseError::FromUtf8Error)
        } else {
            match parse_decimal(line) {
                None => Err(ParseError::ParseIntError),
                Some(n) => Ok((rest, n)),
            }
        },
    }
}

/// A bulk string without its tag at the front of `s`: a size line, then that
/// many bytes and two more, which are not looked at. The size -1 stands for
/// the null bulk string, which has no payload; under any other negative size
/// the buffer counts as ended too early.
pub open spec fn parse_bulk(s: Seq<u8>) -> Result<(Seq<u8>, Value), ParseError> {
    match parse_number(s) {
        Err(e) => Err(e),
        Ok((rest, size)) => if size == -1 {
            Ok((rest, Value::BulkString(None)))
        } else if size < 0 || rest.len() < size + 2 {
            Err(ParseError::UnexpectedEof)
        } else {
            Ok((rest.skip(size + 2), Value::BulkString(Some(rest.take(size as int)))))
        },
    }
}

/// An array without its tag at the front of `s`: a size line, then as many
/// values as it announces.
pub open spec fn parse_array(s: Seq<u8>) -> Result<(Seq<u8>, Value), ParseError>
    decreases s.len(), 1nat,
{
    match parse_number(s) {
        Err(e) => Err(e),
        Ok((rest, size)) => {
            proof {
                lemma_split_line_shape(s);
            }
            match parse_items(rest, element_count(size)) {
                Err(e) => Err(e),
                Ok((rest, items)) => Ok((rest, Value::Array(items))),
            }
        },
    }
}

/// The number of elements that an array's size line announces: a negative
/// size announces none.
pub open spec fn element_count(size: i64) -> nat {
    if size < 0 {
        0
    } else {
        size as nat
    }
}

/// The value at the front of `s`, and before it the bytes that follow the
/// value; or the reason why there is none.
pub open spec fn parse(s: Seq<u8>) -> Result<(Seq<u8>, Value), ParseError>
    decreases s.len(), 2nat,
{
    if s.len() == 0 {
        Err(ParseError::UnexpectedEof)
    } else if s[0] == TAG_SIMPLE {
        match parse_text(s.skip(1)) {
            Err(e) => Err(e),
            Ok((rest, text)) => Ok((rest, Value::SimpleString(text))),
        }
    } else if s[0] == TAG_ERROR {
        match parse_text(s.skip(1)) {
            Err(e) => Err(e),
            Ok((rest, text)) => Ok((rest, Value::Error(text))),
        }
    } else if s[0] == TAG_INTEGER {
        match parse_number(s.skip(1)) {
            Err(e) => Err(e),
            Ok((rest, n)) => Ok((rest, Value::Integer(n))),
        }
    } else if s[0] == TAG_BULK {
        parse_bulk(s.skip(1))
    } else if s[0] == TAG_ARRAY {
        parse_array(s.skip(1))
    } else {
        Err(ParseError::UnexpectedByte(s[0]))
    }
}

/// The `count` values at the front of `s`, one after another, and before
/// them the bytes that follow the last; or the reason why the first that is
/// missing is missing. A value takes at least one byte, so the error that is
/// kept for what cannot happen is never the result.
pub open spec fn parse_items(s: Seq<u8>, count: nat) -> Result<(Seq<u8>, Seq<Value>), ParseError>
    decreases s.len(), 3 + count,
{
    if count == 0 {
        Ok((s, Seq::empty()))
    } else {
        match parse(s) {
            Err(e) => Err(e),
            Ok((rest, first)) => if rest.len() < s.len() {
                match parse_items(rest, (count - 1) as nat) {
                    Err(e) => Err(e),
                    Ok((rest, others)) => Ok((rest, seq![first] + others)),
                }
            } else {
                Err(ParseError::UnforeseenError)
            },
        }
    }
}

/// What `parse` leaves is a proper end piece of what it was given, and it
/// never fails with the error that is kept for what cannot happen.
pub proof fn lemma_parse_progress(s: Seq<u8>)
    ensures
        match parse(s) {
            Ok((rest, _)) => rest.len() < s.len() && rest == s.skip(s.len() - rest.len()),
            Err(e) => e != ParseError::UnforeseenError,
        },
    decreases s.len(), 0nat,
{
    if s.len() > 0 {
        let body = s.skip(1);
        lemma_split_line_shape(body);
        if s[0] == TAG_SIMPLE || s[0] == TAG_ERROR || s[0] == TAG_INTEGER {
            if let Some((rest, line)) = split_line(body) {
                assert(rest =~= s.skip(s.len() - rest.len()));
            }
        } else if s[0] == TAG_BULK {
            if let Ok((rest, _)) = parse_bulk(body) {
                assert(rest =~= s.skip(s.len() - rest.len()));
            }
        } else if s[0] == TAG_ARRAY {
            if let Ok((after, size)) = parse_number(body) {
                lemma_parse_items_progress(after, element_count(size));
                if let Ok((rest, _)) = parse_items(after, element_count(size)) {
                    assert(rest =~= s.skip(s.len() - rest.len()));
                }
            }
        }
    }
}

/// What `parse_items` leaves is an end piece of what it was given, it
/// returns as many values as it was asked for, and it never fails with the
/// error that is kept for what cannot happen.
pub proof fn lemma_parse_items_progress(s: Seq<u8>, count: nat)
    ensures
        match parse_items(s, count) {
            Ok((rest, items)) => {
                &&& rest.len() <= s.len()
                &&& rest == s.skip(s.len() - rest.len())
                &&& items.len() == count
                &&& count > 0 ==> rest.len() < s.len()
            },
            Err(e) => e != ParseError::UnforeseenError,
        },
    decreases s.len(), 1 + count,
{
    if count == 0 {
        assert(s =~= s.skip(0));
    } else {
        lemma_parse_progress(s);
        if let Ok((after, _)) = parse(s) {
            lemma_parse_items_progress(after, (count - 1) as nat);
            if let Ok((rest, _)) = parse_items(after, (count - 1) as nat) {
                assert(rest =~= s.skip(s.len() - rest.len()));
            }
        }
    }
}

/// The encodings of a sequence with one more value at its end are those of
/// the sequence, then that of the value.
pub proof fn lemma_encode_all_push(items: Seq<Value>, last: Value)
    ensures
        encode_all(items.push(last)) == encode_all(items) + encode(last),
    decreases items.len(),
{
    let all = items.push(last);
    if items.len() == 0 {
        assert(all.drop_first() =~= items);
        assert(encode_all(items) =~= Seq::<u8>::empty());
        assert(encode_all(all) =~= encode_all(items) + encode(last));
    } else {
        lemma_encode_all_push(items.drop_first(), last);
        assert(all.drop_first() =~= items.drop_first().push(last));
        assert(encode_all(all) =~= encode_all(items) + encode(last));
    }
}

} // verus!
