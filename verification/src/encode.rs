//! Encoding: a value as its wire bytes.

use vstd::prelude::*;
use crate::decimal::{decimal_digits, push_digits, push_i64, MINUS};
use crate::line::{terminator, CR, LF};
use crate::value::{lemma_array_view, views, RespType, Value};
use crate::wire::{
    encode, encode_all, lemma_encode_all_push, TAG_ARRAY, TAG_BULK, TAG_ERROR, TAG_INTEGER,
    TAG_SIMPLE,
};

verus! {

/// Appends the two bytes that end a line to `out`.
fn push_terminator(out: &mut Vec<u8>)
    ensures
        final(out)@ == old(out)@ + terminator(),
{
    out.push(CR);
    out.push(LF);
    assert(final(out)@ =~= old(out)@ + terminator());
}

/// A tag, then the bytes of a text, then a line's end.
fn text_line(tag: u8, text: &String) -> (out: Vec<u8>)
    ensures
        out@ == seq![tag] + vstd::utf8::encode_utf8(text@) + terminator(),
{
    let mut out: Vec<u8> = Vec::new();
    out.push(tag);
    out.extend_from_slice(text.as_str().as_bytes());
    assert(out@ =~= seq![tag] + vstd::utf8::encode_utf8(text@));
    push_terminator(&mut out);
    out
}

impl RespType {
    /// The wire bytes of `self`: its tag, then a text or a number and a
    /// line's end; for a bulk string its length, a line's end, its bytes and
    /// a line's end, or `$-1` and a line's end for the null bulk string; for
    /// an array its length, a line's end, and the bytes of its items in their
    /// order. Nothing is looked for inside a text: one that holds a line's
    /// end is written as it is.
    pub fn as_bytes(&self) -> (out: Vec<u8>)
        ensures
            out@ == encode(self@),
        decreases self,
    {
        match self {
            RespType::SimpleString(text) => text_line(TAG_SIMPLE, text),
            RespType::Error(text) => text_line(TAG_ERROR, text),
            RespType::Integer(number) => {
                let mut out: Vec<u8> = Vec::new();
                out.push(TAG_INTEGER);
                push_i64(&mut out, *number);
                push_terminator(&mut out);
                out
            },
            RespType::BulkString(None) => {
                let mut out: Vec<u8> = Vec::new();
                out.push(TAG_BULK);
                out.push(MINUS);
                out.push(49u8);
                push_terminator(&mut out);
                assert(out@ =~= encode(self@));
                out
            },
            RespType::BulkString(Some(data)) => {
                let mut out: Vec<u8> = Vec::new();
                out.push(TAG_BULK);
                push_digits(&mut out, data.len() as u64);
                push_terminator(&mut out);
                out.extend_from_slice(data.as_slice());
                assert(out@ =~= seq![TAG_BULK] + decimal_digits(data@.len())
                    + terminator() + data@);
                push_terminator(&mut out);
                out
            },
            RespType::Array(items) => {
                let mut out: Vec<u8> = Vec::new();
                out.push(TAG_ARRAY);
                push_digits(&mut out, items.len() as u64);
                push_terminator(&mut out);
                let ghost header = out@;
                let ghost values = views(items@);
                proof {
                    lemma_array_view(*items);
                    assert(values.take(0) =~= Seq::<Value>::empty());
                    assert(out@ =~= header + encode_all(values.take(0)));
                }
                let mut i: usize = 0;
                while i < items.len()
                    invariant
                        i <= items.len(),
                        self is Array,
                        self->Array_0 == *items,
                        values == views(items@),
                        out@ == header + encode_all(values.take(i as int)),
                    decreases items.len() - i,
                {
                    let mut piece = items[i].as_bytes();
                    out.append(&mut piece);
                    proof {
                        lemma_encode_all_push(values.take(i as int), values[i as int]);
                        assert(values.take(i + 1) =~= values.take(i as int).push(values[i as int]));
                        assert(out@ =~= header + encode_all(values.take(i + 1)));
                    }
                    i = i + 1;
                }
                assert(values.take(items.len() as int) =~= values);
                out
            },
        }
    }
}

} // verus!
