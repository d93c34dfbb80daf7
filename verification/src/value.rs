//! The typed value, the reasons a decode can fail, and the mathematical
//! model that the contracts of the codec speak of.

use vstd::prelude::*;

verus! {

/// Why a buffer could not be decoded.
#[derive(Debug, Clone, Copy, PartialEq, Eq, Structural)]
pub enum ParseError {
    /// The buffer ended before a line, a bulk payload or an array element was complete.
    UnexpectedEof,
    /// A line that has to be text is not valid UTF-8.
    FromUtf8Error,
    /// A size or integer line is not a decimal number that fits in 64 bits.
    ParseIntError,
    /// The first byte is none of the five type tags.
    UnexpectedByte(u8),
    /// Kept for states that the decoder cannot reach.
    UnforeseenError,
}

/// One protocol datum.
#[derive(Debug, PartialEq)]
pub enum RespType {
    /// A line of text.
    SimpleString(String),
    /// A line of text that reports an error.
    Error(String),
    /// A signed 64-bit number.
    Integer(i64),
    /// Any bytes, or `None` for the null bulk string.
    BulkString(Option<Vec<u8>>),
    /// Values in their order, arrays among them.
    Array(Vec<RespType>),
}

/// The mathematical value that a [`RespType`] stands for: texts as
/// sequences of characters, payloads as sequences of bytes, arrays as
/// sequences of values.
pub enum Value {
    SimpleString(Seq<char>),
    Error(Seq<char>),
    Integer(i64),
    BulkString(Option<Seq<u8>>),
    Array(Seq<Value>),
}

impl RespType {
    /// The value that `self` stands for. An array stands for the sequence of
    /// what its items stand for; the sequence is never asked for an index
    /// outside the items.
    pub open spec fn model(&self) -> Value
        decreases self,
    {
        match self {
            RespType::SimpleString(text) => Value::SimpleString(text@),
            RespType::Error(text) => Value::Error(text@),
            RespType::Integer(n) => Value::Integer(*n),
            RespType::BulkString(None) => Value::BulkString(None),
            RespType::BulkString(Some(data)) => Value::BulkString(Some(data@)),
            RespType::Array(items) => Value::Array(
                Seq::new(
                    items.len() as nat,
                    |i: int|
                        if 0 <= i < items.len() {
                            items[i].model()
                        } else {
                            Value::Array(Seq::empty())
                        },
                ),
            ),
        }
    }
}

impl View for RespType {
    type V = Value;

    open spec fn view(&self) -> Value {
        self.model()
    }
}

/// The values that `items` stand for, in their order.
pub open spec fn views(items: Seq<RespType>) -> Seq<Value> {
    Seq::new(items.len(), |i: int| items[i]@)
}

/// An array stands for the array of what its items stand for.
pub proof fn lemma_array_view(items: Vec<RespType>)
    ensures
        RespType::Array(items)@ == Value::Array(views(items@)),
{
    match RespType::Array(items).model() {
        Value::Array(s) => {
            assert(s.len() == items@.len());
            assert forall|i: int| 0 <= i < s.len() implies s[i] == items@[i]@ by {
                assert(s[i] == items[i].model());
            }
            assert(s =~= views(items@));
        },
        _ => {
            assert(false);
        },
    }
}

} // verus!
