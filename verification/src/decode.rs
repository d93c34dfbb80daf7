//! Decoding: one value off the front of a buffer.

use vstd::prelude::*;
use vstd::slice::{slice_subrange, slice_to_vec};
use crate::decimal::parse_i64;
use crate::line::{
    is_line_end, lemma_split_line_at, lemma_split_line_none, lemma_split_line_shape, split_line,
    terminator_at, CR, LF,
};
use crate::text::text_from_bytes;
use crate::value::{lemma_array_view, views, ParseError, RespType, Value};
use crate::wire::{
    element_count, lemma_parse_progress, parse, parse_array, parse_bulk, parse_items,
    parse_number, parse_text, TAG_ARRAY, TAG_BULK, TAG_ERROR, TAG_INTEGER, TAG_SIMPLE,
};

verus! {

/// What a decoder returned, as mathematics: the rest and the value by their
/// views, an error as it is.
pub open spec fn decoded(r: Result<(&[u8], RespType), ParseError>) -> Result<
    (Seq<u8>, Value),
    ParseError,
> {
    match r {
        Ok((rest, value)) => Ok((rest@, value@)),
        Err(e) => Err(e),
    }
}

/// What `r` holds, with `first` put before its values; an error as it is.
pub open spec fn prefixed(first: Seq<Value>, r: Result<(Seq<u8>, Seq<Value>), ParseError>) -> Result<
    (Seq<u8>, Seq<Value>),
    ParseError,
> {
    match r {
        Ok((rest, others)) => Ok((rest, first + others)),
        Err(e) => Err(e),
    }
}

impl RespType {
    /// Decodes the value at the front of `bytes` and returns, first, the
    /// bytes that follow it, and then the value.
    ///
    /// The first byte says what follows: `+` a line of text, `-` a line of
    /// text that is an error reply, `:` a line with a decimal number, `$` a
    /// size line and a payload of that many bytes, `*` a size line and that
    /// many values. An empty buffer, a line without its end, a payload or an
    /// array that is cut short give `UnexpectedEof`; a line that is not
    /// UTF-8 gives `FromUtf8Error`; a number that is none, or does not fit
    /// in 64 bits, gives `ParseIntError`; any other first byte gives
    /// `UnexpectedByte` with that byte. What is left is always a proper end
    /// piece of `bytes`.
    pub fn from_bytes(bytes: &[u8]) -> (r: Result<(&[u8], RespType), ParseError>)
        ensures
            decoded(r) == parse(bytes@),
            match r {
                Ok((rest, _)) => rest@.len() < bytes@.len() && rest@ == bytes@.skip(
                    bytes@.len() - rest@.len(),
                ),
                Err(e) => e != ParseError::UnforeseenError,
            },
        decreases bytes@.len(),
    {
        proof {
            lemma_parse_progress(bytes@);
        }
        let n: usize = bytes.len();
        if n == 0 {
            return Err(ParseError::UnexpectedEof);
        }
        let tag: u8 = bytes[0];
        let body = slice_subrange(bytes, 1, n);
        assert(body@ == bytes@.skip(1));
        if tag == TAG_SIMPLE {
            Self::read_string(body)
        } else if tag == TAG_ERROR {
            match Self::read_string(body) {
                Ok((rest, RespType::SimpleString(text))) => Ok((rest, RespType::Error(text))),
                Ok(_) => Err(ParseError::UnforeseenError),
                Err(e) => Err(e),
            }
        } else if tag == TAG_INTEGER {
            match Self::read_number(body) {
                Ok((rest, number)) => Ok((rest, RespType::Integer(number))),
                Err(e) => Err(e),
            }
        } else if tag == TAG_BULK {
            Self::read_bulk_string(body)
        } else if tag == TAG_ARRAY {
            Self::read_array(body)
        } else {
            Err(ParseError::UnexpectedByte(tag))
        }
    }

    /// Reads a line of text and returns what follows the line, and the
    /// text as a simple string.
    pub fn read_string(bytes: &[u8]) -> (r: Result<(&[u8], RespType), ParseError>)
        ensures
            match r {
                Ok((rest, value)) => value is SimpleString && parse_text(bytes@) == Ok::<
                    _,
                    ParseError,
                >((rest@, value->SimpleString_0@)),
                Err(e) => parse_text(bytes@) == Err::<(Seq<u8>, Seq<char>), _>(e),
            },
    {
        let (remaining, line) = Self::read_line(bytes)?;
        let text = text_from_bytes(line)?;
        Ok((remaining, RespType::SimpleString(text)))
    }

    /// Reads a line that holds a decimal number and returns what follows the
    /// line, and the number. The line has to be UTF-8 before it is looked at
    /// as a number.
    pub fn read_number(bytes: &[u8]) -> (r: Result<(&[u8], i64), ParseError>)
        ensures
            match r {
                Ok((rest, number)) => parse_number(bytes@) == Ok::<_, ParseError>((rest@, number)),
                Err(e) => parse_number(bytes@) == Err::<(Seq<u8>, i64), _>(e),
            },
    {
        let (remaining, line) = Self::read_line(bytes)?;
        let ghost line_bytes = line@;
        let text = text_from_bytes(line)?;
        proof {
            vstd::utf8::decode_utf8_encode_utf8(line_bytes);
        }
        match parse_i64(text.as_str().as_bytes()) {
            Some(number) => Ok((remaining, number)),
            None => Err(ParseError::ParseIntError),
        }
    }

    /// Reads a bulk string that has lost its tag: the size line, then the
    /// payload and the two bytes behind it, which may be any two bytes. The
    /// size -1 gives the null bulk string and takes the size line only.
    pub fn read_bulk_string(bytes: &[u8]) -> (r: Result<(&[u8], RespType), ParseError>)
        ensures
            decoded(r) == parse_bulk(bytes@),
    {
        let (remaining, size) = Self::read_number(bytes)?;
        if size == -1 {
            return Ok((remaining, RespType::BulkString(None)));
        }
        let available: usize = remaining.len();
        if size < 0 || available < 2 || size as u64 > (available - 2) as u64 {
            return Err(ParseError::UnexpectedEof);
        }
        let length: usize = size as usize;
        let bulk_data = slice_to_vec(slice_subrange(remaining, 0, length));
        let rest = slice_subrange(remaining, length + 2, available);
        Ok((rest, RespType::BulkString(Some(bulk_data))))
    }

    /// Reads an array that has lost its tag: the size line, then as many
    /// values as it announces, none where the size is negative. The first
    /// value that fails to decode ends the reading with its error.
    pub fn read_array(bytes: &[u8]) -> (r: Result<(&[u8], RespType), ParseError>)
        ensures
            decoded(r) == parse_array(bytes@),
        decreases bytes@.len(),
    {
        let (start, size) = Self::read_number(bytes)?;
        proof {
            lemma_split_line_shape(bytes@);
        }
        let count: u64 = if size < 0 { 0 } else { size as u64 };
        let mut remaining = start;
        let mut items: Vec<RespType> = Vec::new();
        let mut i: u64 = 0;
        while i < count
            invariant
                i <= count,
                count == element_count(size),
                remaining@.len() <= start@.len(),
                start@.len() < bytes@.len(),
                parse_number(bytes@) == Ok::<_, ParseError>((start@, size)),
                parse_items(start@, count as nat) == prefixed(
                    views(items@),
                    parse_items(remaining@, (count - i) as nat),
                ),
            decreases count - i,
        {
            proof {
                lemma_parse_progress(remaining@);
            }
            let ghost before = views(items@);
            let ghost left = remaining@;
            match Self::from_bytes(remaining) {
                Ok((rest, value)) => {
                    remaining = rest;
                    items.push(value);
                    proof {
                        assert(views(items@) =~= before + seq![value@]);
                        let next = parse_items(rest@, (count - i - 1) as nat);
                        match next {
                            Ok((_, others)) => {
                                assert(before + (seq![value@] + others) =~= views(items@) + others);
                            },
                            Err(_) => {},
                        }
                    }
                },
                Err(e) => {
                    assert(parse_items(left, (count - i) as nat) == Err::<
                        (Seq<u8>, Seq<Value>),
                        _,
                    >(e));
                    return Err(e);
                },
            }
            i = i + 1;
        }
        proof {
            lemma_array_view(items);
            assert(views(items@) + Seq::<Value>::empty() =~= views(items@));
        }
        Ok((remaining, RespType::Array(items)))
    }

    /// Cuts the first line off `bytes`: returns what follows the line's end,
    /// and the line without its end. A carriage return or a line feed alone
    /// ends no line.
    pub fn read_line(bytes: &[u8]) -> (r: Result<(&[u8], Vec<u8>), ParseError>)
        ensures
            match r {
                Ok((rest, line)) => split_line(bytes@) == Some((rest@, line@)),
                Err(e) => split_line(bytes@) is None && e == ParseError::UnexpectedEof,
            },
    {
        let n: usize = bytes.len();
        let mut i: usize = 0;
        while i < n && i + 1 < n
            invariant
                n == bytes@.len(),
                forall|j: int| 0 <= j < i ==> !terminator_at(bytes@, j),
            decreases n - i,
        {
            if bytes[i] == CR && bytes[i + 1] == LF {
                proof {
                    assert(is_line_end(bytes@, i as int));
                    lemma_split_line_at(bytes@, i as int);
                }
                let line = slice_to_vec(slice_subrange(bytes, 0, i));
                let remaining = slice_subrange(bytes, i + 2, n);
                return Ok((remaining, line));
            }
            i = i + 1;
        }
        proof {
            lemma_split_line_none(bytes@);
        }
        Err(ParseError::UnexpectedEof)
    }
}

} // verus!
