//! Lines: a run of bytes up to the first carriage return that a line feed
//! follows.

use vstd::prelude::*;

verus! {

/// The byte of a carriage return.
pub const CR: u8 = 13;

/// The byte of a line feed.
pub const LF: u8 = 10;

/// The two bytes that end a line.
pub open spec fn terminator() -> Seq<u8> {
    seq![CR, LF]
}

/// Whether the two bytes of `s` from position `i` on are a line's end.
pub open spec fn terminator_at(s: Seq<u8>, i: int) -> bool {
    0 <= i && i + 1 < s.len() && s[i] == CR && s[i + 1] == LF
}

/// Whether `s` holds a line's end anywhere.
pub open spec fn has_terminator(s: Seq<u8>) -> bool {
    exists|i: int| terminator_at(s, i)
}

/// Whether the first line's end in `s` stands at position `i`.
pub open spec fn is_line_end(s: Seq<u8>, i: int) -> bool {
    terminator_at(s, i) && forall|j: int| 0 <= j < i ==> !terminator_at(s, j)
}

/// A pair: what follows the first line's end in `s`, and the first line
/// without its end. `None` where `s` holds no line's end.
pub open spec fn split_line(s: Seq<u8>) -> Option<(Seq<u8>, Seq<u8>)> {
    if exists|i: int| is_line_end(s, i) {
        let i = choose|i: int| is_line_end(s, i);
        Some((s.skip(i + 2), s.take(i)))
    } else {
        None
    }
}

/// Where the first line's end stands, the line and the rest are cut there.
pub proof fn lemma_split_line_at(s: Seq<u8>, i: int)
    requires
        is_line_end(s, i),
    ensures
        split_line(s) == Some((s.skip(i + 2), s.take(i))),
{
    let k = choose|k: int| is_line_end(s, k);
    if k < i {
        assert(!terminator_at(s, k));
    } else if i < k {
        assert(!terminator_at(s, i));
    }
}

/// Without a line's end there is no line.
pub proof fn lemma_split_line_none(s: Seq<u8>)
    requires
        !has_terminator(s),
    ensures
        split_line(s) is None,
{
    if exists|i: int| is_line_end(s, i) {
        let i = choose|i: int| is_line_end(s, i);
        assert(terminator_at(s, i));
    }
}

/// What `split_line` returns are a line without an end inside it and the
/// bytes behind that end, and the line is cut at the first end there is.
pub proof fn lemma_split_line_shape(s: Seq<u8>)
    ensures
        match split_line(s) {
            Some((rest, line)) => {
                &&& is_line_end(s, line.len() as int)
                &&& line == s.take(line.len() as int)
                &&& rest == s.skip(line.len() as int + 2)
                &&& rest.len() + line.len() + 2 == s.len()
            },
            None => !has_terminator(s),
        },
{
    if exists|i: int| is_line_end(s, i) {
        let i = choose|i: int| is_line_end(s, i);
        assert(s.take(i).len() == i);
    } else {
        if has_terminator(s) {
            let k = choose|k: int| terminator_at(s, k);
            lemma_first_terminator(s, k);
        }
    }
}

/// Where `s` holds a line's end at `k`, one of its ends is the first.
pub proof fn lemma_first_terminator(s: Seq<u8>, k: int)
    requires
        terminator_at(s, k),
    ensures
        exists|i: int| 0 <= i <= k && is_line_end(s, i),
    decreases k,
{
    if forall|j: int| 0 <= j < k ==> !terminator_at(s, j) {
        assert(is_line_end(s, k));
    } else {
        let j = choose|j: int| 0 <= j < k && terminator_at(s, j);
        lemma_first_terminator(s, j);
    }
}

/// A line that holds no end, then an end, then anything: the first line is
/// that line, and the rest is what follows its end.
pub proof fn lemma_split_line_concat(line: Seq<u8>, tail: Seq<u8>)
    requires
        !has_terminator(line),
    ensures
        split_line(line + terminator() + tail) == Some((tail, line)),
{
    let s = line + terminator() + tail;
    let n = line.len() as int;
    assert(terminator_at(s, n));
    assert forall|j: int| 0 <= j < n implies !terminator_at(s, j) by {
        if terminator_at(s, j) {
            if j + 1 < n {
                assert(terminator_at(line, j));
            } else {
                assert(s[j + 1] == CR);
            }
        }
    }
    lemma_split_line_at(s, n);
    assert(s.skip(n + 2) =~= tail);
    assert(s.take(n) =~= line);
}

} // verus!
