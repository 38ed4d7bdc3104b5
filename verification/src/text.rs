//! Source text addressed by byte offsets.
//!
//! Captures are reported as byte ranges of the UTF-8 encoding of the source,
//! while tokens carry text. This module relates the two: which offsets may cut
//! a text, and what the text between two cuts is.

use vstd::prelude::*;
use vstd::string::StringSliceAdditionalSpecFns;
use vstd::utf8::*;

verus! {

broadcast use vstd::utf8::group_utf8_lib;

/// True when byte offset `index` falls between two characters of `source`, or
/// at one of its ends.
pub open spec fn is_cut(source: Seq<char>, index: int) -> bool {
    is_char_boundary(encode_utf8(source), index)
}

/// The part of `source` whose encoding occupies the bytes from `start` up to,
/// not including, `end`.
pub open spec fn byte_slice(source: Seq<char>, start: int, end: int) -> Seq<char> {
    decode_utf8(encode_utf8(source).subrange(start, end))
}

/// A cut lies within the encoding.
pub proof fn lemma_cut_in_bounds(source: Seq<char>, index: int)
    requires
        is_cut(source, index),
    ensures
        0 <= index <= encode_utf8(source).len(),
{
    lemma_boundary_in_bounds(encode_utf8(source), index);
}

proof fn lemma_boundary_in_bounds(bytes: Seq<u8>, index: int)
    requires
        valid_utf8(bytes),
        is_char_boundary(bytes, index),
    ensures
        0 <= index <= bytes.len(),
    decreases bytes.len(),
{
    if index != 0 {
        lemma_boundary_in_bounds(pop_first_scalar(bytes), index - length_of_first_scalar(bytes));
    }
}

/// A boundary of a byte sequence is still one after the bytes before an
/// earlier boundary and after a later one are dropped.
proof fn lemma_boundary_within(bytes: Seq<u8>, from: int, index: int, to: int)
    requires
        valid_utf8(bytes),
        is_char_boundary(bytes, from),
        is_char_boundary(bytes, index),
        is_char_boundary(bytes, to),
        from <= index <= to,
    ensures
        valid_utf8(bytes.subrange(from, to)),
        is_char_boundary(bytes.subrange(from, to), index - from),
{
    lemma_boundary_in_bounds(bytes, from);
    lemma_boundary_in_bounds(bytes, to);
    let head = bytes.subrange(0, to);
    valid_utf8_split(bytes, to);
    assert(is_char_boundary(head, from)) by {
        if from < to {
            is_char_boundary_iff_not_is_continuation_byte(bytes, from);
            is_char_boundary_iff_not_is_continuation_byte(head, from);
        } else {
            is_char_boundary_start_end_of_seq(head);
        }
    }
    valid_utf8_split(head, from);
    let piece = head.subrange(from, head.len() as int);
    assert(piece =~= bytes.subrange(from, to));
    if index < to {
        is_char_boundary_iff_not_is_continuation_byte(bytes, index);
        is_char_boundary_iff_not_is_continuation_byte(piece, index - from);
    } else {
        is_char_boundary_start_end_of_seq(piece);
    }
}

/// Two adjoining slices make up the slice that spans both.
pub proof fn lemma_byte_slice_join(source: Seq<char>, start: int, mid: int, end: int)
    requires
        is_cut(source, start),
        is_cut(source, mid),
        is_cut(source, end),
        start <= mid <= end,
    ensures
        byte_slice(source, start, mid) + byte_slice(source, mid, end) == byte_slice(
            source,
            start,
            end,
        ),
{
    let bytes = encode_utf8(source);
    lemma_boundary_in_bounds(bytes, start);
    lemma_boundary_in_bounds(bytes, end);
    lemma_boundary_within(bytes, start, mid, end);
    let piece = bytes.subrange(start, end);
    decode_utf8_split(piece, mid - start);
    assert(piece.subrange(0, mid - start) =~= bytes.subrange(start, mid));
    assert(piece.subrange(mid - start, piece.len() as int) =~= bytes.subrange(mid, end));
}

/// The slice from the first byte to the last is the whole text.
pub proof fn lemma_byte_slice_whole(source: Seq<char>)
    ensures
        is_cut(source, 0),
        is_cut(source, encode_utf8(source).len() as int),
        byte_slice(source, 0, encode_utf8(source).len() as int) == source,
{
    let bytes = encode_utf8(source);
    is_char_boundary_start_end_of_seq(bytes);
}

/// A slice between equal offsets is empty.
pub proof fn lemma_byte_slice_empty(source: Seq<char>, at: int)
    requires
        0 <= at <= encode_utf8(source).len(),
    ensures
        byte_slice(source, at, at) == Seq::<char>::empty(),
{
}

/// A slice between two different offsets is not empty.
pub proof fn lemma_byte_slice_nonempty(source: Seq<char>, start: int, end: int)
    requires
        is_cut(source, start),
        is_cut(source, end),
        start < end,
    ensures
        byte_slice(source, start, end).len() > 0,
{
    let bytes = encode_utf8(source);
    lemma_boundary_in_bounds(bytes, start);
    lemma_boundary_in_bounds(bytes, end);
    lemma_boundary_within(bytes, start, end, end);
    let piece = bytes.subrange(start, end);
    assert(encode_utf8(decode_utf8(piece)) == piece);
}

/// The byte that encodes the newline character.
pub const NEWLINE_BYTE: u8 = 10;

/// The number of characters of `text` before its first newline, which is the
/// length of `text` when it has none.
pub open spec fn first_newline(text: Seq<char>) -> int
    decreases text.len(),
{
    if text.len() == 0 || text[0] == '\n' {
        0
    } else {
        1 + first_newline(text.drop_first())
    }
}

/// `first_newline` is the least index that holds a newline.
pub proof fn lemma_first_newline(text: Seq<char>)
    ensures
        0 <= first_newline(text) <= text.len(),
        first_newline(text) < text.len() ==> text[first_newline(text)] == '\n',
        forall|i: int| 0 <= i < first_newline(text) ==> text[i] != '\n',
        first_newline(text) < text.len() <==> text.contains('\n'),
    decreases text.len(),
{
    if text.len() == 0 || text[0] == '\n' {
    } else {
        let rest = text.drop_first();
        lemma_first_newline(rest);
        assert forall|i: int| 0 <= i < first_newline(text) implies text[i] != '\n' by {
            if i > 0 {
                assert(text[i] == rest[i - 1]);
            }
        }
        if text.contains('\n') {
            let i = choose|i: int| 0 <= i < text.len() && text[i] == '\n';
            assert(rest[i - 1] == '\n');
        }
    }
}

/// A text built from a head without newlines, a newline, and a tail has its
/// first newline right after the head.
pub proof fn lemma_first_newline_at(head: Seq<char>, tail: Seq<char>)
    requires
        !head.contains('\n'),
    ensures
        first_newline(head + seq!['\n'] + tail) == head.len(),
        (head + seq!['\n'] + tail).take(head.len() as int) == head,
        (head + seq!['\n'] + tail).skip(head.len() as int + 1) == tail,
{
    let text = head + seq!['\n'] + tail;
    lemma_first_newline(text);
    assert(text[head.len() as int] == '\n');
    if first_newline(text) < head.len() {
        assert(head[first_newline(text)] == '\n');
    }
}

/// The number of newlines in `text`.
pub open spec fn newline_count(text: Seq<char>) -> nat
    decreases text.len(),
{
    if text.len() == 0 {
        0
    } else if text.last() == '\n' {
        newline_count(text.drop_last()) + 1
    } else {
        newline_count(text.drop_last())
    }
}

/// The newlines of a text are those of its parts.
pub proof fn lemma_newline_count_join(left: Seq<char>, right: Seq<char>)
    ensures
        newline_count(left + right) == newline_count(left) + newline_count(right),
    decreases right.len(),
{
    if right.len() > 0 {
        lemma_newline_count_join(left, right.drop_last());
        assert((left + right).drop_last() =~= left + right.drop_last());
    }
}

/// A text counts no newlines exactly when it holds none.
pub proof fn lemma_newline_count_zero(text: Seq<char>)
    ensures
        newline_count(text) == 0 <==> !text.contains('\n'),
    decreases text.len(),
{
    if text.len() > 0 {
        let before = text.drop_last();
        lemma_newline_count_zero(before);
        if text.last() != '\n' {
            if text.contains('\n') {
                let i = choose|i: int| 0 <= i < text.len() && text[i] == '\n';
                assert(before[i] == '\n');
            } else if before.contains('\n') {
                let i = choose|i: int| 0 <= i < before.len() && before[i] == '\n';
                assert(text[i] == '\n');
            }
        }
    }
}

/// The encoding of a text is the encoding of its parts, joined.
proof fn lemma_encode_join(left: Seq<char>, right: Seq<char>)
    ensures
        encode_utf8(left + right) == encode_utf8(left) + encode_utf8(right),
    decreases left.len(),
{
    if left.len() > 0 {
        lemma_encode_join(left.drop_first(), right);
        assert((left + right).drop_first() =~= left.drop_first() + right);
    }
}

/// The newline character is encoded as the single newline byte.
proof fn lemma_encode_newline()
    ensures
        encode_utf8(seq!['\n']) == seq![NEWLINE_BYTE],
        decode_utf8(seq![NEWLINE_BYTE]) == seq!['\n'],
{
    let text = seq!['\n'];
    assert(10u32 & 0x7F == 10u32) by (bit_vector);
    assert(encode_utf8(text.drop_first()) =~= Seq::<u8>::empty());
}

/// A text whose encoding holds no newline byte holds no newline.
proof fn lemma_no_newline_byte(text: Seq<char>)
    requires
        !encode_utf8(text).contains(NEWLINE_BYTE),
    ensures
        !text.contains('\n'),
{
    if text.contains('\n') {
        let i = choose|i: int| 0 <= i < text.len() && text[i] == '\n';
        let head = text.take(i);
        let tail = text.skip(i + 1);
        assert(text =~= head + seq!['\n'] + tail);
        lemma_encode_join(head + seq!['\n'], tail);
        lemma_encode_join(head, seq!['\n']);
        lemma_encode_newline();
        let bytes = encode_utf8(text);
        assert(bytes[encode_utf8(head).len() as int] == NEWLINE_BYTE);
    }
}

/// Where the encoding of a text first holds a newline byte, the text splits
/// into what the bytes before it encode, a newline, and what the bytes after
/// it encode.
proof fn lemma_split_at_newline_byte(text: Seq<char>, at: int)
    requires
        0 <= at < encode_utf8(text).len(),
        encode_utf8(text)[at] == NEWLINE_BYTE,
        forall|j: int| 0 <= j < at ==> encode_utf8(text)[j] != NEWLINE_BYTE,
    ensures
        is_cut(text, at),
        is_cut(text, at + 1),
        !byte_slice(text, 0, at).contains('\n'),
        text == byte_slice(text, 0, at) + seq!['\n'] + byte_slice(
            text,
            at + 1,
            encode_utf8(text).len() as int,
        ),
{
    let bytes = encode_utf8(text);
    let len = bytes.len() as int;
    is_char_boundary_iff_is_leading_byte(bytes, at);
    is_char_boundary_start_end_of_seq(bytes);
    let tail = bytes.subrange(at, len);
    valid_utf8_split(bytes, at);
    assert(is_char_boundary(tail, 1)) by {
        is_char_boundary_start_end_of_seq(pop_first_scalar(tail));
    }
    if at + 1 < len {
        is_char_boundary_iff_not_is_continuation_byte(tail, 1);
        is_char_boundary_iff_not_is_continuation_byte(bytes, at + 1);
    }

    let head = bytes.subrange(0, at);
    lemma_no_newline_byte(decode_utf8(head));

    lemma_byte_slice_whole(text);
    lemma_byte_slice_join(text, 0, at, len);
    lemma_byte_slice_join(text, at, at + 1, len);
    assert(bytes.subrange(at, at + 1) =~= seq![NEWLINE_BYTE]);
    lemma_encode_newline();
}

/// The byte offset of the first newline byte of `bytes`, if there is one.
fn find_newline_byte(bytes: &[u8]) -> (found: Option<usize>)
    ensures
        match found {
            Some(at) => {
                &&& at < bytes@.len()
                &&& bytes@[at as int] == NEWLINE_BYTE
                &&& forall|j: int| 0 <= j < at ==> bytes@[j] != NEWLINE_BYTE
            },
            None => !bytes@.contains(NEWLINE_BYTE),
        },
{
    let mut at: usize = 0;
    while at < bytes.len()
        invariant
            at <= bytes@.len(),
            forall|j: int| 0 <= j < at ==> bytes@[j] != NEWLINE_BYTE,
        decreases bytes@.len() - at,
    {
        if bytes[at] == NEWLINE_BYTE {
            return Some(at);
        }
        at += 1;
    }
    None
}

/// The text of `code` between two byte offsets that both cut it.
pub fn slice_between<'a>(code: &'a str, start: usize, end: usize) -> (piece: &'a str)
    requires
        start <= end,
        is_cut(code@, start as int),
        is_cut(code@, end as int),
    ensures
        piece@ == byte_slice(code@, start as int, end as int),
{
    let ghost bytes = code.spec_bytes();
    proof {
        lemma_boundary_in_bounds(bytes, end as int);
        is_char_boundary_start_end_of_seq(bytes);
        lemma_boundary_within(bytes, start as int, end as int, bytes.len() as int);
    }
    let (_, tail) = code.split_at(start);
    let (piece, _) = tail.split_at(end - start);
    proof {
        assert(piece.spec_bytes() =~= bytes.subrange(start as int, end as int));
    }
    piece
}

/// Cuts `text` at its first newline: the text before it and the text after
/// it, or `None` when `text` has no newline.
pub fn split_at_newline<'a>(text: &'a str) -> (parts: Option<(&'a str, &'a str)>)
    ensures
        match parts {
            Some((head, tail)) => {
                &&& text@.contains('\n')
                &&& head@ == text@.take(first_newline(text@))
                &&& tail@ == text@.skip(first_newline(text@) + 1)
            },
            None => !text@.contains('\n'),
        },
{
    let bytes = text.as_bytes();
    match find_newline_byte(bytes) {
        None => {
            proof {
                lemma_no_newline_byte(text@);
            }
            None
        },
        Some(at) => {
            proof {
                lemma_split_at_newline_byte(text@, at as int);
                lemma_byte_slice_whole(text@);
                lemma_first_newline_at(
                    byte_slice(text@, 0, at as int),
                    byte_slice(text@, at + 1, bytes@.len() as int),
                );
                assert(text@[byte_slice(text@, 0, at as int).len() as int] == '\n');
            }
            let len = bytes.len();
            let head = slice_between(text, 0, at);
            let tail = slice_between(text, at + 1, len);
            Some((head, tail))
        },
    }
}

} // verus!
