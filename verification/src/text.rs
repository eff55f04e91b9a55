//! Positions in text, counted in bytes of its UTF-8 encoding.
//!
//! Search engines report where they matched as byte offsets. The functions here
//! say which characters lie between two such offsets, and cut a string there.

use vstd::prelude::*;
use vstd::string::*;
use vstd::utf8::*;

verus! {

/// The number of bytes that `s` occupies.
pub open spec fn utf8_len(s: Seq<char>) -> nat {
    encode_utf8(s).len()
}

/// A character of `s` starts at byte `at`, or `at` is the end of `s`.
pub open spec fn is_boundary(s: Seq<char>, at: int) -> bool {
    0 <= at <= utf8_len(s) && is_char_boundary(encode_utf8(s), at)
}

/// The bytes from `from` up to `to` hold a run of whole characters of `s`.
pub open spec fn is_span(s: Seq<char>, from: int, to: int) -> bool {
    from <= to && is_boundary(s, from) && is_boundary(s, to)
}

/// The characters of `s` that are encoded in the bytes from `from` up to `to`.
pub open spec fn slice(s: Seq<char>, from: int, to: int) -> Seq<char> {
    decode_utf8(encode_utf8(s).subrange(from, to))
}

/// The number of bytes that the first character of `s` occupies.
pub open spec fn first_width(s: Seq<char>) -> int {
    length_of_first_scalar(encode_utf8(s))
}

/// A span of a text is encoded by exactly the bytes it was cut from.
pub proof fn lemma_slice_bytes(s: Seq<char>, from: int, to: int)
    requires
        is_span(s, from, to),
    ensures
        valid_utf8(encode_utf8(s).subrange(from, to)),
        encode_utf8(slice(s, from, to)) == encode_utf8(s).subrange(from, to),
        utf8_len(slice(s, from, to)) == to - from,
{
    broadcast use group_utf8_lib;

    let bytes = encode_utf8(s);
    let head = bytes.subrange(0, to);
    assert(valid_utf8(head));
    assert(is_char_boundary(head, from)) by {
        if from < to {
            assert(head[from] == bytes[from]);
            is_char_boundary_iff_not_is_continuation_byte(bytes, from);
            is_char_boundary_iff_not_is_continuation_byte(head, from);
        } else {
            is_char_boundary_start_end_of_seq(head);
        }
    }
    valid_utf8_split(head, from);
    assert(head.subrange(from, head.len() as int) =~= bytes.subrange(from, to));
    decode_utf8_encode_utf8(bytes.subrange(from, to));
}

/// The whole text is the span from its first byte to its end.
pub proof fn lemma_slice_whole(s: Seq<char>)
    ensures
        is_span(s, 0, utf8_len(s) as int),
        slice(s, 0, utf8_len(s) as int) == s,
{
    broadcast use group_utf8_lib;

    let bytes = encode_utf8(s);
    is_char_boundary_start_end_of_seq(bytes);
    assert(bytes.subrange(0, bytes.len() as int) =~= bytes);
}

/// The encoding of two texts joined is the two encodings joined.
pub proof fn lemma_utf8_concat(a: Seq<char>, b: Seq<char>)
    ensures
        encode_utf8(a + b) == encode_utf8(a) + encode_utf8(b),
    decreases a.len(),
{
    if a.len() == 0 {
        assert(a + b =~= b);
        assert(encode_utf8(a) + encode_utf8(b) =~= encode_utf8(b));
    } else {
        lemma_utf8_concat(a.drop_first(), b);
        assert((a + b).drop_first() =~= a.drop_first() + b);
        assert(encode_utf8(a + b) =~= encode_utf8(a) + encode_utf8(b));
    }
}

/// Only the empty text occupies no bytes.
pub proof fn lemma_utf8_len_zero(s: Seq<char>)
    ensures
        utf8_len(s) == 0 <==> s.len() == 0,
{
    broadcast use group_utf8_lib;

    if s.len() > 0 {
        encode_utf8_first_scalar(s);
        assert(valid_utf8(encode_utf8(s)));
    }
}

/// The first character of a text ends at a boundary, and what follows it is the
/// text without that character.
pub proof fn lemma_first_width(s: Seq<char>)
    requires
        s.len() > 0,
    ensures
        1 <= first_width(s) <= utf8_len(s),
        is_boundary(s, first_width(s)),
        slice(s, first_width(s), utf8_len(s) as int) == s.drop_first(),
        forall|at: int| 0 < at < first_width(s) ==> !is_boundary(s, at),
{
    broadcast use group_utf8_lib;

    let bytes = encode_utf8(s);
    let w = first_width(s);
    encode_utf8_first_scalar(s);
    assert(valid_utf8(bytes));
    assert(pop_first_scalar(bytes) =~= encode_utf8(s.drop_first()));
    assert(1 <= w <= bytes.len());
    is_char_boundary_start_end_of_seq(pop_first_scalar(bytes));
    reveal_with_fuel(is_char_boundary, 2);
    assert(is_char_boundary(bytes, w));
    assert forall|at: int| 0 < at < w implies !is_boundary(s, at) by {
        assert(!is_char_boundary(bytes, at));
    }
}

/// A boundary of what follows a boundary of a text is a boundary of the text.
pub proof fn lemma_suffix_boundary(s: Seq<char>, from: int, at: int)
    requires
        is_boundary(s, from),
        is_boundary(slice(s, from, utf8_len(s) as int), at),
    ensures
        is_boundary(s, from + at),
{
    broadcast use group_utf8_lib;

    let bytes = encode_utf8(s);
    let len = bytes.len() as int;
    lemma_slice_whole(s);
    lemma_slice_bytes(s, from, len);
    let rest = encode_utf8(slice(s, from, len));
    if from + at < len {
        assert(rest[at] == bytes[from + at]);
        is_char_boundary_iff_not_is_continuation_byte(rest, at);
        is_char_boundary_iff_not_is_continuation_byte(bytes, from + at);
    }
}

/// The number of bytes that `text` occupies.
pub fn byte_len(text: &str) -> (len: usize)
    ensures
        len == utf8_len(text@),
{
    text.as_bytes().len()
}

/// Whether `from` and `to` delimit whole characters of `text`.
pub fn spans(text: &str, from: usize, to: usize) -> (ok: bool)
    ensures
        ok == is_span(text@, from as int, to as int),
{
    proof {
        broadcast use group_utf8_lib;

        assert(valid_utf8(encode_utf8(text@)));
    }
    from <= to && text.is_char_boundary(from) && text.is_char_boundary(to)
}

/// The part of `text` between two byte offsets that delimit whole characters.
pub fn substr<'a>(text: &'a str, from: usize, to: usize) -> (part: &'a str)
    requires
        is_span(text@, from as int, to as int),
    ensures
        part@ == slice(text@, from as int, to as int),
{
    proof {
        broadcast use group_utf8_lib;

        lemma_slice_bytes(text@, from as int, to as int);
        let bytes = encode_utf8(text@);
        let head = bytes.subrange(0, to as int);
        if from < to {
            assert(head[from as int] == bytes[from as int]);
            is_char_boundary_iff_not_is_continuation_byte(bytes, from as int);
            is_char_boundary_iff_not_is_continuation_byte(head, from as int);
        } else {
            is_char_boundary_start_end_of_seq(head);
        }
        assert(head.subrange(from as int, head.len() as int) =~= bytes.subrange(
            from as int,
            to as int,
        ));
    }
    let (head, _) = text.split_at(to);
    let (_, part) = head.split_at(from);
    part
}

/// The number of bytes of the first character of a text that is not empty.
pub fn width_of_first(text: &str) -> (width: usize)
    requires
        text@.len() > 0,
    ensures
        width == first_width(text@),
        1 <= width <= utf8_len(text@),
        is_boundary(text@, width as int),
{
    proof {
        lemma_first_width(text@);
    }
    let mut width: usize = 1;
    while !text.is_char_boundary(width)
        invariant
            1 <= width <= first_width(text@) <= utf8_len(text@),
            is_boundary(text@, first_width(text@)),
            forall|at: int| 0 < at < first_width(text@) ==> !is_boundary(text@, at),
        decreases first_width(text@) - width,
    {
        assert(!is_boundary(text@, width as int));
        width = width + 1;
    }
    assert(is_boundary(text@, width as int));
    width
}

/// A span cut in two at a boundary is its two pieces joined.
pub proof fn lemma_slice_split(s: Seq<char>, from: int, at: int, to: int)
    requires
        is_span(s, from, at),
        is_span(s, at, to),
    ensures
        slice(s, from, to) == slice(s, from, at) + slice(s, at, to),
{
    broadcast use group_utf8_lib;

    let bytes = encode_utf8(s);
    let sub = bytes.subrange(from, to);
    lemma_slice_bytes(s, from, to);
    assert(is_char_boundary(sub, at - from)) by {
        if at < to {
            assert(sub[at - from] == bytes[at]);
            is_char_boundary_iff_not_is_continuation_byte(bytes, at);
            is_char_boundary_iff_not_is_continuation_byte(sub, at - from);
        } else {
            is_char_boundary_start_end_of_seq(sub);
        }
    }
    decode_utf8_split(sub, at - from);
    assert(sub.subrange(0, at - from) =~= bytes.subrange(from, at));
    assert(sub.subrange(at - from, sub.len() as int) =~= bytes.subrange(at, to));
}

/// A span of a span of a text is a span of the text.
pub proof fn lemma_slice_nested(s: Seq<char>, from: int, to: int, a: int, b: int)
    requires
        is_span(s, from, to),
        is_span(slice(s, from, to), a, b),
    ensures
        slice(slice(s, from, to), a, b) == slice(s, from + a, from + b),
{
    let bytes = encode_utf8(s);
    lemma_slice_bytes(s, from, to);
    assert(bytes.subrange(from, to).subrange(a, b) =~= bytes.subrange(from + a, from + b));
}

/// Whether two texts are the same.
pub fn same_text(a: &str, b: &str) -> (same: bool)
    ensures
        same == (a@ == b@),
{
    let left = a.as_bytes();
    let right = b.as_bytes();
    proof {
        broadcast use group_utf8_lib;

        assert(decode_utf8(encode_utf8(a@)) == a@);
        assert(decode_utf8(encode_utf8(b@)) == b@);
    }
    if left.len() != right.len() {
        return false;
    }
    let mut at: usize = 0;
    while at < left.len()
        invariant
            at <= left@.len(),
            left@.len() == right@.len(),
            left@ == encode_utf8(a@),
            right@ == encode_utf8(b@),
            forall|i: int| 0 <= i < at ==> left@[i] == right@[i],
        decreases left@.len() - at,
    {
        if left[at] != right[at] {
            return false;
        }
        at = at + 1;
    }
    assert(left@ =~= right@);
    true
}

} // verus!
