//! Reading gives back what was written: when the parts of a text are written
//! for the backend and the backend returns the text as it is, reading it
//! gives the same parts.
//!
//! This holds where the texts among the parts cannot be taken for tokens:
//! no text is empty, no two texts are neighbours, and no text holds a token
//! or begins one that the `Z` of a token behind it would complete.

use crate::placeholder::lemma_next_token_at;
use crate::placeholder::lemma_next_token_none;
use crate::placeholder::lemma_token_end_ahead;
use crate::placeholder::lemma_token_end_behind;
use crate::placeholder::lemma_token_written;
use crate::placeholder::head_of;
use crate::placeholder::next_token;
use crate::placeholder::placeholder;
use crate::placeholder::token_end;
use crate::placeholder::token_index;
use crate::schema::TermType;
use crate::text::lemma_utf8_concat;
use crate::text::slice;
use crate::text::utf8_len;
use crate::translator::parts::Segment;
use crate::translator::slots::decode_spec;
use crate::translator::slots::encode_spec;
use crate::translator::slots::expand;
use crate::translator::slots::lemma_next_token;
use vstd::prelude::*;
use vstd::utf8::*;

verus! {

/// No token starts in the text, nor one that a `Z` behind the text would
/// complete where something follows the text.
pub open spec fn quiet(text: Seq<char>, followed: bool) -> bool {
    next_token(
        if followed {
            encode_utf8(text).push(0x5a)
        } else {
            encode_utf8(text)
        },
        0,
    ) is None
}

/// The texts among the parts cannot be taken for tokens: none is empty, none
/// has a text as its neighbour, and each is quiet.
pub open spec fn separable(parts: Seq<Segment>) -> bool {
    forall|i: int|
        0 <= i < parts.len() && (#[trigger] parts[i]) is Text ==> {
            &&& parts[i]->Text_0.len() > 0
            &&& (i + 1 < parts.len() ==> parts[i + 1] is Term)
            &&& quiet(parts[i]->Text_0, i + 1 < parts.len())
        }
}

/// The text written for the first `i` parts.
pub open spec fn text_upto(parts: Seq<Segment>, i: int) -> Seq<char> {
    encode_spec(parts.take(i)).0
}

/// The slots made for the first `i` parts.
pub open spec fn slots_upto(parts: Seq<Segment>, i: int) -> Seq<Seq<(TermType, Seq<char>)>> {
    encode_spec(parts.take(i)).1
}

/// No run of terms goes on across the place `i`.
pub open spec fn run_border(parts: Seq<Segment>, i: int) -> bool {
    !(0 < i < parts.len() && parts[i - 1] is Term && parts[i] is Term)
}

/// Where the terms that stand at `i` and behind it end.
pub open spec fn run_stop(parts: Seq<Segment>, i: int) -> int
    decreases parts.len() - i,
{
    if 0 <= i < parts.len() && parts[i] is Term {
        run_stop(parts, i + 1)
    } else {
        i
    }
}

/// The terms from `i` up to `j`, as a slot holds them.
pub open spec fn run_terms(parts: Seq<Segment>, i: int, j: int) -> Seq<(TermType, Seq<char>)> {
    Seq::new((j - i) as nat, |m: int| (parts[i + m]->Term_0, parts[i + m]->Term_1))
}

/// Where a run of terms ends.
pub proof fn lemma_run_stop(parts: Seq<Segment>, i: int)
    requires
        0 <= i <= parts.len(),
    ensures
        i <= run_stop(parts, i) <= parts.len(),
        forall|m: int| i <= m < run_stop(parts, i) ==> (#[trigger] parts[m]) is Term,
        run_stop(parts, i) < parts.len() ==> parts[run_stop(parts, i)] is Text,
        i < parts.len() && parts[i] is Term ==> run_stop(parts, i) > i,
        run_border(parts, run_stop(parts, i)),
    decreases parts.len() - i,
{
    if i < parts.len() && parts[i] is Term {
        lemma_run_stop(parts, i + 1);
    }
}

/// What writing one more part adds to the text and to the slots.
pub proof fn lemma_encode_step(parts: Seq<Segment>, i: int)
    requires
        0 <= i < parts.len(),
    ensures
        parts[i] matches Segment::Text(text) ==> text_upto(parts, i + 1) == text_upto(parts, i)
            + text && slots_upto(parts, i + 1) == slots_upto(parts, i),
        parts[i] matches Segment::Term(ty, replacement) ==> slots_upto(parts, i + 1).len() > 0
            && if i > 0 && parts[i - 1] is Term {
            &&& slots_upto(parts, i).len() > 0
            &&& text_upto(parts, i + 1) == text_upto(parts, i)
            &&& slots_upto(parts, i + 1) == slots_upto(parts, i).update(
                slots_upto(parts, i).len() - 1,
                slots_upto(parts, i).last().push((ty, replacement)),
            )
        } else {
            &&& text_upto(parts, i + 1) == text_upto(parts, i) + placeholder(
                slots_upto(parts, i).len(),
            )
            &&& slots_upto(parts, i + 1) == slots_upto(parts, i).push(seq![(ty, replacement)])
        },
    decreases i,
{
    let longer = parts.take(i + 1);
    assert(longer.drop_last() =~= parts.take(i));
    assert(longer.last() == parts[i]);
    if i > 0 {
        assert(longer[longer.len() - 2] == parts[i - 1]);
        lemma_encode_step(parts, i - 1);
    }
}

/// What is written for the first parts is the start of what is written for
/// more of them.
pub proof fn lemma_text_prefix(parts: Seq<Segment>, i: int, j: int)
    requires
        0 <= i <= j <= parts.len(),
    ensures
        text_upto(parts, i).len() <= text_upto(parts, j).len(),
        text_upto(parts, j) == text_upto(parts, i) + text_upto(parts, j).skip(
            text_upto(parts, i).len() as int,
        ),
    decreases j - i,
{
    let short = text_upto(parts, i);
    if i == j {
        assert(short =~= short + short.skip(short.len() as int));
    } else {
        lemma_text_prefix(parts, i, j - 1);
        lemma_encode_step(parts, j - 1);
        let middle = text_upto(parts, j - 1);
        let long = text_upto(parts, j);
        assert(long.len() >= middle.len());
        assert(long.take(middle.len() as int) =~= middle);
        assert(long =~= short + long.skip(short.len() as int));
    }
}

/// The slots made up to a place where no run goes on stay as they are when
/// more parts are written.
pub proof fn lemma_slots_prefix(parts: Seq<Segment>, i: int, j: int)
    requires
        0 <= i <= j <= parts.len(),
        run_border(parts, i),
    ensures
        slots_upto(parts, i).len() <= slots_upto(parts, j).len(),
        slots_upto(parts, j).take(slots_upto(parts, i).len() as int) == slots_upto(parts, i),
        j > i && parts[j - 1] is Term ==> slots_upto(parts, j).len() > slots_upto(parts, i).len(),
    decreases j - i,
{
    let short = slots_upto(parts, i);
    if i == j {
        assert(short.take(short.len() as int) =~= short);
    } else {
        lemma_slots_prefix(parts, i, j - 1);
        lemma_encode_step(parts, j - 1);
        let middle = slots_upto(parts, j - 1);
        let long = slots_upto(parts, j);
        assert(long.take(short.len() as int) =~= middle.take(short.len() as int));
    }
}

/// A run of terms adds one token to the text and one slot, which holds the
/// run.
pub proof fn lemma_run(parts: Seq<Segment>, i: int, j: int)
    requires
        0 <= i < j <= parts.len(),
        run_border(parts, i),
        forall|m: int| i <= m < j ==> (#[trigger] parts[m]) is Term,
    ensures
        text_upto(parts, j) == text_upto(parts, i) + placeholder(slots_upto(parts, i).len()),
        slots_upto(parts, j) == slots_upto(parts, i).push(run_terms(parts, i, j)),
    decreases j - i,
{
    lemma_encode_step(parts, j - 1);
    assert(parts[j - 1] is Term);
    if j == i + 1 {
        assert(run_terms(parts, i, j) =~= seq![(parts[i]->Term_0, parts[i]->Term_1)]);
    } else {
        assert(parts[j - 2] is Term);
        lemma_run(parts, i, j - 1);
        let before = slots_upto(parts, i);
        let held = run_terms(parts, i, j - 1);
        assert(held.push((parts[j - 1]->Term_0, parts[j - 1]->Term_1)) =~= run_terms(parts, i, j));
        assert(before.push(held).update(before.len() as int, run_terms(parts, i, j))
            =~= before.push(run_terms(parts, i, j)));
    }
}

/// The terms of a slot that holds a run are the terms of the run.
pub proof fn lemma_expand_run(
    parts: Seq<Segment>,
    slots: Seq<Seq<(TermType, Seq<char>)>>,
    index: nat,
    i: int,
    j: int,
)
    requires
        0 <= i <= j <= parts.len(),
        forall|m: int| i <= m < j ==> (#[trigger] parts[m]) is Term,
        index < slots.len(),
        slots[index as int] == run_terms(parts, i, j),
    ensures
        expand(slots, index) == parts.subrange(i, j),
{
    assert(expand(slots, index) =~= parts.subrange(i, j)) by {
        assert forall|m: int| 0 <= m < j - i implies expand(slots, index)[m] == parts.subrange(
            i,
            j,
        )[m] by {
            assert(parts[i + m] is Term);
        }
    }
}

/// The bytes of three texts joined are their bytes joined.
pub proof fn lemma_utf8_concat3(a: Seq<char>, b: Seq<char>, c: Seq<char>)
    ensures
        encode_utf8(a + b + c) == encode_utf8(a) + encode_utf8(b) + encode_utf8(c),
        encode_utf8(a + b) == encode_utf8(a) + encode_utf8(b),
{
    lemma_utf8_concat(a, b);
    lemma_utf8_concat(a + b, c);
}

/// A quiet text at the end of what was written is read as that text.
pub proof fn lemma_read_last_text(
    before: Seq<char>,
    text: Seq<char>,
    slots: Seq<Seq<(TermType, Seq<char>)>>,
)
    requires
        text.len() > 0,
        quiet(text, false),
    ensures
        decode_spec(before + text, slots, utf8_len(before) as int) == seq![Segment::Text(text)],
{
    let written = before + text;
    let bytes = encode_utf8(written);
    let ahead = encode_utf8(before);
    let here = encode_utf8(text);
    let off = ahead.len() as int;
    lemma_utf8_concat(before, text);
    crate::text::lemma_utf8_len_zero(text);
    lemma_next_token(here, 0);
    assert forall|p: int| off <= p < bytes.len() implies token_end(bytes, p) is None by {
        lemma_token_end_behind(ahead, here, p - off);
    }
    lemma_next_token_none(bytes, off);
    assert(bytes.subrange(off, bytes.len() as int) =~= here);
    encode_utf8_decode_utf8(text);
}

/// A token in what was written is read as the terms of its slot, and then
/// what stands behind it is read.
pub proof fn lemma_read_token(
    before: Seq<char>,
    index: nat,
    behind: Seq<char>,
    slots: Seq<Seq<(TermType, Seq<char>)>>,
)
    ensures
        decode_spec(before + placeholder(index) + behind, slots, utf8_len(before) as int)
            == expand(slots, index) + decode_spec(
            before + placeholder(index) + behind,
            slots,
            utf8_len(before + placeholder(index)) as int,
        ),
{
    let written = before + placeholder(index) + behind;
    let bytes = encode_utf8(written);
    let ahead = encode_utf8(before);
    let marked = encode_utf8(placeholder(index));
    let after = encode_utf8(behind);
    let off = ahead.len() as int;
    lemma_utf8_concat3(before, placeholder(index), behind);
    lemma_token_written(ahead, index, after);
    lemma_next_token_at(bytes, off, off);
    assert(Seq::<Segment>::empty() + expand(slots, index) =~= expand(slots, index));
}

/// A quiet text and the token behind it are read as that text and the terms
/// of the token's slot, and then what stands behind the token is read.
pub proof fn lemma_read_text_and_token(
    before: Seq<char>,
    text: Seq<char>,
    index: nat,
    behind: Seq<char>,
    slots: Seq<Seq<(TermType, Seq<char>)>>,
)
    requires
        text.len() > 0,
        quiet(text, true),
    ensures
        decode_spec(before + text + placeholder(index) + behind, slots, utf8_len(before) as int)
            == seq![Segment::Text(text)] + expand(slots, index) + decode_spec(
            before + text + placeholder(index) + behind,
            slots,
            utf8_len(before + text + placeholder(index)) as int,
        ),
{
    let written = before + text + placeholder(index) + behind;
    let bytes = encode_utf8(written);
    let ahead = encode_utf8(before);
    let here = encode_utf8(text);
    let marked = encode_utf8(placeholder(index));
    let after = encode_utf8(behind);
    let off = ahead.len() as int;
    let at = off + here.len();
    lemma_utf8_concat(before, text);
    lemma_utf8_concat3(before + text, placeholder(index), behind);
    crate::text::lemma_utf8_len_zero(text);
    assert(bytes == ahead + here + marked + after);
    lemma_token_written(ahead + here, index, after);
    let rest = marked + after;
    assert(rest[0] == 0x5a);
    assert(head_of(rest) =~= seq![0x5au8]);
    assert(here + head_of(rest) =~= here.push(0x5a));
    assert(bytes =~= ahead + (here + rest));
    lemma_next_token(here.push(0x5a), 0);
    assert forall|p: int| off <= p < at implies token_end(bytes, p) is None by {
        lemma_token_end_behind(ahead, here + rest, p - off);
        lemma_token_end_ahead(here, rest, p - off);
    }
    lemma_next_token_at(bytes, off, at);
    assert(bytes.subrange(off, at) =~= here);
    encode_utf8_decode_utf8(text);
}

/// What a run of terms that starts at `start` leaves in what is written for
/// all the parts: its token, behind what was written before it, and its slot.
pub proof fn lemma_run_written(parts: Seq<Segment>, start: int)
    requires
        0 <= start < parts.len(),
        parts[start] is Term,
        run_border(parts, start),
    ensures
        start < run_stop(parts, start) <= parts.len(),
        run_border(parts, run_stop(parts, start)),
        text_upto(parts, run_stop(parts, start)) == text_upto(parts, start) + placeholder(
            slots_upto(parts, start).len(),
        ),
        encode_spec(parts).0 == text_upto(parts, start) + placeholder(
            slots_upto(parts, start).len(),
        ) + encode_spec(parts).0.skip(text_upto(parts, run_stop(parts, start)).len() as int),
        expand(encode_spec(parts).1, slots_upto(parts, start).len()) == parts.subrange(
            start,
            run_stop(parts, start),
        ),
{
    let len = parts.len() as int;
    let slots = encode_spec(parts).1;
    assert(parts.take(len) =~= parts);
    lemma_run_stop(parts, start);
    let stop = run_stop(parts, start);
    lemma_run(parts, start, stop);
    lemma_slots_prefix(parts, stop, len);
    lemma_text_prefix(parts, stop, len);
    let index = slots_upto(parts, start).len();
    assert(slots.take(slots_upto(parts, stop).len() as int) == slots_upto(parts, stop));
    assert(slots[index as int] == slots_upto(parts, stop)[index as int]);
    lemma_expand_run(parts, slots, index, start, stop);
}

/// Reading what was written, from where the writing of the first `i` parts
/// ended, gives the parts from `i` on.
pub proof fn lemma_decode_from(parts: Seq<Segment>, i: int)
    requires
        separable(parts),
        0 <= i <= parts.len(),
        run_border(parts, i),
    ensures
        decode_spec(
            encode_spec(parts).0,
            encode_spec(parts).1,
            utf8_len(text_upto(parts, i)) as int,
        ) == parts.skip(i),
    decreases parts.len() - i,
{
    let len = parts.len() as int;
    let written = encode_spec(parts).0;
    let slots = encode_spec(parts).1;
    let so_far = text_upto(parts, i);
    if i == len {
        assert(parts.take(len) =~= parts);
        assert(parts.skip(i) =~= Seq::<Segment>::empty());
        lemma_next_token_none(encode_utf8(written), utf8_len(written) as int);
    } else if parts[i] is Term {
        lemma_run_written(parts, i);
        let stop = run_stop(parts, i);
        let index = slots_upto(parts, i).len();
        let tail = written.skip(text_upto(parts, stop).len() as int);
        lemma_decode_from(parts, stop);
        lemma_read_token(so_far, index, tail, slots);
        assert(parts.skip(i) =~= parts.subrange(i, stop) + parts.skip(stop));
    } else {
        let text = parts[i]->Text_0;
        lemma_encode_step(parts, i);
        if i + 1 == len {
            assert(parts.take(len) =~= parts);
            lemma_read_last_text(so_far, text, slots);
            assert(parts.skip(i) =~= seq![parts[i]]);
        } else {
            lemma_run_written(parts, i + 1);
            let stop = run_stop(parts, i + 1);
            let index = slots_upto(parts, i + 1).len();
            let tail = written.skip(text_upto(parts, stop).len() as int);
            lemma_decode_from(parts, stop);
            lemma_read_text_and_token(so_far, text, index, tail, slots);
            assert(parts.skip(i) =~= seq![parts[i]] + parts.subrange(i + 1, stop) + parts.skip(
                stop,
            ));
        }
    }
}

/// Reading what was written gives the parts that were written, where the
/// texts among them cannot be taken for tokens.
pub proof fn lemma_decode_encode(parts: Seq<Segment>)
    requires
        separable(parts),
    ensures
        decode_spec(encode_spec(parts).0, encode_spec(parts).1, 0) == parts,
{
    lemma_decode_from(parts, 0);
    assert(parts.take(0) =~= Seq::<Segment>::empty());
    assert(parts.skip(0) =~= parts);
    assert(encode_utf8(Seq::<char>::empty()).len() == 0);
}

} // verus!
