//! Writing protected terms into the text as tokens, and reading them back.

use crate::placeholder::digit_value;
use crate::placeholder::encode_replacement_string;
use crate::placeholder::find_token;
use crate::placeholder::index_of_run;
use crate::placeholder::is_m;
use crate::placeholder::is_z;
use crate::placeholder::lemma_digit_value;
use crate::placeholder::lemma_run_digits;
use crate::placeholder::lemma_run_end_bounds;
use crate::placeholder::next_token;
use crate::placeholder::placeholder;
use crate::placeholder::run_end;
use crate::placeholder::token_end;
use crate::placeholder::token_index;
use crate::schema::TermType;
use crate::text::is_boundary;
use crate::text::is_span;
use crate::text::lemma_slice_bytes;
use crate::text::lemma_slice_whole;
use crate::text::lemma_suffix_boundary;
use crate::text::slice;
use crate::text::substr;
use crate::text::utf8_len;
use crate::translator::parts::segments;
use crate::translator::parts::Part;
use crate::translator::parts::Segment;
use vstd::prelude::*;
use vstd::slice::*;
use vstd::string::*;
use vstd::utf8::*;

verus! {

/// What one slot holds: the terms of one run, each with its stage and the
/// text it stands for.
pub open spec fn slot_view(slot: Seq<(TermType, String)>) -> Seq<(TermType, Seq<char>)> {
    Seq::new(slot.len(), |i: int| (slot[i].0, slot[i].1@))
}

/// What a table of slots holds.
pub open spec fn slots_view(slots: Seq<Vec<(TermType, String)>>) -> Seq<
    Seq<(TermType, Seq<char>)>,
> {
    Seq::new(slots.len(), |i: int| slot_view(slots[i]@))
}

/// The text for the backend and the table of slots: every text as it is, and
/// one token for each run of neighbouring terms, whose slot holds the run.
pub open spec fn encode_spec(parts: Seq<Segment>) -> (Seq<char>, Seq<Seq<(TermType, Seq<char>)>>)
    decreases parts.len(),
{
    if parts.len() == 0 {
        (Seq::empty(), Seq::empty())
    } else {
        let (text, slots) = encode_spec(parts.drop_last());
        match parts.last() {
            Segment::Text(more) => (text + more, slots),
            Segment::Term(ty, replacement) => if parts.len() >= 2 && parts[parts.len() - 2]
                is Term && slots.len() > 0 {
                (text, slots.update(slots.len() - 1, slots.last().push((ty, replacement))))
            } else {
                (text + placeholder(slots.len()), slots.push(seq![(ty, replacement)]))
            },
        }
    }
}

/// The terms of the slot `index`, as protected segments; nothing when the
/// table has no such slot.
pub open spec fn expand(slots: Seq<Seq<(TermType, Seq<char>)>>, index: nat) -> Seq<Segment> {
    if index < slots.len() {
        Seq::new(
            slots[index as int].len(),
            |i: int| Segment::Term(slots[index as int][i].0, slots[index as int][i].1),
        )
    } else {
        Seq::empty()
    }
}

/// The segments that the text from byte `from` on holds: the text between
/// tokens as it is, and for each token the terms of its slot.
pub open spec fn decode_spec(
    text: Seq<char>,
    slots: Seq<Seq<(TermType, Seq<char>)>>,
    from: int,
) -> Seq<Segment>
    decreases utf8_len(text) - from,
{
    let bytes = encode_utf8(text);
    match next_token(bytes, from) {
        None => if 0 <= from < bytes.len() {
            seq![Segment::Text(slice(text, from, bytes.len() as int))]
        } else {
            Seq::empty()
        },
        Some((start, end)) => {
            let before = if from < start {
                seq![Segment::Text(slice(text, from, start))]
            } else {
                Seq::empty()
            };
            if from < end <= bytes.len() {
                before + expand(slots, token_index(bytes, start, end)) + decode_spec(
                    text,
                    slots,
                    end,
                )
            } else {
                before
            }
        },
    }
}

/// The first token from `from` on lies within the bytes, and none starts
/// before it.
pub proof fn lemma_next_token(bytes: Seq<u8>, from: int)
    ensures
        next_token(bytes, from) matches Some((start, end)) ==> 0 <= from <= start && start + 4
            <= end <= bytes.len() && token_end(bytes, start) == Some(end) && forall|at: int|
            from <= at < start ==> token_end(bytes, at) is None,
        next_token(bytes, from) is None ==> forall|at: int|
            0 <= from <= at < bytes.len() ==> token_end(bytes, at) is None,
    decreases bytes.len() - from,
{
    if 0 <= from < bytes.len() {
        lemma_next_token(bytes, from + 1);
        lemma_run_end_bounds(bytes, from + 2);
    }
}

/// A token is made of characters of one byte each, so it starts and ends where
/// characters do.
pub proof fn lemma_token_span(text: Seq<char>, start: int, end: int)
    requires
        token_end(encode_utf8(text), start) == Some(end),
    ensures
        is_span(text, start, end),
        forall|at: int| start <= at < end ==> (#[trigger] encode_utf8(text)[at]) < 0x80,
        forall|at: int| start <= at <= end ==> is_boundary(text, at),
{
    broadcast use group_utf8_lib;

    let bytes = encode_utf8(text);
    lemma_run_end_bounds(bytes, start + 2);
    assert forall|at: int| start <= at < end implies (#[trigger] bytes[at]) < 0x80 by {
        if start + 2 <= at < end - 1 {
            lemma_run_digits(bytes, start + 2, at);
            lemma_digit_value(bytes[at]);
        }
    }
    assert forall|at: int| start <= at < end implies is_boundary(text, at) by {
        assert(bytes[at] < 0x80);
        is_char_boundary_iff_not_is_continuation_byte(bytes, at);
    }
    assert(is_boundary(text, end)) by {
        assert(is_boundary(text, end - 1));
        assert(bytes[end - 1] < 0x80);
        lemma_ascii_step(text, end - 1);
    }
}

/// After a character of one byte comes the start of a character, or the end.
pub proof fn lemma_ascii_step(text: Seq<char>, at: int)
    requires
        is_boundary(text, at),
        at < utf8_len(text),
        encode_utf8(text)[at] < 0x80,
    ensures
        is_boundary(text, at + 1),
{
    broadcast use group_utf8_lib;

    let bytes = encode_utf8(text);
    let len = bytes.len() as int;
    lemma_slice_whole(text);
    lemma_slice_bytes(text, at, len);
    let rest = slice(text, at, len);
    assert(encode_utf8(rest) == bytes.subrange(at, len));
    assert(encode_utf8(rest)[0] == bytes[at]);
    crate::text::lemma_utf8_len_zero(rest);
    crate::text::lemma_first_width(rest);
    assert(crate::text::first_width(rest) == 1);
    lemma_suffix_boundary(text, at, 1);
}

/// Writes the parts as one text for the backend: texts as they are, and one
/// token for each run of neighbouring terms. The table that comes with it
/// holds, for each token, the terms of its run.
pub fn encode(transformed: Vec<Part>) -> (encoded: (String, Vec<Vec<(TermType, String)>>))
    ensures
        (encoded.0@, slots_view(encoded.1@)) == encode_spec(segments(transformed@)),
{
    let mut builder = String::new();
    let mut slots: Vec<Vec<(TermType, String)>> = Vec::new();
    let mut run: Vec<(TermType, String)> = Vec::new();
    let mut in_run = false;
    let mut at: usize = 0;
    proof {
        assert(segments(transformed@).take(0) =~= Seq::<Segment>::empty());
        assert(slots_view(slots@) =~= Seq::empty());
    }
    while at < transformed.len()
        invariant
            at <= transformed@.len(),
            builder@ == encode_spec(segments(transformed@).take(at as int)).0,
            in_run <==> at > 0 && transformed@[at - 1] is Term,
            in_run ==> run@.len() > 0 && encode_spec(segments(transformed@).take(at as int)).1
                == slots_view(slots@).push(slot_view(run@)),
            !in_run ==> run@.len() == 0 && encode_spec(segments(transformed@).take(at as int)).1
                == slots_view(slots@),
        decreases transformed@.len() - at,
    {
        let ghost done = segments(transformed@).take(at as int);
        let ghost next = segments(transformed@).take(at + 1);
        let ghost table = slots_view(slots@);
        let ghost held = slot_view(run@);
        proof {
            assert(next.drop_last() =~= done);
            assert(next.last() == transformed@[at as int]@);
            if at > 0 {
                assert(next[next.len() - 2] == transformed@[at - 1]@);
            }
        }
        match &transformed[at] {
            Part::Text(text) => {
                if in_run {
                    slots.push(run);
                    run = Vec::new();
                    in_run = false;
                    assert(slots_view(slots@) =~= table.push(held));
                }
                builder.append(text.as_str());
            },
            Part::Term(ty, replacement) => {
                if !in_run {
                    let token = encode_replacement_string(slots.len());
                    builder.append(token.as_str());
                    in_run = true;
                    run.push((*ty, replacement.clone()));
                    assert(slot_view(run@) =~= seq![(*ty, replacement@)]);
                } else {
                    run.push((*ty, replacement.clone()));
                    assert(slot_view(run@) =~= held.push((*ty, replacement@)));
                    assert(table.push(held).update(table.len() as int, held.push((*ty, replacement@)))
                        =~= table.push(held.push((*ty, replacement@))));
                }
            },
        }
        at = at + 1;
    }
    proof {
        assert(segments(transformed@).take(at as int) =~= segments(transformed@));
    }
    if in_run {
        let ghost table = slots_view(slots@);
        let ghost held = slot_view(run@);
        slots.push(run);
        assert(slots_view(slots@) =~= table.push(held));
    }
    (builder, slots)
}

/// Reads a text that came back from the backend: the text between tokens as
/// it is, and for each token the terms of its slot, in their order. A token
/// that names no slot of the table is dropped.
pub fn decode(encoded: &str, slots: Vec<Vec<(TermType, String)>>) -> (parts: Vec<Part>)
    ensures
        segments(parts@) == decode_spec(encoded@, slots_view(slots@), 0),
{
    let bytes = encoded.as_bytes();
    let len = bytes.len();
    let mut parts: Vec<Part> = Vec::new();
    let mut from: usize = 0;
    proof {
        lemma_slice_whole(encoded@);
        assert(segments(parts@) =~= Seq::<Segment>::empty());
    }
    loop
        invariant_except_break
            from <= len,
            is_boundary(encoded@, from as int),
            segments(parts@) + decode_spec(encoded@, slots_view(slots@), from as int)
                == decode_spec(encoded@, slots_view(slots@), 0),
        invariant
            len == utf8_len(encoded@),
            bytes@ == encode_utf8(encoded@),
            is_boundary(encoded@, len as int),
        ensures
            segments(parts@) == decode_spec(encoded@, slots_view(slots@), 0),
        decreases len - from,
    {
        let ghost before = segments(parts@);
        let ghost table = slots_view(slots@);
        proof {
            lemma_next_token(bytes@, from as int);
        }
        match find_token(bytes, from) {
            None => {
                if from < len {
                    parts.push(Part::Text(substr(encoded, from, len).to_owned()));
                    assert(segments(parts@) =~= before + seq![
                        Segment::Text(slice(encoded@, from as int, len as int)),
                    ]);
                } else {
                    assert(segments(parts@) =~= before + Seq::<Segment>::empty());
                }
                break ;
            },
            Some((start, end)) => {
                proof {
                    lemma_token_span(encoded@, start as int, end as int);
                }
                let ghost between = if from < start {
                    seq![Segment::Text(slice(encoded@, from as int, start as int))]
                } else {
                    Seq::<Segment>::empty()
                };
                if from < start {
                    parts.push(Part::Text(substr(encoded, from, start).to_owned()));
                }
                assert(segments(parts@) =~= before + between);
                let ghost named = token_index(bytes@, start as int, end as int);
                let index = match index_of_run(bytes, start + 2, end - 1) {
                    Some(index) => index,
                    None => slots.len(),
                };
                assert(table.len() == slots@.len());
                assert(named == crate::placeholder::digits_value(
                    bytes@.subrange(start + 2, end - 1),
                ));
                assert(index < slots@.len() ==> index == named);
                assert(index >= slots@.len() ==> named >= table.len());
                if index < slots.len() {
                    let slot = &slots[index];
                    let mut i: usize = 0;
                    assert(table[index as int] == slot_view(slot@));
                    while i < slot.len()
                        invariant
                            i <= slot@.len(),
                            index < table.len(),
                            table[index as int] == slot_view(slot@),
                            segments(parts@) == before + between + expand(
                                table,
                                index as nat,
                            ).take(i as int),
                        decreases slot@.len() - i,
                    {
                        let ghost so_far = segments(parts@);
                        let entry = &slot[i];
                        parts.push(Part::Term(entry.0, entry.1.clone()));
                        assert(segments(parts@) =~= so_far.push(
                            expand(table, index as nat)[i as int],
                        ));
                        assert(expand(table, index as nat).take(i + 1) =~= expand(
                            table,
                            index as nat,
                        ).take(i as int).push(expand(table, index as nat)[i as int]));
                        i = i + 1;
                    }
                    assert(expand(table, named).take(i as int) =~= expand(table, named));
                } else {
                    assert(expand(table, named) =~= Seq::<Segment>::empty());
                    assert(segments(parts@) =~= before + between + expand(table, named));
                }
                assert((before + between + expand(table, named)) + decode_spec(
                    encoded@,
                    table,
                    end as int,
                ) =~= before + (between + expand(table, named) + decode_spec(
                    encoded@,
                    table,
                    end as int,
                )));
                from = end;
            },
        }
    }
    parts
}

} // verus!
