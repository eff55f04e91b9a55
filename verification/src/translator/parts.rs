//! The pieces that a text is in while it passes through the pipeline.

use crate::schema::TermType;
use vstd::prelude::*;
use vstd::string::*;

verus! {

/// A piece of the text in flight.
#[derive(Clone, Debug, PartialEq, Eq)]
pub enum Part {
    /// Ordinary text, open to terms and to the backend.
    Text(String),
    /// A protected piece: the stage of the term that claimed it, and what it
    /// stands for.
    Term(TermType, String),
}

/// What a [`Part`] holds, with its strings as sequences of characters.
pub enum Segment {
    Text(Seq<char>),
    Term(TermType, Seq<char>),
}

impl View for Part {
    type V = Segment;

    open spec fn view(&self) -> Segment {
        match self {
            Part::Text(text) => Segment::Text(text@),
            Part::Term(ty, replacement) => Segment::Term(*ty, replacement@),
        }
    }
}

/// The segments that a sequence of parts holds.
pub open spec fn segments(parts: Seq<Part>) -> Seq<Segment> {
    Seq::new(parts.len(), |i: int| parts[i]@)
}

/// The characters that a segment stands for.
pub open spec fn projection(segment: Segment) -> Seq<char> {
    match segment {
        Segment::Text(text) => text,
        Segment::Term(_, replacement) => replacement,
    }
}

/// The text that the segments stand for: their projections, joined in order.
pub open spec fn flatten(parts: Seq<Segment>) -> Seq<char>
    decreases parts.len(),
{
    if parts.len() == 0 {
        Seq::empty()
    } else {
        flatten(parts.drop_last()) + projection(parts.last())
    }
}

/// Whether terms of the stage `ty` are chosen: all are when `only` is absent.
pub open spec fn chosen(only: Option<TermType>, ty: TermType) -> bool {
    match only {
        Some(wanted) => ty == wanted,
        None => true,
    }
}

/// What one segment becomes when the chosen terms are turned into text.
pub open spec fn revealed(segment: Segment, only: Option<TermType>) -> Seq<Segment> {
    match segment {
        Segment::Term(ty, replacement) if chosen(only, ty) => if replacement.len() == 0 {
            Seq::empty()
        } else {
            seq![Segment::Text(replacement)]
        },
        _ => seq![segment],
    }
}

/// The segments with each chosen term replaced by its text, and dropped where
/// that text is empty.
pub open spec fn inverse_transform_spec(parts: Seq<Segment>, only: Option<TermType>) -> Seq<
    Segment,
>
    decreases parts.len(),
{
    if parts.len() == 0 {
        Seq::empty()
    } else {
        inverse_transform_spec(parts.drop_last(), only) + revealed(parts.last(), only)
    }
}

/// The segments with every run of neighbouring texts joined into one.
pub open spec fn concat_spec(parts: Seq<Segment>) -> Seq<Segment>
    decreases parts.len(),
{
    if parts.len() == 0 {
        Seq::empty()
    } else {
        let done = concat_spec(parts.drop_last());
        match parts.last() {
            Segment::Text(text) => if done.len() > 0 && done.last() is Text {
                done.drop_last().push(Segment::Text(done.last()->Text_0 + text))
            } else {
                done.push(Segment::Text(text))
            },
            term => done.push(term),
        }
    }
}

/// The text of the last segment if that is a text; else the empty text.
pub open spec fn last_text(parts: Seq<Segment>) -> Seq<char> {
    if parts.len() > 0 && parts.last() is Text {
        parts.last()->Text_0
    } else {
        Seq::empty()
    }
}

/// No segment is a protected term.
pub open spec fn all_text(parts: Seq<Segment>) -> bool {
    forall|i: int| 0 <= i < parts.len() ==> #[trigger] parts[i] is Text
}

/// A copy of a part.
pub fn copy_part(part: &Part) -> (copy: Part)
    ensures
        copy@ == part@,
{
    match part {
        Part::Text(text) => Part::Text(text.clone()),
        Part::Term(ty, replacement) => Part::Term(*ty, replacement.clone()),
    }
}

/// Turns the protected terms of the stage `only`, or all of them when `only`
/// is absent, back into text. A term that stands for the empty text leaves
/// nothing behind.
pub fn inverse_transform(transformed: Vec<Part>, only: Option<TermType>) -> (parts: Vec<Part>)
    ensures
        segments(parts@) == inverse_transform_spec(segments(transformed@), only),
{
    let mut parts: Vec<Part> = Vec::with_capacity(transformed.len());
    let mut at: usize = 0;
    proof {
        assert(segments(transformed@).take(0) =~= Seq::<Segment>::empty());
        assert(segments(parts@) =~= Seq::<Segment>::empty());
    }
    while at < transformed.len()
        invariant
            at <= transformed@.len(),
            segments(parts@) == inverse_transform_spec(segments(transformed@).take(at as int), only),
        decreases transformed@.len() - at,
    {
        let ghost before = segments(parts@);
        let ghost next = segments(transformed@).take(at + 1);
        proof {
            assert(next.drop_last() =~= segments(transformed@).take(at as int));
            assert(next.last() == transformed@[at as int]@);
        }
        match &transformed[at] {
            Part::Text(text) => {
                parts.push(Part::Text(text.clone()));
                assert(segments(parts@) =~= before + seq![Segment::Text(text@)]);
            },
            Part::Term(ty, replacement) => {
                let selected = match only {
                    Some(wanted) => *ty == wanted,
                    None => true,
                };
                if selected {
                    if replacement.as_str().as_bytes().len() != 0 {
                        parts.push(Part::Text(replacement.clone()));
                        assert(segments(parts@) =~= before + seq![Segment::Text(replacement@)]);
                    } else {
                        assert(segments(parts@) =~= before + Seq::<Segment>::empty());
                    }
                    proof {
                        crate::text::lemma_utf8_len_zero(replacement@);
                    }
                } else {
                    parts.push(Part::Term(*ty, replacement.clone()));
                    assert(segments(parts@) =~= before + seq![Segment::Term(*ty, replacement@)]);
                }
            },
        }
        at = at + 1;
    }
    proof {
        assert(segments(transformed@).take(at as int) =~= segments(transformed@));
    }
    parts
}

/// Joins every run of neighbouring texts into one text.
pub fn concat(parts: Vec<Part>) -> (joined: Vec<Part>)
    ensures
        segments(joined@) == concat_spec(segments(parts@)),
{
    let mut joined: Vec<Part> = Vec::with_capacity(parts.len());
    let mut pending: Option<String> = None;
    let mut at: usize = 0;
    proof {
        assert(segments(parts@).take(0) =~= Seq::<Segment>::empty());
        assert(segments(joined@) =~= Seq::<Segment>::empty());
    }
    while at < parts.len()
        invariant
            at <= parts@.len(),
            concat_spec(segments(parts@).take(at as int)) == match pending {
                Some(text) => segments(joined@).push(Segment::Text(text@)),
                None => segments(joined@),
            },
            pending is None ==> (joined@.len() == 0 || joined@.last() is Term),
            pending is Some ==> (joined@.len() == 0 || joined@.last() is Term),
        decreases parts@.len() - at,
    {
        let ghost done = concat_spec(segments(parts@).take(at as int));
        let ghost next = segments(parts@).take(at + 1);
        let ghost before = segments(joined@);
        proof {
            assert(next.drop_last() =~= segments(parts@).take(at as int));
            assert(next.last() == parts@[at as int]@);
            if joined@.len() > 0 {
                assert(before.last() == joined@.last()@);
            }
        }
        match &parts[at] {
            Part::Text(text) => {
                match pending {
                    Some(mut so_far) => {
                        let ghost head = so_far@;
                        so_far.append(text.as_str());
                        pending = Some(so_far);
                        proof {
                            assert(done.drop_last() =~= before);
                            assert(done.last() == Segment::Text(head));
                        }
                    },
                    None => {
                        pending = Some(text.clone());
                    },
                }
            },
            Part::Term(ty, replacement) => {
                match pending {
                    Some(so_far) => {
                        joined.push(Part::Text(so_far));
                    },
                    None => {},
                }
                pending = None;
                joined.push(Part::Term(*ty, replacement.clone()));
                assert(segments(joined@) =~= done.push(Segment::Term(*ty, replacement@)));
            },
        }
        at = at + 1;
    }
    proof {
        assert(segments(parts@).take(at as int) =~= segments(parts@));
    }
    let ghost before = segments(joined@);
    match pending {
        Some(so_far) => {
            joined.push(Part::Text(so_far));
            assert(segments(joined@) =~= before.push(Segment::Text(so_far@)));
        },
        None => {},
    }
    joined
}

/// The text of the last part if that is a text; else the empty text.
pub fn into_last_text(parts: Vec<Part>) -> (text: String)
    ensures
        text@ == last_text(segments(parts@)),
{
    let mut parts = parts;
    let ghost before = parts@;
    match parts.pop() {
        Some(Part::Text(text)) => {
            assert(segments(before).last() == before.last()@);
            text
        },
        Some(Part::Term(_, _)) => {
            assert(segments(before).last() == before.last()@);
            String::new()
        },
        None => String::new(),
    }
}

/// What segments stand for with one more segment behind them.
pub proof fn lemma_flatten_push(parts: Seq<Segment>, last: Segment)
    ensures
        flatten(parts.push(last)) == flatten(parts) + projection(last),
        flatten(Seq::<Segment>::empty()) == Seq::<char>::empty(),
        flatten(seq![last]) == projection(last),
{
    assert(parts.push(last).drop_last() =~= parts);
    let one = seq![last];
    assert(one.drop_last() =~= Seq::<Segment>::empty());
    assert(one.last() == last);
    assert(flatten(one.drop_last()) =~= Seq::<char>::empty());
    assert(flatten(one) == flatten(one.drop_last()) + projection(last));
    assert(flatten(one) =~= projection(last));
}

/// What joined segments stand for is what the first stand for, and then what
/// the second stand for.
pub proof fn lemma_flatten_add(first: Seq<Segment>, second: Seq<Segment>)
    ensures
        flatten(first + second) == flatten(first) + flatten(second),
    decreases second.len(),
{
    if second.len() == 0 {
        assert(first + second =~= first);
        assert(flatten(first) + flatten(second) =~= flatten(first));
    } else {
        lemma_flatten_add(first, second.drop_last());
        assert((first + second).drop_last() =~= first + second.drop_last());
        assert(flatten(first + second) =~= flatten(first) + flatten(second));
    }
}

/// Turning terms into text does not change what the segments stand for.
pub proof fn lemma_reveal_keeps_text(parts: Seq<Segment>, only: Option<TermType>)
    ensures
        flatten(inverse_transform_spec(parts, only)) == flatten(parts),
    decreases parts.len(),
{
    if parts.len() > 0 {
        let done = inverse_transform_spec(parts.drop_last(), only);
        let more = revealed(parts.last(), only);
        lemma_reveal_keeps_text(parts.drop_last(), only);
        lemma_flatten_add(done, more);
        if more.len() == 0 {
            lemma_flatten_push(done, parts.last());
            assert(flatten(more) =~= projection(parts.last()));
        } else {
            lemma_flatten_push(done, more[0]);
            assert(more =~= seq![more[0]]);
        }
    }
}

/// With every term turned into text, only texts are left.
pub proof fn lemma_reveal_all(parts: Seq<Segment>)
    ensures
        all_text(inverse_transform_spec(parts, None)),
    decreases parts.len(),
{
    if parts.len() > 0 {
        lemma_reveal_all(parts.drop_last());
    }
}

/// Joining neighbouring texts does not change what the segments stand for.
pub proof fn lemma_concat_keeps_text(parts: Seq<Segment>)
    ensures
        flatten(concat_spec(parts)) == flatten(parts),
    decreases parts.len(),
{
    if parts.len() > 0 {
        lemma_concat_keeps_text(parts.drop_last());
        let done = concat_spec(parts.drop_last());
        match parts.last() {
            Segment::Text(text) => {
                if done.len() > 0 && done.last() is Text {
                    let head = done.last()->Text_0;
                    lemma_flatten_push(done.drop_last(), Segment::Text(head + text));
                    lemma_flatten_push(done.drop_last(), done.last());
                    assert(done.drop_last().push(done.last()) =~= done);
                    assert(flatten(done.drop_last()) + (head + text) =~= (flatten(
                        done.drop_last(),
                    ) + head) + text);
                } else {
                    lemma_flatten_push(done, parts.last());
                }
            },
            term => {
                lemma_flatten_push(done, term);
            },
        }
    }
}

/// Texts alone are joined into one text, or into nothing where there are none.
pub proof fn lemma_concat_texts(parts: Seq<Segment>)
    requires
        all_text(parts),
    ensures
        concat_spec(parts).len() <= 1,
        all_text(concat_spec(parts)),
    decreases parts.len(),
{
    if parts.len() > 0 {
        assert(parts.last() is Text);
        assert forall|i: int| 0 <= i < parts.drop_last().len() implies #[trigger] parts.drop_last()[i]
            is Text by {
            assert(parts[i] is Text);
        }
        lemma_concat_texts(parts.drop_last());
    }
}

/// The text that a translation ends with is what all its segments stand for.
pub proof fn lemma_final_text(parts: Seq<Segment>)
    ensures
        last_text(concat_spec(inverse_transform_spec(parts, None))) == flatten(parts),
{
    let texts = inverse_transform_spec(parts, None);
    let joined = concat_spec(texts);
    lemma_reveal_keeps_text(parts, None);
    lemma_reveal_all(parts);
    lemma_concat_keeps_text(texts);
    lemma_concat_texts(texts);
    if joined.len() == 0 {
        lemma_flatten_push(joined, Segment::Text(Seq::empty()));
    } else {
        assert(joined[0] is Text);
        assert(joined =~= seq![joined[0]]);
        lemma_flatten_push(joined, joined[0]);
    }
}

} // verus!
