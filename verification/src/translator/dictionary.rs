//! The dictionary engine: protects what terms claim, hands the rest to a
//! backend, and puts the text together again.
//!
//! One translation runs in stages. The built-in scanners protect URLs,
//! hashtags and emoji. The user's terms claim their matches: those of the
//! stage `Preprocess` are put into the text at once, those of the stage
//! `Transform` travel as tokens. The backend translates. The tokens are read
//! back, the terms of the stage `Postprocess` claim their matches in what the
//! backend wrote, and everything is joined into one text.

use crate::scan::find_plain;
use crate::scan::find_tagged;
use crate::scan::find_user;
use crate::scan::plain_match;
use crate::scan::tagged_match;
use crate::scan::user_match;
use crate::scan::ScanError;
use crate::scan::EMOJI_PATTERN;
use crate::scan::HASHTAG_PATTERN;
use crate::scan::URL_PATTERN;
use crate::schema::RegexTerm;
use crate::schema::TermType;
use crate::text::byte_len;
use crate::text::first_width;
use crate::text::is_boundary;
use crate::text::is_span;
use crate::text::lemma_first_width;
use crate::text::lemma_slice_bytes;
use crate::text::lemma_slice_whole;
use crate::text::lemma_suffix_boundary;
use crate::text::lemma_utf8_len_zero;
use crate::text::slice;
use crate::text::substr;
use crate::text::utf8_len;
use crate::text::width_of_first;
use crate::translator::parts::concat;
use crate::translator::parts::concat_spec;
use crate::translator::parts::copy_part;
use crate::translator::parts::into_last_text;
use crate::translator::parts::inverse_transform;
use crate::translator::parts::inverse_transform_spec;
use crate::translator::parts::last_text;
use crate::translator::parts::segments;
use crate::translator::parts::Part;
use crate::translator::parts::Segment;
use crate::translator::reply_view;
use crate::translator::slots::decode;
use crate::translator::slots::decode_spec;
use crate::translator::slots::encode;
use crate::translator::slots::encode_spec;
use crate::translator::slots::slots_view;
use crate::translator::NopTranslator;
use crate::translator::TranslateError;
use crate::translator::Translator;
use vstd::prelude::*;
use vstd::string::*;

verus! {

/// Which scanners one pass over the parts runs.
#[derive(Clone, Copy, Debug, PartialEq, Eq, Structural)]
pub enum Pass {
    /// The built-in scanners for URLs, hashtags and emoji, in this order.
    Intrinsic,
    /// The user's terms that apply before the backend: every stage but
    /// `Postprocess`.
    BeforeBackend,
    /// The user's terms of the stage `Postprocess`.
    AfterBackend,
}

/// A match: the byte offsets at which it starts and ends, and the text that
/// takes its place.
pub type Hit = (usize, usize, Seq<char>);

/// The number of scanners that a pass has.
pub open spec fn scanners(terms: Seq<RegexTerm>, pass: Pass) -> nat {
    if pass == Pass::Intrinsic {
        3
    } else {
        terms.len()
    }
}

/// The stage under which the scanner `k` of a pass protects its matches;
/// `None` where the pass leaves that scanner out.
pub open spec fn applies(terms: Seq<RegexTerm>, pass: Pass, k: int) -> Option<TermType> {
    match pass {
        Pass::Intrinsic => Some(TermType::Transform),
        Pass::BeforeBackend => if terms[k].ty != TermType::Postprocess {
            Some(terms[k].ty)
        } else {
            None
        },
        Pass::AfterBackend => if terms[k].ty == TermType::Postprocess {
            Some(TermType::Postprocess)
        } else {
            None
        },
    }
}

/// How much text is open to hashtags: its size in the pass of the built-in
/// scanners, and nothing in the other passes.
pub open spec fn budget(pass: Pass, text: Seq<char>) -> nat {
    if pass == Pass::Intrinsic {
        utf8_len(text)
    } else {
        0
    }
}

/// The size of all the texts among the segments.
pub open spec fn text_bytes(parts: Seq<Segment>) -> nat
    decreases parts.len(),
{
    if parts.len() == 0 {
        0
    } else {
        text_bytes(parts.drop_last()) + match parts.last() {
            Segment::Text(text) => utf8_len(text),
            Segment::Term(_, _) => 0,
        }
    }
}

/// A single text weighs what it occupies.
pub proof fn lemma_text_bytes_of_one(text: Seq<char>)
    ensures
        text_bytes(seq![Segment::Text(text)]) == utf8_len(text),
{
    let one = seq![Segment::Text(text)];
    assert(one.drop_last() =~= Seq::<Segment>::empty());
    assert(text_bytes(one.drop_last()) == 0);
}

/// No text among the segments weighs more than all of them.
pub proof fn lemma_text_bytes_bound(parts: Seq<Segment>, at: int)
    requires
        0 <= at < parts.len(),
    ensures
        parts[at] matches Segment::Text(text) ==> utf8_len(text) <= text_bytes(parts),
        text_bytes(parts.take(at)) <= text_bytes(parts),
    decreases parts.len(),
{
    if at < parts.len() - 1 {
        lemma_text_bytes_bound(parts.drop_last(), at);
        assert(parts.drop_last().take(at) =~= parts.take(at));
    } else {
        assert(parts.drop_last() =~= parts.take(at));
    }
}

/// How much text of the segments is open to hashtags in a pass.
pub open spec fn weight(pass: Pass, parts: Seq<Segment>) -> nat {
    if pass == Pass::Intrinsic {
        text_bytes(parts)
    } else {
        0
    }
}

/// A match that is replaced by what it matched.
pub open spec fn verbatim(text: Seq<char>, found: Result<Option<(usize, usize)>, ScanError>) -> Result<
    Option<Hit>,
    TranslateError,
> {
    match found {
        Err(e) => Err(TranslateError::Scan(e)),
        Ok(None) => Ok(None),
        Ok(Some((start, end))) => Ok(Some((start, end, slice(text, start as int, end as int)))),
    }
}

/// A match that is replaced by `output`.
pub open spec fn replaced(found: Result<Option<(usize, usize)>, ScanError>, output: Seq<char>) -> Result<
    Option<Hit>,
    TranslateError,
> {
    match found {
        Err(e) => Err(TranslateError::Scan(e)),
        Ok(None) => Ok(None),
        Ok(Some((start, end))) => Ok(Some((start, end, output))),
    }
}

/// The tag of a hashtag is shorter than the text that the hashtag was found in.
pub proof fn lemma_tag_is_shorter(text: Seq<char>, start: usize, end: usize)
    requires
        tagged_match(HASHTAG_PATTERN@, text) == Ok::<Option<(usize, usize)>, ScanError>(
            Some((start, end)),
        ),
    ensures
        is_span(text, start as int, end as int),
        is_span(text, start + 1, end as int),
        utf8_len(slice(text, start + 1, end as int)) < utf8_len(text),
{
    lemma_slice_bytes(text, start + 1, end as int);
}

/// What one scan of a text leaves for the next.
pub proof fn lemma_sweep_step(text: Seq<char>, skip: int, start: int, end: int)
    requires
        0 <= skip < utf8_len(text),
        is_boundary(text, skip),
        is_span(slice(text, skip, utf8_len(text) as int), start, end),
    ensures
        utf8_len(slice(text, skip, utf8_len(text) as int)) == utf8_len(text) - skip,
        is_span(text, 0, skip + start),
        is_span(text, skip + start, skip + end),
        is_span(text, skip + end, utf8_len(text) as int),
        utf8_len(slice(text, 0, skip + start)) == skip + start,
        utf8_len(slice(text, skip + end, utf8_len(text) as int)) == utf8_len(text) - skip - end,
        slice(text, skip + end, utf8_len(text) as int).len() > 0 ==> 1 <= first_width(
            slice(text, skip + end, utf8_len(text) as int),
        ) <= utf8_len(text) - skip - end && is_boundary(
            slice(text, skip + end, utf8_len(text) as int),
            first_width(slice(text, skip + end, utf8_len(text) as int)),
        ),
        slice(text, skip + end, utf8_len(text) as int).len() == 0 <==> skip + end == utf8_len(
            text,
        ),
{
    let len = utf8_len(text) as int;
    lemma_slice_whole(text);
    lemma_slice_bytes(text, skip, len);
    lemma_suffix_boundary(text, skip, start);
    lemma_suffix_boundary(text, skip, end);
    lemma_slice_bytes(text, 0, skip + start);
    lemma_slice_bytes(text, skip + end, len);
    let rest = slice(text, skip + end, len);
    lemma_utf8_len_zero(rest);
    if rest.len() > 0 {
        lemma_first_width(rest);
    }
}

/// What the scanner `k` of a pass finds first in `text`.
///
/// The built-in scanners replace a URL and an emoji by itself, and a hashtag
/// by `#` and what the pipeline makes of its tag with a backend that changes
/// nothing. A term replaces its match by its output.
pub open spec fn scan_spec(terms: Seq<RegexTerm>, pass: Pass, k: int, text: Seq<char>) -> Result<
    Option<Hit>,
    TranslateError,
>
    decreases budget(pass, text), 2int, 0int, 0int,
{
    if pass != Pass::Intrinsic {
        if 0 <= k < terms.len() {
            replaced(user_match(terms[k].input@, text), terms[k].output@)
        } else {
            Ok(None)
        }
    } else if k == 0 {
        verbatim(text, plain_match(URL_PATTERN@, text))
    } else if k == 1 {
        match tagged_match(HASHTAG_PATTERN@, text) {
            Err(e) => Err(TranslateError::Scan(e)),
            Ok(None) => Ok(None),
            Ok(Some((start, end))) => {
                proof {
                    lemma_tag_is_shorter(text, start, end);
                }
                match translate_spec(terms, slice(text, start + 1, end as int)) {
                    Err(e) => Err(e),
                    Ok(tag) => Ok(Some((start, end, seq!['#'] + tag))),
                }
            },
        }
    } else {
        verbatim(text, plain_match(EMOJI_PATTERN@, text))
    }
}

/// What the scanner `k` makes of `text`, searching from byte `skip` on: before
/// each match what the later scanners make of the text up to it, then the
/// match as a protected term, and so on behind the match. After an empty match
/// the search goes on one character further, so that it always advances. What
/// is left when nothing matches any more goes to the later scanners.
#[verifier::opaque]
pub open spec fn sweep_spec(
    terms: Seq<RegexTerm>,
    pass: Pass,
    text: Seq<char>,
    k: int,
    ty: TermType,
    skip: int,
) -> Result<Seq<Segment>, TranslateError>
    decreases budget(pass, text), 3int, scanners(terms, pass) - k, 2 * (utf8_len(text) - skip),
{
    let len = utf8_len(text) as int;
    if !(0 <= k < scanners(terms, pass)) {
        Ok(seq![Segment::Text(text)])
    } else if !(0 <= skip < len && is_boundary(text, skip)) {
        helper_spec(terms, pass, text, k + 1)
    } else {
        let window = slice(text, skip, len);
        proof {
            lemma_slice_whole(text);
            lemma_slice_bytes(text, skip, len);
        }
        match scan_spec(terms, pass, k, window) {
            Err(e) => Err(e),
            Ok(None) => helper_spec(terms, pass, text, k + 1),
            Ok(Some((start, end, replacement))) => if !is_span(window, start as int, end as int) {
                Err(TranslateError::Scan(ScanError::Range))
            } else {
                proof {
                    lemma_sweep_step(text, skip, start as int, end as int);
                }
                let rest = slice(text, skip + end, len);
                match helper_spec(terms, pass, slice(text, 0, skip + start), k + 1) {
                    Err(e) => Err(e),
                    Ok(head) => if rest.len() == 0 {
                        Ok(head.push(Segment::Term(ty, replacement)))
                    } else {
                        let step = if start < end {
                            0
                        } else {
                            first_width(rest)
                        };
                        after(
                            head.push(Segment::Term(ty, replacement)),
                            sweep_spec(terms, pass, rest, k, ty, step),
                        )
                    },
                }
            },
        }
    }
}

/// What the scanners from `k` on make of `text`: nothing of an empty text, the
/// text itself when no scanner is left, and else what the first scanner that
/// the pass admits makes of it.
#[verifier::opaque]
pub open spec fn helper_spec(terms: Seq<RegexTerm>, pass: Pass, text: Seq<char>, k: int) -> Result<
    Seq<Segment>,
    TranslateError,
>
    decreases budget(pass, text), 3int, scanners(terms, pass) - k, 2 * utf8_len(text) + 1,
{
    if text.len() == 0 {
        Ok(Seq::empty())
    } else if !(0 <= k < scanners(terms, pass)) {
        Ok(seq![Segment::Text(text)])
    } else {
        match applies(terms, pass, k) {
            None => helper_spec(terms, pass, text, k + 1),
            Some(ty) => sweep_spec(terms, pass, text, k, ty, 0),
        }
    }
}

/// The segments after a pass: each text replaced by what the scanners of the
/// pass make of it, each protected term as it is.
pub open spec fn transform_spec(terms: Seq<RegexTerm>, pass: Pass, parts: Seq<Segment>) -> Result<
    Seq<Segment>,
    TranslateError,
>
    decreases weight(pass, parts), 4int, parts.len(), 0int,
{
    if parts.len() == 0 {
        Ok(Seq::empty())
    } else {
        match transform_spec(terms, pass, parts.drop_last()) {
            Err(e) => Err(e),
            Ok(done) => match parts.last() {
                Segment::Text(text) => after(done, helper_spec(terms, pass, text, 0)),
                term => Ok(done.push(term)),
            },
        }
    }
}

/// What goes to the backend for `text`: the encoded text and its slots.
pub open spec fn prepare_spec(terms: Seq<RegexTerm>, text: Seq<char>) -> Result<
    (Seq<char>, Seq<Seq<(TermType, Seq<char>)>>),
    TranslateError,
>
    decreases utf8_len(text), 5int, 0int, 0int,
{
    proof {
        lemma_text_bytes_of_one(text);
    }
    match transform_spec(terms, Pass::Intrinsic, seq![Segment::Text(text)]) {
        Err(e) => Err(e),
        Ok(shielded) => match transform_spec(terms, Pass::BeforeBackend, shielded) {
            Err(e) => Err(e),
            Ok(claimed) => Ok(
                encode_spec(inverse_transform_spec(claimed, Some(TermType::Preprocess))),
            ),
        },
    }
}

/// What is made of the backend's reply `translated`.
pub open spec fn finish_spec(
    terms: Seq<RegexTerm>,
    translated: Seq<char>,
    slots: Seq<Seq<(TermType, Seq<char>)>>,
) -> Result<Seq<char>, TranslateError>
    decreases 0int, 5int, 0int, 0int,
{
    match transform_spec(terms, Pass::AfterBackend, decode_spec(translated, slots, 0)) {
        Err(e) => Err(e),
        Ok(polished) => Ok(last_text(concat_spec(inverse_transform_spec(polished, None)))),
    }
}

/// What the pipeline makes of `text` with a backend that changes nothing.
pub open spec fn translate_spec(terms: Seq<RegexTerm>, text: Seq<char>) -> Result<
    Seq<char>,
    TranslateError,
>
    decreases utf8_len(text), 6int, 0int, 0int,
{
    match prepare_spec(terms, text) {
        Err(e) => Err(e),
        Ok((encoded, slots)) => finish_spec(terms, encoded, slots),
    }
}

/// The segments `emitted`, and then those of `rest`; the error of `rest`
/// where it has one.
pub open spec fn after(emitted: Seq<Segment>, rest: Result<Seq<Segment>, TranslateError>) -> Result<
    Seq<Segment>,
    TranslateError,
> {
    match rest {
        Ok(more) => Ok(emitted + more),
        Err(e) => Err(e),
    }
}

/// A match that a scanner reports lies on whole characters of the text.
pub proof fn lemma_scan_fits(terms: Seq<RegexTerm>, pass: Pass, k: int, text: Seq<char>)
    ensures
        scan_spec(terms, pass, k, text) matches Ok(Some((start, end, _))) ==> is_span(
            text,
            start as int,
            end as int,
        ),
{
    if pass == Pass::Intrinsic && k == 1 {
        match tagged_match(HASHTAG_PATTERN@, text) {
            Ok(Some((start, end))) => {
                lemma_tag_is_shorter(text, start, end);
            },
            _ => {},
        }
    }
}

/// What the scanners from `k` on make of a text, case by case.
pub proof fn lemma_helper(terms: Seq<RegexTerm>, pass: Pass, text: Seq<char>, k: int)
    ensures
        text.len() == 0 ==> helper_spec(terms, pass, text, k) == Ok::<Seq<Segment>, TranslateError>(
            Seq::empty(),
        ),
        text.len() > 0 && !(0 <= k < scanners(terms, pass)) ==> helper_spec(terms, pass, text, k)
            == Ok::<Seq<Segment>, TranslateError>(seq![Segment::Text(text)]),
        text.len() > 0 && 0 <= k < scanners(terms, pass) ==> helper_spec(terms, pass, text, k)
            == match applies(terms, pass, k) {
            None => helper_spec(terms, pass, text, k + 1),
            Some(ty) => sweep_spec(terms, pass, text, k, ty, 0),
        },
{
    reveal_with_fuel(helper_spec, 1);
    reveal_with_fuel(sweep_spec, 1);
}

/// A scanner that finds nothing more leaves the text to the later scanners.
pub proof fn lemma_sweep_over(
    terms: Seq<RegexTerm>,
    pass: Pass,
    text: Seq<char>,
    k: int,
    ty: TermType,
    skip: int,
)
    requires
        0 <= k < scanners(terms, pass),
        !(0 <= skip < utf8_len(text) && is_boundary(text, skip)) || scan_spec(
            terms,
            pass,
            k,
            slice(text, skip, utf8_len(text) as int),
        ) == Ok::<Option<Hit>, TranslateError>(None),
    ensures
        sweep_spec(terms, pass, text, k, ty, skip) == helper_spec(terms, pass, text, k + 1),
{
    reveal_with_fuel(helper_spec, 1);
    reveal_with_fuel(sweep_spec, 1);
}

/// A scanner that fails makes the whole search fail.
pub proof fn lemma_sweep_error(
    terms: Seq<RegexTerm>,
    pass: Pass,
    text: Seq<char>,
    k: int,
    ty: TermType,
    skip: int,
)
    requires
        0 <= k < scanners(terms, pass),
        0 <= skip < utf8_len(text),
        is_boundary(text, skip),
        scan_spec(terms, pass, k, slice(text, skip, utf8_len(text) as int)) is Err,
    ensures
        sweep_spec(terms, pass, text, k, ty, skip) is Err,
        sweep_spec(terms, pass, text, k, ty, skip)->Err_0 == scan_spec(
            terms,
            pass,
            k,
            slice(text, skip, utf8_len(text) as int),
        )->Err_0,
{
    reveal_with_fuel(helper_spec, 1);
    reveal_with_fuel(sweep_spec, 1);
}

/// What a scanner makes of a text in which it found a match.
pub proof fn lemma_sweep_hit(
    terms: Seq<RegexTerm>,
    pass: Pass,
    text: Seq<char>,
    k: int,
    ty: TermType,
    skip: int,
    start: usize,
    end: usize,
    replacement: Seq<char>,
)
    requires
        0 <= k < scanners(terms, pass),
        0 <= skip < utf8_len(text),
        is_boundary(text, skip),
        scan_spec(terms, pass, k, slice(text, skip, utf8_len(text) as int)) == Ok::<
            Option<Hit>,
            TranslateError,
        >(Some((start, end, replacement))),
        is_span(slice(text, skip, utf8_len(text) as int), start as int, end as int),
    ensures
        sweep_spec(terms, pass, text, k, ty, skip) == match helper_spec(
            terms,
            pass,
            slice(text, 0, skip + start),
            k + 1,
        ) {
            Err(e) => Err(e),
            Ok(head) => if slice(text, skip + end, utf8_len(text) as int).len() == 0 {
                Ok(head.push(Segment::Term(ty, replacement)))
            } else {
                after(
                    head.push(Segment::Term(ty, replacement)),
                    sweep_spec(
                        terms,
                        pass,
                        slice(text, skip + end, utf8_len(text) as int),
                        k,
                        ty,
                        if start < end {
                            0
                        } else {
                            first_width(slice(text, skip + end, utf8_len(text) as int))
                        },
                    ),
                )
            },
        },
{
    reveal_with_fuel(helper_spec, 1);
    reveal_with_fuel(sweep_spec, 1);
}

/// Joining segments in two steps is joining them in one.
pub proof fn lemma_after_after(
    first: Seq<Segment>,
    second: Seq<Segment>,
    rest: Result<Seq<Segment>, TranslateError>,
)
    ensures
        after(first, after(second, rest)) == after(first + second, rest),
        after(Seq::empty(), rest) == rest,
{
    match rest {
        Ok(more) => {
            assert(first + (second + more) =~= (first + second) + more);
            assert(Seq::<Segment>::empty() + more =~= more);
        },
        Err(_) => {},
    }
}

/// What a pass makes of the segments, by the last of them.
pub proof fn lemma_transform(terms: Seq<RegexTerm>, pass: Pass, parts: Seq<Segment>)
    requires
        parts.len() > 0,
    ensures
        transform_spec(terms, pass, parts) == match transform_spec(
            terms,
            pass,
            parts.drop_last(),
        ) {
            Err(e) => Err(e),
            Ok(done) => match parts.last() {
                Segment::Text(text) => after(done, helper_spec(terms, pass, text, 0)),
                term => Ok(done.push(term)),
            },
        },
{
    reveal_with_fuel(helper_spec, 1);
}

/// A pass that fails on the first parts fails in the same way on all of them.
pub proof fn lemma_transform_error(terms: Seq<RegexTerm>, pass: Pass, parts: Seq<Segment>, n: int)
    requires
        0 <= n <= parts.len(),
        transform_spec(terms, pass, parts.take(n)) is Err,
    ensures
        transform_spec(terms, pass, parts) == transform_spec(terms, pass, parts.take(n)),
    decreases parts.len(),
{
    if n == parts.len() {
        assert(parts.take(n) =~= parts);
    } else {
        assert(parts.drop_last().take(n) =~= parts.take(n));
        lemma_transform_error(terms, pass, parts.drop_last(), n);
    }
}

/// The dictionary engine around one backend and one list of terms, which is
/// sorted by priority.
pub struct DictionaryTranslator<'a, T: Translator + ?Sized> {
    translator: &'a T,
    terms: &'a [RegexTerm],
}

impl<'a, T: Translator + ?Sized> DictionaryTranslator<'a, T> {
    /// The terms of the engine, in the order in which they are tried.
    pub closed spec fn terms(&self) -> Seq<RegexTerm> {
        self.terms@
    }

    /// The backend of the engine.
    pub closed spec fn backend(&self) -> &'a T {
        self.translator
    }

    /// An engine for one translation with `translator` as its backend and
    /// `terms` as its terms.
    pub fn new(translator: &'a T, terms: &'a [RegexTerm]) -> (engine: Self)
        ensures
            engine.terms() == terms@,
            engine.backend() == translator,
    {
        Self { translator, terms }
    }

    /// The number of scanners of a pass.
    fn count(&self, pass: Pass) -> (count: usize)
        ensures
            count == scanners(self.terms(), pass),
    {
        match pass {
            Pass::Intrinsic => 3,
            _ => self.terms.len(),
        }
    }

    /// The stage under which the scanner `k` of a pass protects its matches.
    fn stage(&self, pass: Pass, k: usize) -> (ty: Option<TermType>)
        requires
            k < scanners(self.terms(), pass),
        ensures
            ty == applies(self.terms(), pass, k as int),
    {
        match pass {
            Pass::Intrinsic => Some(TermType::Transform),
            Pass::BeforeBackend => {
                let ty = self.terms[k].ty;
                if ty != TermType::Postprocess {
                    Some(ty)
                } else {
                    None
                }
            },
            Pass::AfterBackend => {
                if self.terms[k].ty == TermType::Postprocess {
                    Some(TermType::Postprocess)
                } else {
                    None
                }
            },
        }
    }

    /// Searches `text` with the scanner `k` of a pass.
    fn scan(&self, pass: Pass, k: usize, text: &str) -> (found: Result<
        Option<(usize, usize, String)>,
        TranslateError,
    >)
        requires
            k < scanners(self.terms(), pass),
        ensures
            match scan_spec(self.terms(), pass, k as int, text@) {
                Err(e) => found matches Err(x) && x == e,
                Ok(None) => found matches Ok(None),
                Ok(Some((start, end, replacement))) => found matches Ok(Some(hit)) && hit.0
                    == start && hit.1 == end && hit.2@ == replacement && is_span(
                    text@,
                    start as int,
                    end as int,
                ),
            },
        decreases budget(pass, text@), 2int, 0int, 0int,
    {
        match pass {
            Pass::Intrinsic => {
                if k == 1 {
                    match find_tagged(HASHTAG_PATTERN, text) {
                        Err(e) => Err(TranslateError::Scan(e)),
                        Ok(None) => Ok(None),
                        Ok(Some((start, end))) => {
                            proof {
                                lemma_tag_is_shorter(text@, start, end);
                            }
                            match self.recurse(substr(text, start + 1, end)) {
                                Err(e) => Err(e),
                                Ok(tag) => {
                                    let mut replacement = String::from_str("#");
                                    replacement.append(tag.as_str());
                                    proof {
                                        reveal_strlit("#");
                                        assert(replacement@ =~= seq!['#'] + tag@);
                                    }
                                    Ok(Some((start, end, replacement)))
                                },
                            }
                        },
                    }
                } else {
                    let pattern = if k == 0 {
                        URL_PATTERN
                    } else {
                        EMOJI_PATTERN
                    };
                    match find_plain(pattern, text) {
                        Err(e) => Err(TranslateError::Scan(e)),
                        Ok(None) => Ok(None),
                        Ok(Some((start, end))) => Ok(
                            Some((start, end, substr(text, start, end).to_owned())),
                        ),
                    }
                }
            },
            _ => {
                let term = &self.terms[k];
                match find_user(term.input.as_str(), text) {
                    Err(e) => Err(TranslateError::Scan(e)),
                    Ok(None) => Ok(None),
                    Ok(Some((start, end))) => Ok(Some((start, end, term.output.clone()))),
                }
            },
        }
    }

    /// Lets the scanners from `k` on claim their matches in `text`, and adds
    /// what they make of it to `out`.
    fn helper(&self, pass: Pass, text: &str, k: usize, out: &mut Vec<Part>) -> (done: Result<
        (),
        TranslateError,
    >)
        ensures
            match helper_spec(self.terms(), pass, text@, k as int) {
                Ok(emitted) => done is Ok && segments(final(out)@) == segments(old(out)@)
                    + emitted,
                Err(e) => done matches Err(x) && x == e,
            },
        decreases budget(pass, text@), 3int, scanners(self.terms(), pass) - k, 2 * utf8_len(text@)
            + 1,
    {
        let ghost terms = self.terms();
        let ghost entry = segments(out@);
        proof {
            lemma_helper(terms, pass, text@, k as int);
        }
        if text.is_empty() {
            assert(entry + Seq::<Segment>::empty() =~= entry);
            return Ok(());
        }
        let count = self.count(pass);
        if k >= count {
            out.push(Part::Text(text.to_owned()));
            assert(segments(out@) =~= entry + seq![Segment::Text(text@)]);
            return Ok(());
        }
        let ty = match self.stage(pass, k) {
            None => {
                return self.helper(pass, text, k + 1, out);
            },
            Some(ty) => ty,
        };
        let mut rest: &str = text;
        let mut skip: usize = 0;
        let ghost mut emitted: Seq<Segment> = Seq::empty();
        proof {
            lemma_slice_whole(text@);
            assert(entry + emitted =~= entry);
            lemma_after_after(emitted, emitted, sweep_spec(terms, pass, rest@, k as int, ty, 0));
        }
        loop
            invariant_except_break
                helper_spec(terms, pass, text@, k as int) == after(
                    emitted,
                    sweep_spec(terms, pass, rest@, k as int, ty, skip as int),
                ),
            invariant
                terms == self.terms(),
                k < count,
                count == scanners(terms, pass),
                rest@.len() > 0,
                skip <= utf8_len(rest@),
                is_boundary(rest@, skip as int),
                budget(pass, rest@) <= budget(pass, text@),
                segments(out@) == entry + emitted,
                entry == segments(old(out)@),
            ensures
                helper_spec(terms, pass, text@, k as int) == after(
                    emitted,
                    helper_spec(terms, pass, rest@, k + 1),
                ),
            decreases utf8_len(rest@) - skip,
        {
            let len = byte_len(rest);
            if skip >= len {
                proof {
                    lemma_sweep_over(terms, pass, rest@, k as int, ty, skip as int);
                }
                break ;
            }
            proof {
                lemma_slice_whole(rest@);
                lemma_slice_bytes(rest@, skip as int, len as int);
            }
            let window = substr(rest, skip, len);
            let (start, end, replacement) = match self.scan(pass, k, window) {
                Err(e) => {
                    proof {
                        lemma_sweep_error(terms, pass, rest@, k as int, ty, skip as int);
                    }
                    return Err(e);
                },
                Ok(None) => {
                    proof {
                        lemma_sweep_over(terms, pass, rest@, k as int, ty, skip as int);
                    }
                    break ;
                },
                Ok(Some(hit)) => hit,
            };
            let ghost term = Segment::Term(ty, replacement@);
            let ghost head_spec = helper_spec(terms, pass, slice(rest@, 0, skip + start), k + 1);
            let ghost before = segments(out@);
            proof {
                lemma_sweep_step(rest@, skip as int, start as int, end as int);
                lemma_sweep_hit(
                    terms,
                    pass,
                    rest@,
                    k as int,
                    ty,
                    skip as int,
                    start,
                    end,
                    replacement@,
                );
            }
            match self.helper(pass, substr(rest, 0, skip + start), k + 1, out) {
                Err(e) => {
                    return Err(e);
                },
                Ok(()) => {},
            }
            let ghost head = head_spec->Ok_0;
            let ghost middle = segments(out@);
            assert(head_spec is Ok);
            assert(middle == before + head);
            out.push(Part::Term(ty, replacement));
            let next = substr(rest, skip + end, len);
            proof {
                assert(segments(out@) =~= middle.push(term));
                assert(segments(out@) =~= entry + (emitted + head.push(term)));
            }
            if next.is_empty() {
                proof {
                    assert(slice(rest@, skip + end, utf8_len(rest@) as int).len() == 0);
                    assert(sweep_spec(terms, pass, rest@, k as int, ty, skip as int) == Ok::<
                        Seq<Segment>,
                        TranslateError,
                    >(head.push(term)));
                    assert(helper_spec(terms, pass, text@, k as int) == Ok::<
                        Seq<Segment>,
                        TranslateError,
                    >(emitted + head.push(term)));
                }
                return Ok(());
            }
            let step = if start < end {
                0
            } else {
                width_of_first(next)
            };
            proof {
                lemma_slice_whole(next@);
                lemma_after_after(
                    emitted,
                    head.push(term),
                    sweep_spec(terms, pass, next@, k as int, ty, step as int),
                );
                emitted = emitted + head.push(term);
            }
            rest = next;
            skip = step;
        }
        let ghost middle = segments(out@);
        let done = self.helper(pass, rest, k + 1, out);
        proof {
            match helper_spec(terms, pass, rest@, k + 1) {
                Ok(more) => {
                    assert(middle + more =~= entry + (emitted + more));
                },
                Err(_) => {},
            }
        }
        done
    }

    /// Runs one pass over the parts: the scanners of the pass claim their
    /// matches in each text, and each protected term stays as it is.
    pub fn transform(&self, text: Vec<Part>, pass: Pass) -> (done: Result<Vec<Part>, TranslateError>)
        ensures
            match transform_spec(self.terms(), pass, segments(text@)) {
                Ok(parts) => done matches Ok(v) && segments(v@) == parts,
                Err(e) => done matches Err(x) && x == e,
            },
        decreases weight(pass, segments(text@)), 4int, text@.len(), 0int,
    {
        let ghost terms = self.terms();
        let ghost all = segments(text@);
        let mut out: Vec<Part> = Vec::with_capacity(text.len());
        let mut at: usize = 0;
        proof {
            assert(all.take(0) =~= Seq::<Segment>::empty());
            assert(segments(out@) =~= Seq::<Segment>::empty());
        }
        while at < text.len()
            invariant
                at <= text@.len(),
                terms == self.terms(),
                all == segments(text@),
                transform_spec(terms, pass, all.take(at as int)) == Ok::<
                    Seq<Segment>,
                    TranslateError,
                >(segments(out@)),
            decreases text@.len() - at,
        {
            let ghost before = segments(out@);
            proof {
                assert(all.take(at + 1).drop_last() =~= all.take(at as int));
                assert(all.take(at + 1).last() == text@[at as int]@);
                lemma_text_bytes_bound(all, at as int);
                lemma_transform(terms, pass, all.take(at + 1));
            }
            match &text[at] {
                Part::Text(piece) => {
                    match self.helper(pass, piece.as_str(), 0, &mut out) {
                        Err(e) => {
                            proof {
                                lemma_transform_error(terms, pass, all, at + 1);
                            }
                            return Err(e);
                        },
                        Ok(()) => {},
                    }
                },
                part => {
                    out.push(copy_part(part));
                    assert(segments(out@) =~= before.push(part@));
                },
            }
            at = at + 1;
        }
        proof {
            assert(all.take(at as int) =~= all);
        }
        Ok(out)
    }

    /// The first half of a translation: protects and claims what the
    /// built-in scanners and the terms match in `text`, and writes the text
    /// for the backend. Returns that text and the slots of its tokens.
    pub fn prepare(&self, text: &str) -> (ready: Result<
        (String, Vec<Vec<(TermType, String)>>),
        TranslateError,
    >)
        ensures
            match prepare_spec(self.terms(), text@) {
                Ok((encoded, slots)) => ready matches Ok(pair) && pair.0@ == encoded && slots_view(
                    pair.1@,
                ) == slots,
                Err(e) => ready matches Err(x) && x == e,
            },
        decreases utf8_len(text@), 5int, 0int, 0int,
    {
        let mut parts: Vec<Part> = Vec::new();
        parts.push(Part::Text(text.to_owned()));
        proof {
            assert(segments(parts@) =~= seq![Segment::Text(text@)]);
            lemma_text_bytes_of_one(text@);
        }
        let shielded = match self.transform(parts, Pass::Intrinsic) {
            Ok(shielded) => shielded,
            Err(e) => {
                return Err(e);
            },
        };
        let claimed = match self.transform(shielded, Pass::BeforeBackend) {
            Ok(claimed) => claimed,
            Err(e) => {
                return Err(e);
            },
        };
        Ok(encode(inverse_transform(claimed, Some(TermType::Preprocess))))
    }

    /// The second half of a translation: reads the tokens in the backend's
    /// reply, lets the terms of the stage `Postprocess` claim their matches,
    /// and joins everything into one text.
    pub fn finish(&self, translated: &str, slots: Vec<Vec<(TermType, String)>>) -> (reply: Result<
        String,
        TranslateError,
    >)
        ensures
            reply_view(reply) == finish_spec(self.terms(), translated@, slots_view(slots@)),
        decreases 0int, 5int, 0int, 0int,
    {
        let decoded = decode(translated, slots);
        let polished = match self.transform(decoded, Pass::AfterBackend) {
            Ok(polished) => polished,
            Err(e) => {
                return Err(e);
            },
        };
        Ok(into_last_text(concat(inverse_transform(polished, None))))
    }

    /// Runs the whole pipeline on `text` with a backend that changes nothing,
    /// whatever the backend of the engine is. This is what a hashtag's tag
    /// goes through.
    pub fn recurse(&self, text: &str) -> (reply: Result<String, TranslateError>)
        ensures
            reply_view(reply) == translate_spec(self.terms(), text@),
        decreases utf8_len(text@), 6int, 0int, 0int,
    {
        match self.prepare(text) {
            Err(e) => Err(e),
            Ok((encoded, slots)) => self.finish(encoded.as_str(), slots),
        }
    }
}

impl<'a, T: Translator + ?Sized> Translator for DictionaryTranslator<'a, T> {
    /// The reply is the error of the first half where that fails; else what
    /// the second half makes of a reply of the backend to the encoded text,
    /// or the backend's error.
    open spec fn replies(&self, text: Seq<char>, reply: Result<Seq<char>, TranslateError>) -> bool {
        match prepare_spec(self.terms(), text) {
            Err(e) => reply == Err::<Seq<char>, TranslateError>(e),
            Ok((encoded, slots)) => exists|answer: Result<Seq<char>, TranslateError>|
                #[trigger] self.backend().replies(encoded, answer) && reply == match answer {
                    Err(e) => Err(e),
                    Ok(translated) => finish_spec(self.terms(), translated, slots),
                },
        }
    }

    fn name(&self) -> (name: &'static str)
        ensures
            name@ == "Term"@,
    {
        "Term"
    }

    fn translate(&self, text: &str) -> (reply: Result<String, TranslateError>) {
        let (encoded, slots) = match self.prepare(text) {
            Ok(pair) => pair,
            Err(e) => {
                return Err(e);
            },
        };
        let answer = self.translator.translate(encoded.as_str());
        let ghost seen = reply_view(answer);
        assert(self.backend().replies(encoded@, seen));
        match answer {
            Err(e) => Err(e),
            Ok(translated) => self.finish(translated.as_str(), slots),
        }
    }
}

/// With the backend that changes nothing, the engine gives what the pipeline
/// makes of the text.
pub proof fn lemma_nop_backend(
    engine: DictionaryTranslator<'_, NopTranslator>,
    text: Seq<char>,
    reply: Result<Seq<char>, TranslateError>,
)
    requires
        engine.replies(text, reply),
    ensures
        reply == translate_spec(engine.terms(), text),
{
}

} // verus!
