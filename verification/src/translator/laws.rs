//! What holds of a translation with a backend that changes nothing.

use crate::schema::RegexTerm;
use crate::schema::TermType;
use crate::text::first_width;
use crate::text::is_boundary;
use crate::text::is_span;
use crate::text::lemma_slice_nested;
use crate::text::lemma_slice_split;
use crate::text::lemma_slice_whole;
use crate::text::slice;
use crate::text::utf8_len;
use crate::translator::dictionary::after;
use crate::translator::dictionary::lemma_scan_fits;
use crate::translator::dictionary::lemma_sweep_hit;
use crate::translator::dictionary::lemma_sweep_over;
use crate::translator::dictionary::lemma_sweep_step;
use crate::translator::dictionary::scan_spec;
use crate::translator::dictionary::sweep_spec;
use crate::translator::dictionary::applies;
use crate::translator::dictionary::finish_spec;
use crate::translator::dictionary::helper_spec;
use crate::translator::dictionary::lemma_helper;
use crate::translator::dictionary::lemma_transform;
use crate::translator::dictionary::prepare_spec;
use crate::translator::dictionary::scanners;
use crate::translator::dictionary::transform_spec;
use crate::translator::dictionary::translate_spec;
use crate::translator::dictionary::Pass;
use crate::translator::parts::flatten;
use crate::translator::parts::inverse_transform_spec;
use crate::translator::parts::lemma_final_text;
use crate::translator::parts::lemma_flatten_add;
use crate::translator::parts::lemma_flatten_push;
use crate::translator::parts::lemma_reveal_keeps_text;
use crate::translator::parts::Segment;
use crate::translator::roundtrip::lemma_decode_encode;
use crate::translator::roundtrip::separable;
use crate::translator::slots::encode_spec;
use crate::translator::TranslateError;
use vstd::prelude::*;

verus! {

/// The pass leaves every scanner out.
pub open spec fn idle(terms: Seq<RegexTerm>, pass: Pass) -> bool {
    forall|k: int| 0 <= k < scanners(terms, pass) ==> applies(terms, pass, k) is None
}

/// The parts that go into the text for the backend, where the first half of
/// the translation succeeds.
pub open spec fn prepared(terms: Seq<RegexTerm>, text: Seq<char>) -> Option<Seq<Segment>> {
    match transform_spec(terms, Pass::Intrinsic, seq![Segment::Text(text)]) {
        Err(_) => None,
        Ok(shielded) => match transform_spec(terms, Pass::BeforeBackend, shielded) {
            Err(_) => None,
            Ok(claimed) => Some(inverse_transform_spec(claimed, Some(TermType::Preprocess))),
        },
    }
}

/// Scanners that a pass leaves out leave a text as it is.
pub proof fn lemma_idle_helper(terms: Seq<RegexTerm>, pass: Pass, text: Seq<char>, k: int)
    requires
        idle(terms, pass),
        0 <= k,
    ensures
        helper_spec(terms, pass, text, k) == Ok::<Seq<Segment>, TranslateError>(
            if text.len() == 0 {
                Seq::empty()
            } else {
                seq![Segment::Text(text)]
            },
        ),
    decreases scanners(terms, pass) - k,
{
    lemma_helper(terms, pass, text, k);
    if text.len() > 0 && k < scanners(terms, pass) {
        lemma_idle_helper(terms, pass, text, k + 1);
    }
}

/// A pass that leaves every scanner out succeeds, and does not change what
/// the parts stand for.
pub proof fn lemma_idle_pass(terms: Seq<RegexTerm>, pass: Pass, parts: Seq<Segment>)
    requires
        idle(terms, pass),
    ensures
        transform_spec(terms, pass, parts) is Ok,
        flatten(transform_spec(terms, pass, parts)->Ok_0) == flatten(parts),
    decreases parts.len(),
{
    if parts.len() > 0 {
        lemma_idle_pass(terms, pass, parts.drop_last());
        lemma_transform(terms, pass, parts);
        let done = transform_spec(terms, pass, parts.drop_last())->Ok_0;
        match parts.last() {
            Segment::Text(text) => {
                lemma_idle_helper(terms, pass, text, 0);
                let more = helper_spec(terms, pass, text, 0)->Ok_0;
                lemma_flatten_add(done, more);
                lemma_flatten_push(done, parts.last());
                if text.len() == 0 {
                    assert(flatten(more) =~= text);
                }
            },
            term => {
                lemma_flatten_push(done, term);
            },
        }
    }
}

/// With a backend that changes nothing, and parts whose texts cannot be taken
/// for tokens, the translation is what the parts stand for after the terms
/// of the stage `Postprocess` have claimed their matches in them.
pub proof fn lemma_nop_translation(terms: Seq<RegexTerm>, text: Seq<char>)
    requires
        prepared(terms, text) matches Some(parts) && separable(parts),
    ensures
        translate_spec(terms, text) == match transform_spec(
            terms,
            Pass::AfterBackend,
            prepared(terms, text)->Some_0,
        ) {
            Err(e) => Err(e),
            Ok(polished) => Ok(flatten(polished)),
        },
{
    let parts = prepared(terms, text)->Some_0;
    lemma_decode_encode(parts);
    match transform_spec(terms, Pass::AfterBackend, parts) {
        Ok(polished) => {
            lemma_final_text(polished);
        },
        Err(_) => {},
    }
}

/// With a backend that changes nothing, no term of the stage `Postprocess`,
/// and parts whose texts cannot be taken for tokens, the translation is the
/// text with every match of a term replaced: what the parts stand for once
/// the terms have claimed their matches.
pub proof fn lemma_nop_substitutes(terms: Seq<RegexTerm>, text: Seq<char>)
    requires
        prepared(terms, text) matches Some(parts) && separable(parts),
        idle(terms, Pass::AfterBackend),
    ensures
        translate_spec(terms, text) == Ok::<Seq<char>, TranslateError>(
            flatten(prepared(terms, text)->Some_0),
        ),
        flatten(prepared(terms, text)->Some_0) == flatten(
            transform_spec(
                terms,
                Pass::BeforeBackend,
                transform_spec(terms, Pass::Intrinsic, seq![Segment::Text(text)])->Ok_0,
            )->Ok_0,
        ),
{
    let parts = prepared(terms, text)->Some_0;
    lemma_nop_translation(terms, text);
    lemma_idle_pass(terms, Pass::AfterBackend, parts);
    let shielded = transform_spec(terms, Pass::Intrinsic, seq![Segment::Text(text)])->Ok_0;
    let claimed = transform_spec(terms, Pass::BeforeBackend, shielded)->Ok_0;
    lemma_reveal_keeps_text(claimed, Some(TermType::Preprocess));
}

/// Every match that the scanner `k` and the later ones find in the text,
/// searching from byte `skip` on, is replaced by what it matched.
pub open spec fn sweep_keeps(
    terms: Seq<RegexTerm>,
    pass: Pass,
    text: Seq<char>,
    k: int,
    skip: int,
) -> bool
    decreases scanners(terms, pass) - k, 2 * (utf8_len(text) - skip),
{
    let len = utf8_len(text) as int;
    if !(0 <= k < scanners(terms, pass)) {
        true
    } else if !(0 <= skip < len && is_boundary(text, skip)) {
        helper_keeps(terms, pass, text, k + 1)
    } else {
        let window = slice(text, skip, len);
        match scan_spec(terms, pass, k, window) {
            Err(_) => true,
            Ok(None) => helper_keeps(terms, pass, text, k + 1),
            Ok(Some((start, end, replacement))) => if !is_span(window, start as int, end as int) {
                true
            } else {
                proof {
                    lemma_sweep_step(text, skip, start as int, end as int);
                }
                let rest = slice(text, skip + end, len);
                &&& replacement == slice(window, start as int, end as int)
                &&& helper_keeps(terms, pass, slice(text, 0, skip + start), k + 1)
                &&& rest.len() > 0 ==> sweep_keeps(
                    terms,
                    pass,
                    rest,
                    k,
                    if start < end {
                        0
                    } else {
                        first_width(rest)
                    },
                )
            },
        }
    }
}

/// Every match that the scanners from `k` on find in the text is replaced by
/// what it matched.
pub open spec fn helper_keeps(terms: Seq<RegexTerm>, pass: Pass, text: Seq<char>, k: int) -> bool
    decreases scanners(terms, pass) - k, 2 * utf8_len(text) + 1,
{
    if text.len() == 0 || !(0 <= k < scanners(terms, pass)) {
        true
    } else {
        match applies(terms, pass, k) {
            None => helper_keeps(terms, pass, text, k + 1),
            Some(_) => sweep_keeps(terms, pass, text, k, 0),
        }
    }
}

/// Where every match is replaced by what it matched, the parts that a
/// scanner makes of a text stand for the text.
pub proof fn lemma_sweep_keeps(
    terms: Seq<RegexTerm>,
    pass: Pass,
    text: Seq<char>,
    k: int,
    ty: TermType,
    skip: int,
)
    requires
        sweep_keeps(terms, pass, text, k, skip),
        sweep_spec(terms, pass, text, k, ty, skip) is Ok,
        text.len() > 0,
        0 <= k < scanners(terms, pass),
    ensures
        flatten(sweep_spec(terms, pass, text, k, ty, skip)->Ok_0) == text,
    decreases scanners(terms, pass) - k, 2 * (utf8_len(text) - skip),
{
    let len = utf8_len(text) as int;
    if !(0 <= skip < len && is_boundary(text, skip)) {
        lemma_sweep_over(terms, pass, text, k, ty, skip);
        lemma_helper_keeps(terms, pass, text, k + 1);
    } else {
        let window = slice(text, skip, len);
        match scan_spec(terms, pass, k, window) {
            Err(_) => {
                crate::translator::dictionary::lemma_sweep_error(terms, pass, text, k, ty, skip);
            },
            Ok(None) => {
                lemma_sweep_over(terms, pass, text, k, ty, skip);
                lemma_helper_keeps(terms, pass, text, k + 1);
            },
            Ok(Some((start, end, replacement))) => {
                lemma_scan_fits(terms, pass, k, window);
                if is_span(window, start as int, end as int) {
                    lemma_sweep_step(text, skip, start as int, end as int);
                    lemma_sweep_hit(terms, pass, text, k, ty, skip, start, end, replacement);
                    lemma_slice_whole(text);
                    let from = skip + start;
                    let to = skip + end;
                    let prefix = slice(text, 0, from);
                    let rest = slice(text, to, len);
                    let term = Segment::Term(ty, replacement);
                    lemma_helper_keeps(terms, pass, prefix, k + 1);
                    let head = helper_spec(terms, pass, prefix, k + 1)->Ok_0;
                    lemma_flatten_push(head, term);
                    lemma_slice_nested(text, skip, len, start as int, end as int);
                    lemma_slice_split(text, 0, from, to);
                    lemma_slice_split(text, 0, to, len);
                    if rest.len() > 0 {
                        let step = if start < end {
                            0
                        } else {
                            first_width(rest)
                        };
                        lemma_sweep_keeps(terms, pass, rest, k, ty, step);
                        let tail = sweep_spec(terms, pass, rest, k, ty, step)->Ok_0;
                        lemma_flatten_add(head.push(term), tail);
                    } else {
                        assert(prefix + replacement + rest =~= prefix + replacement);
                    }
                }
            },
        }
    }
}

/// Where every match is replaced by what it matched, the parts that the
/// scanners make of a text stand for the text.
pub proof fn lemma_helper_keeps(terms: Seq<RegexTerm>, pass: Pass, text: Seq<char>, k: int)
    requires
        helper_keeps(terms, pass, text, k),
        helper_spec(terms, pass, text, k) is Ok,
    ensures
        flatten(helper_spec(terms, pass, text, k)->Ok_0) == text,
    decreases scanners(terms, pass) - k, 2 * utf8_len(text) + 1,
{
    lemma_helper(terms, pass, text, k);
    if text.len() == 0 {
        lemma_flatten_push(Seq::empty(), Segment::Text(text));
        assert(flatten(Seq::<Segment>::empty()) =~= text);
    } else if !(0 <= k < scanners(terms, pass)) {
        lemma_flatten_push(Seq::empty(), Segment::Text(text));
    } else {
        match applies(terms, pass, k) {
            None => {
                lemma_helper_keeps(terms, pass, text, k + 1);
            },
            Some(ty) => {
                lemma_sweep_keeps(terms, pass, text, k, ty, 0);
            },
        }
    }
}

/// Without terms, with a backend that changes nothing, the translation of a
/// text is the text: where no part of it can be taken for a token, and each
/// hashtag in it comes back as it is.
pub proof fn lemma_nop_identity(text: Seq<char>)
    requires
        prepared(Seq::empty(), text) matches Some(parts) && separable(parts),
        helper_keeps(Seq::empty(), Pass::Intrinsic, text, 0),
    ensures
        translate_spec(Seq::empty(), text) == Ok::<Seq<char>, TranslateError>(text),
{
    let terms = Seq::<RegexTerm>::empty();
    let one = seq![Segment::Text(text)];
    lemma_nop_substitutes(terms, text);
    let shielded = transform_spec(terms, Pass::Intrinsic, one)->Ok_0;
    lemma_idle_pass(terms, Pass::BeforeBackend, shielded);
    lemma_transform(terms, Pass::Intrinsic, one);
    assert(one.drop_last() =~= Seq::<Segment>::empty());
    assert(transform_spec(terms, Pass::Intrinsic, one.drop_last()) == Ok::<
        Seq<Segment>,
        TranslateError,
    >(Seq::empty()));
    lemma_helper_keeps(terms, Pass::Intrinsic, text, 0);
    let made = helper_spec(terms, Pass::Intrinsic, text, 0)->Ok_0;
    assert(Seq::<Segment>::empty() + made =~= made);
}

} // verus!
