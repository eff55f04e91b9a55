//! What the server decides for a request: which terms take part in a
//! translation, and what a failed request is answered with.

use crate::schema::comes_first;
use crate::schema::RegexTerm;
use crate::text::same_text;
use vstd::prelude::*;
use vstd::string::*;

verus! {

/// A value with the key under which it is kept.
#[derive(Clone, Debug, PartialEq, Eq)]
pub struct Keyed<K, V> {
    pub key: K,
    pub value: V,
}

/// The body of the answer to a failed request.
#[derive(Clone, Debug, PartialEq, Eq)]
pub struct ErrorMessage {
    pub error: String,
}

/// How a request failed.
#[derive(Clone, Copy, Debug, PartialEq, Eq, Structural)]
pub enum Rejection {
    /// No route matches the request.
    NotFound,
    /// The request was routed, and handling it failed.
    Failed,
    /// The parameters of the address are not what the route takes.
    InvalidQuery,
    /// The route does not take the method of the request.
    MethodNotAllowed,
    /// Anything else.
    Unhandled,
}

/// The status code that answers a failed request.
pub open spec fn status_of(rejection: Rejection) -> u16 {
    match rejection {
        Rejection::NotFound => 404,
        Rejection::Failed => 500,
        Rejection::InvalidQuery => 422,
        Rejection::MethodNotAllowed => 405,
        Rejection::Unhandled => 500,
    }
}

/// The message that answers a failed request.
pub open spec fn message_of(rejection: Rejection) -> Seq<char> {
    match rejection {
        Rejection::NotFound => "NOT_FOUND"@,
        Rejection::Failed => "INTERNAL_SERVER_ERROR"@,
        Rejection::InvalidQuery => "INVALID_QUERY"@,
        Rejection::MethodNotAllowed => "METHOD_NOT_ALLOWED"@,
        Rejection::Unhandled => "UNHANDLED_REJECTION"@,
    }
}

/// The status code and the body that answer a failed request.
pub fn handle_rejection(rejection: Rejection) -> (answer: (u16, ErrorMessage))
    ensures
        answer.0 == status_of(rejection),
        answer.1.error@ == message_of(rejection),
{
    let (code, message): (u16, &'static str) = match rejection {
        Rejection::NotFound => (404, "NOT_FOUND"),
        Rejection::Failed => (500, "INTERNAL_SERVER_ERROR"),
        Rejection::InvalidQuery => (422, "INVALID_QUERY"),
        Rejection::MethodNotAllowed => (405, "METHOD_NOT_ALLOWED"),
        Rejection::Unhandled => (500, "UNHANDLED_REJECTION"),
    };
    (code, ErrorMessage { error: message.to_owned() })
}

/// Whether texts can be translated to `target_lang`: to English and to
/// Chinese they can.
pub fn supports(target_lang: &str) -> (supported: bool)
    ensures
        supported == (target_lang@ == "en"@ || target_lang@ == "zh"@),
{
    same_text(target_lang, "en") || same_text(target_lang, "zh")
}

/// The term takes part in translations to `target_lang` by the backend
/// `translator`: it names no language or this one, and it has no list of
/// backends or one that admits this one.
pub open spec fn eligible(term: RegexTerm, target_lang: Seq<char>, translator: Seq<char>) -> bool {
    &&& term.target_lang matches Some(language) ==> language@ == target_lang
    &&& term.translator matches Some(list) ==> list.admits(translator)
}

/// The eligible terms among `all`, in their order.
pub open spec fn eligible_of(all: Seq<RegexTerm>, target_lang: Seq<char>, translator: Seq<char>) -> Seq<
    RegexTerm,
>
    decreases all.len(),
{
    if all.len() == 0 {
        Seq::empty()
    } else if eligible(all.last(), target_lang, translator) {
        eligible_of(all.drop_last(), target_lang, translator).push(all.last())
    } else {
        eligible_of(all.drop_last(), target_lang, translator)
    }
}

/// The sorted terms with `term` put behind the last term that is tried no
/// later than it.
pub open spec fn placed(sorted: Seq<RegexTerm>, term: RegexTerm) -> Seq<RegexTerm>
    decreases sorted.len(),
{
    if sorted.len() == 0 {
        seq![term]
    } else if comes_first(sorted.last(), term) {
        sorted.push(term)
    } else {
        placed(sorted.drop_last(), term).push(sorted.last())
    }
}

/// The terms in the order in which they are tried; terms that the order does
/// not tell apart keep their order.
pub open spec fn sorted_of(terms: Seq<RegexTerm>) -> Seq<RegexTerm>
    decreases terms.len(),
{
    if terms.len() == 0 {
        Seq::empty()
    } else {
        placed(sorted_of(terms.drop_last()), terms.last())
    }
}

/// Each term is tried no later than every term behind it.
pub open spec fn in_order(terms: Seq<RegexTerm>) -> bool {
    forall|i: int, j: int| 0 <= i < j < terms.len() ==> comes_first(terms[i], terms[j])
}

/// Whether the term takes part in translations to `target_lang` by the
/// backend `translator`.
pub fn is_eligible(term: &RegexTerm, target_lang: &str, translator: &str) -> (yes: bool)
    ensures
        yes == eligible(*term, target_lang@, translator@),
{
    let for_language = match &term.target_lang {
        Some(language) => same_text(language.as_str(), target_lang),
        None => true,
    };
    let for_backend = match &term.translator {
        Some(list) => list.contains(translator),
        None => true,
    };
    for_language && for_backend
}

/// Puts `term` into the sorted terms, behind the last term that is tried no
/// later than it.
pub fn place(sorted: &mut Vec<RegexTerm>, term: RegexTerm)
    ensures
        final(sorted)@ == placed(old(sorted)@, term),
{
    let mut at: usize = sorted.len();
    proof {
        assert(sorted@.take(at as int) =~= sorted@);
        assert(sorted@.skip(at as int) =~= Seq::<RegexTerm>::empty());
        assert(placed(sorted@, term) + Seq::<RegexTerm>::empty() =~= placed(sorted@, term));
    }
    while at > 0 && !crate::schema::comes_before(&sorted[at - 1], &term)
        invariant
            at <= sorted@.len(),
            sorted@ == old(sorted)@,
            placed(sorted@, term) == placed(sorted@.take(at as int), term) + sorted@.skip(
                at as int,
            ),
        decreases at,
    {
        proof {
            let head = sorted@.take(at as int);
            assert(head.last() == sorted@[at - 1]);
            assert(head.drop_last() =~= sorted@.take(at - 1));
            assert(placed(head.drop_last(), term).push(head.last()) + sorted@.skip(at as int)
                =~= placed(head.drop_last(), term) + sorted@.skip(at - 1));
        }
        at = at - 1;
    }
    proof {
        let head = sorted@.take(at as int);
        if at > 0 {
            assert(head.last() == sorted@[at - 1]);
        }
        assert(placed(head, term) == head.push(term));
        assert(sorted@.insert(at as int, term) =~= head.push(term) + sorted@.skip(at as int));
    }
    sorted.insert(at, term);
}

/// The terms that take part in translations to `target_lang` by the backend
/// `translator`, in the order in which they are tried.
pub fn eligible_terms(all: Vec<RegexTerm>, target_lang: &str, translator: &str) -> (terms: Vec<
    RegexTerm,
>)
    ensures
        terms@ == sorted_of(eligible_of(all@, target_lang@, translator@)),
{
    let mut all = all;
    let ghost whole = all@;
    let mut terms: Vec<RegexTerm> = Vec::new();
    let ghost mut seen: int = 0;
    proof {
        assert(whole.take(0) =~= Seq::<RegexTerm>::empty());
        assert(whole.skip(0) =~= whole);
    }
    while all.len() > 0
        invariant
            0 <= seen <= whole.len(),
            all@ == whole.skip(seen),
            terms@ == sorted_of(eligible_of(whole.take(seen), target_lang@, translator@)),
        decreases all@.len(),
    {
        let term = all.remove(0);
        proof {
            assert(term == whole[seen]);
            assert(all@ =~= whole.skip(seen + 1));
            assert(whole.take(seen + 1).drop_last() =~= whole.take(seen));
            assert(whole.take(seen + 1).last() == term);
            seen = seen + 1;
        }
        let ghost before = eligible_of(whole.take(seen - 1), target_lang@, translator@);
        if is_eligible(&term, target_lang, translator) {
            proof {
                assert(before.push(term).drop_last() =~= before);
                assert(eligible_of(whole.take(seen), target_lang@, translator@) == before.push(
                    term,
                ));
            }
            place(&mut terms, term);
        } else {
            assert(eligible_of(whole.take(seen), target_lang@, translator@) == before);
        }
    }
    proof {
        assert(whole.take(seen) =~= whole);
    }
    terms
}

/// Putting a term into sorted terms keeps them sorted, and adds that term and
/// nothing else.
pub proof fn lemma_placed(sorted: Seq<RegexTerm>, term: RegexTerm)
    requires
        in_order(sorted),
    ensures
        in_order(placed(sorted, term)),
        placed(sorted, term).to_multiset() == sorted.to_multiset().insert(term),
    decreases sorted.len(),
{
    broadcast use vstd::seq_lib::group_to_multiset_ensures;

    if sorted.len() == 0 {
        assert(seq![term] =~= sorted.push(term));
    } else if comes_first(sorted.last(), term) {
        let longer = sorted.push(term);
        assert forall|i: int, j: int| 0 <= i < j < longer.len() implies comes_first(
            longer[i],
            longer[j],
        ) by {
            if j == sorted.len() && i < sorted.len() - 1 {
                crate::schema::lemma_priority_order_total(sorted[i], sorted.last(), term);
            }
        }
    } else {
        let shorter = sorted.drop_last();
        let last = sorted.last();
        assert(in_order(shorter));
        lemma_placed(shorter, term);
        let inner = placed(shorter, term);
        let longer = inner.push(last);
        crate::schema::lemma_priority_order_total(last, term, term);
        assert forall|i: int, j: int| 0 <= i < j < longer.len() implies comes_first(
            longer[i],
            longer[j],
        ) by {
            if j == inner.len() {
                assert(inner.to_multiset().count(inner[i]) > 0);
                if inner[i] != term {
                    assert(shorter.to_multiset().count(inner[i]) > 0);
                    assert(shorter.contains(inner[i]));
                    let at = choose|at: int| 0 <= at < shorter.len() && shorter[at] == inner[i];
                    assert(comes_first(sorted[at], sorted[sorted.len() - 1]));
                }
            }
        }
        assert(sorted =~= shorter.push(last));
        assert(longer.to_multiset() =~= sorted.to_multiset().insert(term));
    }
}

/// The sorted terms are in order, and are the same terms, each as often as
/// before.
pub proof fn lemma_sorted_of(terms: Seq<RegexTerm>)
    ensures
        in_order(sorted_of(terms)),
        sorted_of(terms).to_multiset() == terms.to_multiset(),
    decreases terms.len(),
{
    broadcast use vstd::seq_lib::group_to_multiset_ensures;

    if terms.len() > 0 {
        lemma_sorted_of(terms.drop_last());
        lemma_placed(sorted_of(terms.drop_last()), terms.last());
        assert(terms =~= terms.drop_last().push(terms.last()));
    }
}

/// Every term among the eligible ones is eligible and was among all, and
/// every eligible term among all is among them.
pub proof fn lemma_eligible_of(
    all: Seq<RegexTerm>,
    target_lang: Seq<char>,
    translator: Seq<char>,
    term: RegexTerm,
)
    ensures
        eligible_of(all, target_lang, translator).contains(term) <==> all.contains(term)
            && eligible(term, target_lang, translator),
    decreases all.len(),
{
    let kept = eligible_of(all, target_lang, translator);
    if all.len() > 0 {
        let fewer = eligible_of(all.drop_last(), target_lang, translator);
        lemma_eligible_of(all.drop_last(), target_lang, translator, term);
        if all.contains(term) {
            let at = choose|at: int| 0 <= at < all.len() && all[at] == term;
            if at < all.len() - 1 {
                assert(all.drop_last()[at] == term);
            }
        }
        if all.drop_last().contains(term) {
            let at = choose|at: int| 0 <= at < all.drop_last().len() && all.drop_last()[at] == term;
            assert(all[at] == term);
        }
        if eligible(all.last(), target_lang, translator) {
            assert(kept == fewer.push(all.last()));
            if fewer.contains(term) {
                let at = choose|at: int| 0 <= at < fewer.len() && fewer[at] == term;
                assert(kept[at] == term);
            }
            assert(kept[kept.len() - 1] == all.last());
            if kept.contains(term) {
                let at = choose|at: int| 0 <= at < kept.len() && kept[at] == term;
                if at < kept.len() - 1 {
                    assert(fewer[at] == term);
                }
            }
        }
    }
}

} // verus!
