//! The term model: what a user-curated term is, whom it applies to, and the
//! order in which terms are tried.

use crate::text::byte_len;
use crate::text::same_text;
use crate::text::utf8_len;
use std::cmp::Ordering;
use vstd::prelude::*;
use vstd::string::*;

verus! {

/// The stage of the pipeline at which a term is applied.
#[derive(Clone, Copy, Debug, PartialEq, Eq, Structural)]
pub enum TermType {
    /// Substituted into the text before it is sent to the backend.
    Preprocess,
    /// Shielded from the backend behind a placeholder.
    Transform,
    /// Applied to what the backend returned.
    Postprocess,
}

impl Default for TermType {
    fn default() -> (ty: Self)
        ensures
            ty == TermType::Transform,
    {
        TermType::Transform
    }
}

impl TermType {
    /// The place of a stage in the pipeline: earlier stages come first.
    pub open spec fn rank(self) -> nat {
        match self {
            TermType::Preprocess => 0,
            TermType::Transform => 1,
            TermType::Postprocess => 2,
        }
    }

    /// The place of a stage in the pipeline.
    pub fn stage(self) -> (rank: u8)
        ensures
            rank == self.rank(),
    {
        match self {
            TermType::Preprocess => 0,
            TermType::Transform => 1,
            TermType::Postprocess => 2,
        }
    }
}

/// A list of names that either admits only its members or everything but
/// its members.
#[derive(Clone, Debug, PartialEq, Eq)]
pub struct FilterList {
    /// Whether the listed names are the ones shut out.
    pub exclude: bool,
    /// The listed names.
    pub list: Vec<String>,
}

impl FilterList {
    /// `value` is one of the listed names.
    pub open spec fn lists(self, value: Seq<char>) -> bool {
        exists|i: int| 0 <= i < self.list@.len() && (#[trigger] self.list@[i])@ == value
    }

    /// `value` passes the filter: it is listed, or the list excludes and it
    /// is not listed.
    pub open spec fn admits(self, value: Seq<char>) -> bool {
        self.lists(value) != self.exclude
    }

    /// Whether `value` passes the filter.
    pub fn contains(&self, value: &str) -> (admitted: bool)
        ensures
            admitted == self.admits(value@),
    {
        let mut listed = false;
        let mut at: usize = 0;
        while at < self.list.len()
            invariant
                at <= self.list@.len(),
                listed == exists|i: int|
                    0 <= i < at && (#[trigger] self.list@[i])@ == value@,
            decreases self.list@.len() - at,
        {
            if same_text(self.list[at].as_str(), value) {
                listed = true;
            }
            at = at + 1;
        }
        listed != self.exclude
    }
}

/// A rule that replaces what a pattern matches.
#[derive(Clone, Debug, PartialEq, Eq)]
pub struct RegexTerm {
    /// The pattern, as the regular expression's source.
    pub input: String,
    /// What a match is replaced by.
    pub output: String,
    /// The target language that the term is for; every language when absent.
    pub target_lang: Option<String>,
    /// The backends that the term is for; every backend when absent.
    pub translator: Option<FilterList>,
    /// Terms with a lower priority are tried first.
    pub priority: u32,
    /// Kept with the term; the pipeline does not read it.
    pub context: Option<FilterList>,
    /// The stage at which the term is applied.
    pub ty: TermType,
    /// Free text.
    pub comment: String,
}

/// The order in which terms are tried: by priority, then by stage, then the
/// shorter pattern first.
pub open spec fn priority_order(a: RegexTerm, b: RegexTerm) -> Ordering {
    if a.priority < b.priority {
        Ordering::Less
    } else if a.priority > b.priority {
        Ordering::Greater
    } else if a.ty.rank() < b.ty.rank() {
        Ordering::Less
    } else if a.ty.rank() > b.ty.rank() {
        Ordering::Greater
    } else if utf8_len(a.input@) < utf8_len(b.input@) {
        Ordering::Less
    } else if utf8_len(a.input@) > utf8_len(b.input@) {
        Ordering::Greater
    } else {
        Ordering::Equal
    }
}

/// `a` is tried no later than `b`.
pub open spec fn comes_first(a: RegexTerm, b: RegexTerm) -> bool {
    priority_order(a, b) != Ordering::Greater
}

impl RegexTerm {
    /// A term with the given pattern, replacement and stage, for every
    /// language and backend, with priority 0.
    pub fn new(input: &str, output: &str, ty: TermType) -> (term: Self)
        ensures
            term.input@ == input@,
            term.output@ == output@,
            term.ty == ty,
            term.priority == 0,
            term.target_lang is None,
            term.translator is None,
            term.context is None,
            term.comment@.len() == 0,
    {
        RegexTerm {
            input: input.to_owned(),
            output: output.to_owned(),
            target_lang: None,
            translator: None,
            priority: 0,
            context: None,
            ty,
            comment: String::new(),
        }
    }

    /// Where `self` stands relative to `other` in the order in which terms
    /// are tried.
    pub fn compare_priority(&self, other: &Self) -> (order: Ordering)
        ensures
            order == priority_order(*self, *other),
    {
        if self.priority < other.priority {
            return Ordering::Less;
        }
        if self.priority > other.priority {
            return Ordering::Greater;
        }
        let mine = self.ty.stage();
        let theirs = other.ty.stage();
        if mine < theirs {
            return Ordering::Less;
        }
        if mine > theirs {
            return Ordering::Greater;
        }
        let my_len = byte_len(self.input.as_str());
        let their_len = byte_len(other.input.as_str());
        if my_len < their_len {
            Ordering::Less
        } else if my_len > their_len {
            Ordering::Greater
        } else {
            Ordering::Equal
        }
    }
}

/// Whether `a` is tried no later than `b`.
pub fn comes_before(a: &RegexTerm, b: &RegexTerm) -> (yes: bool)
    ensures
        yes == comes_first(*a, *b),
{
    match a.compare_priority(b) {
        Ordering::Greater => false,
        _ => true,
    }
}

/// Of two terms with the same priority and stage, the one with the shorter
/// pattern is tried first.
pub proof fn lemma_shorter_pattern_first(a: RegexTerm, b: RegexTerm)
    requires
        a.priority == b.priority,
        a.ty == b.ty,
        utf8_len(a.input@) < utf8_len(b.input@),
    ensures
        priority_order(a, b) == Ordering::Less,
        priority_order(b, a) == Ordering::Greater,
{
}

/// The order of terms is total: comparing a term with itself gives equality,
/// swapping the sides swaps the answer, and the order is transitive.
pub proof fn lemma_priority_order_total(a: RegexTerm, b: RegexTerm, c: RegexTerm)
    ensures
        priority_order(a, a) == Ordering::Equal,
        priority_order(a, b) == Ordering::Less <==> priority_order(b, a) == Ordering::Greater,
        priority_order(a, b) == Ordering::Equal <==> priority_order(b, a) == Ordering::Equal,
        comes_first(a, b) || comes_first(b, a),
        comes_first(a, b) && comes_first(b, c) ==> comes_first(a, c),
{
}

/// A lower priority decides before the stage, and the stage before the
/// length of the pattern.
pub proof fn lemma_priority_order_keys(a: RegexTerm, b: RegexTerm)
    ensures
        a.priority < b.priority ==> priority_order(a, b) == Ordering::Less,
        a.priority == b.priority && a.ty.rank() < b.ty.rank() ==> priority_order(a, b)
            == Ordering::Less,
{
}

} // verus!
