//! The catalogue of terms: each term is kept under an id of its own.

use crate::api::Keyed;
use crate::numerals::decimal;
use crate::numerals::decimal_spec;
use crate::numerals::lemma_decimal_distinct;
use crate::scan::accepts;
use crate::scan::fancy_accepts;
use crate::schema::RegexTerm;
use crate::text::same_text;
use vstd::prelude::*;
use vstd::set_lib::lemma_int_range;
use vstd::set_lib::lemma_len_subset;
use vstd::set_lib::set_int_range;
use vstd::string::*;

verus! {

/// Why the catalogue refused a request.
#[derive(Clone, Copy, Debug, PartialEq, Eq, Structural)]
pub enum CatalogueError {
    /// No term is kept under the id.
    NotFound,
    /// The pattern of the term is not a regular expression.
    InvalidPattern,
}

impl CatalogueError {
    /// What the error says.
    pub open spec fn message_spec(self) -> Seq<char> {
        match self {
            CatalogueError::NotFound => "Term ID does not exist"@,
            CatalogueError::InvalidPattern => "A pattern is not a regular expression"@,
        }
    }

    /// What the error says.
    pub fn message(&self) -> (text: String)
        ensures
            text@ == self.message_spec(),
    {
        match self {
            CatalogueError::NotFound => String::from_str("Term ID does not exist"),
            CatalogueError::InvalidPattern => String::from_str(
                "A pattern is not a regular expression",
            ),
        }
    }
}

/// No two entries have the same key.
pub open spec fn keys_distinct(entries: Seq<Keyed<String, RegexTerm>>) -> bool {
    forall|i: int, j: int|
        0 <= i < j < entries.len() ==> (#[trigger] entries[i]).key@ != (#[trigger] entries[j]).key@
}

/// An entry has the key `id`.
pub open spec fn holds(entries: Seq<Keyed<String, RegexTerm>>, id: Seq<char>) -> bool {
    exists|i: int| 0 <= i < entries.len() && (#[trigger] entries[i]).key@ == id
}

/// Where an entry has the key `id`.
pub open spec fn place_of(entries: Seq<Keyed<String, RegexTerm>>, id: Seq<char>) -> int {
    choose|i: int| 0 <= i < entries.len() && (#[trigger] entries[i]).key@ == id
}

/// The terms of the entries, each under its key.
pub open spec fn map_of(entries: Seq<Keyed<String, RegexTerm>>) -> Map<Seq<char>, RegexTerm> {
    Map::new(|id: Seq<char>| holds(entries, id), |id: Seq<char>| entries[place_of(entries, id)].value)
}

/// `n` is the least number whose decimal form is none of the ids.
pub open spec fn is_fresh(ids: Set<Seq<char>>, n: nat) -> bool {
    &&& !ids.contains(decimal_spec(n))
    &&& forall|m: nat| m < n ==> ids.contains(#[trigger] decimal_spec(m))
}

/// Each entry is found under its key.
pub proof fn lemma_map_of(entries: Seq<Keyed<String, RegexTerm>>, i: int)
    requires
        keys_distinct(entries),
        0 <= i < entries.len(),
    ensures
        holds(entries, entries[i].key@),
        place_of(entries, entries[i].key@) == i,
        map_of(entries).contains_key(entries[i].key@),
        map_of(entries)[entries[i].key@] == entries[i].value,
{
    let id = entries[i].key@;
    let at = place_of(entries, id);
    assert(0 <= at < entries.len() && entries[at].key@ == id);
    if at < i {
        assert(entries[at].key@ != entries[i].key@);
    } else if i < at {
        assert(entries[i].key@ != entries[at].key@);
    }
}

/// The terms that a user curates, each kept under an id.
#[derive(Debug)]
pub struct Catalogue {
    entries: Vec<Keyed<String, RegexTerm>>,
}

impl View for Catalogue {
    type V = Map<Seq<char>, RegexTerm>;

    closed spec fn view(&self) -> Map<Seq<char>, RegexTerm> {
        map_of(self.entries@)
    }
}

impl Catalogue {
    /// No two terms are kept under the same id.
    pub closed spec fn well_formed(&self) -> bool {
        keys_distinct(self.entries@)
    }

    /// A catalogue without terms.
    pub fn new() -> (catalogue: Self)
        ensures
            catalogue.well_formed(),
            catalogue@ == Map::<Seq<char>, RegexTerm>::empty(),
    {
        let catalogue = Catalogue { entries: Vec::new() };
        assert(catalogue@ =~= Map::<Seq<char>, RegexTerm>::empty());
        catalogue
    }

    /// A catalogue of the entries; `None` where two of them have the same
    /// key.
    pub fn from_entries(entries: Vec<Keyed<String, RegexTerm>>) -> (made: Option<Self>)
        ensures
            made is Some <==> keys_distinct(entries@),
            made matches Some(catalogue) ==> catalogue.well_formed() && catalogue@ == map_of(
                entries@,
            ),
    {
        let mut j: usize = 0;
        while j < entries.len()
            invariant
                j <= entries@.len(),
                keys_distinct(entries@.take(j as int)),
            decreases entries@.len() - j,
        {
            let mut i: usize = 0;
            while i < j
                invariant
                    i <= j < entries@.len(),
                    forall|m: int| 0 <= m < i ==> (#[trigger] entries@[m]).key@ != entries@[j as int].key@,
                decreases j - i,
            {
                if same_text(entries[i].key.as_str(), entries[j].key.as_str()) {
                    return None;
                }
                i = i + 1;
            }
            assert(keys_distinct(entries@.take(j + 1))) by {
                assert forall|a: int, b: int| 0 <= a < b < j + 1 implies (#[trigger] entries@.take(
                    j + 1,
                )[a]).key@ != (#[trigger] entries@.take(j + 1)[b]).key@ by {
                    if b < j {
                        assert(entries@.take(j as int)[a].key@ != entries@.take(j as int)[b].key@);
                    }
                }
            }
            j = j + 1;
        }
        assert(entries@.take(j as int) =~= entries@);
        Some(Catalogue { entries })
    }

    /// The entries of the catalogue, in no particular order.
    pub fn into_entries(self) -> (entries: Vec<Keyed<String, RegexTerm>>)
        requires
            self.well_formed(),
        ensures
            keys_distinct(entries@),
            map_of(entries@) == self@,
    {
        self.entries
    }

    /// Where the entry with the key `id` stands.
    fn position(&self, id: &str) -> (at: Option<usize>)
        ensures
            at matches Some(i) ==> i < self.entries@.len() && self.entries@[i as int].key@ == id@,
            at is None ==> !holds(self.entries@, id@),
    {
        let mut i: usize = 0;
        while i < self.entries.len()
            invariant
                i <= self.entries@.len(),
                forall|m: int| 0 <= m < i ==> (#[trigger] self.entries@[m]).key@ != id@,
            decreases self.entries@.len() - i,
        {
            if same_text(self.entries[i].key.as_str(), id) {
                return Some(i);
            }
            i = i + 1;
        }
        None
    }

    /// The term that is kept under `id`.
    pub fn get_by_id(&self, id: &str) -> (found: Option<&RegexTerm>)
        requires
            self.well_formed(),
        ensures
            found matches Some(term) ==> self@.contains_key(id@) && *term == self@[id@],
            found is None ==> !self@.contains_key(id@),
    {
        match self.position(id) {
            Some(i) => {
                proof {
                    lemma_map_of(self.entries@, i as int);
                }
                Some(&self.entries[i].value)
            },
            None => None,
        }
    }

    /// Keeps `term` under the least number that is no id yet, and returns
    /// that id. A term whose pattern is no regular expression is refused.
    pub fn insert(&mut self, term: RegexTerm) -> (made: Result<String, CatalogueError>)
        requires
            old(self).well_formed(),
        ensures
            final(self).well_formed(),
            !fancy_accepts(term.input@) ==> made == Err::<String, CatalogueError>(
                CatalogueError::InvalidPattern,
            ) && final(self)@ == old(self)@,
            fancy_accepts(term.input@) ==> (made matches Ok(id) && final(self)@ == old(self)@.insert(
                id@,
                term,
            ) && exists|n: nat| is_fresh(old(self)@.dom(), n) && id@ == #[trigger] decimal_spec(n)),
    {
        if !accepts(term.input.as_str()) {
            return Err(CatalogueError::InvalidPattern);
        }
        let ghost before = self.entries@;
        let ghost len = before.len() as int;
        let count = self.entries.len();
        let mut n: u64 = 0;
        let ghost mut used: Set<int> = Set::empty();
        proof {
            lemma_int_range(0, len);
        }
        loop
            invariant
                self.entries@ == before,
                before == old(self).entries@,
                keys_distinct(before),
                len == before.len(),
                len == count,
                set_int_range(0, len).finite(),
                set_int_range(0, len).len() == len,
                fancy_accepts(term.input@),
                used.finite(),
                used.len() == n,
                n <= len,
                used.subset_of(set_int_range(0, len)),
                forall|w: int|
                    used.contains(w) ==> exists|m: nat| m < n && before[w].key@ == decimal_spec(m),
                forall|m: nat| m < n ==> holds(before, #[trigger] decimal_spec(m)),
            decreases len - n,
        {
            let id = decimal(n);
            match self.position(id.as_str()) {
                None => {
                    self.entries.push(Keyed { key: id.clone(), value: term });
                    proof {
                        let after = self.entries@;
                        assert(keys_distinct(after)) by {
                            assert forall|a: int, b: int| 0 <= a < b < after.len() implies (
                            #[trigger] after[a]).key@ != (#[trigger] after[b]).key@ by {
                                if b < len {
                                    assert(before[a].key@ != before[b].key@);
                                } else {
                                    assert(before[a].key@ != id@);
                                }
                            }
                        }
                        assert(map_of(after) =~= map_of(before).insert(id@, term)) by {
                            assert forall|key: Seq<char>| holds(after, key) <==> (holds(before, key)
                                || key == id@) by {
                                if holds(before, key) {
                                    let i = place_of(before, key);
                                    assert(after[i].key@ == key);
                                }
                                if key == id@ {
                                    assert(after[len].key@ == key);
                                }
                                if holds(after, key) {
                                    let i = place_of(after, key);
                                    if i < len {
                                        assert(before[i].key@ == key);
                                    }
                                }
                            }
                            assert forall|key: Seq<char>| holds(after, key) implies map_of(
                                after,
                            )[key] == map_of(before).insert(id@, term)[key] by {
                                let i = place_of(after, key);
                                lemma_map_of(after, i);
                                if i < len {
                                    lemma_map_of(before, i);
                                }
                            }
                        }
                        assert(is_fresh(map_of(before).dom(), n as nat));
                        assert(id@ == decimal_spec(n as nat));
                    }
                    return Ok(id);
                },
                Some(w) => {
                    proof {
                        if used.contains(w as int) {
                            let m = choose|m: nat| m < n && before[w as int].key@ == decimal_spec(m);
                            lemma_decimal_distinct(m, n as nat);
                        }
                        used = used.insert(w as int);
                        lemma_len_subset(used, set_int_range(0, len));
                    }
                    n = n + 1;
                },
            }
        }
    }

    /// Keeps `term` under `id` in place of the term that is kept there. A
    /// term whose pattern is no regular expression is refused, and so is an
    /// id under which nothing is kept.
    pub fn update_by_id(&mut self, id: &str, term: RegexTerm) -> (done: Result<(), CatalogueError>)
        requires
            old(self).well_formed(),
        ensures
            final(self).well_formed(),
            done == if !fancy_accepts(term.input@) {
                Err::<(), CatalogueError>(CatalogueError::InvalidPattern)
            } else if !old(self)@.contains_key(id@) {
                Err(CatalogueError::NotFound)
            } else {
                Ok(())
            },
            done is Ok ==> final(self)@ == old(self)@.insert(id@, term),
            done is Err ==> final(self)@ == old(self)@,
    {
        if !accepts(term.input.as_str()) {
            return Err(CatalogueError::InvalidPattern);
        }
        let at = match self.position(id) {
            None => {
                return Err(CatalogueError::NotFound);
            },
            Some(at) => at,
        };
        let ghost before = self.entries@;
        proof {
            lemma_map_of(before, at as int);
        }
        let replaced = self.entries.remove(at);
        proof {
            lemma_removed(before, at as int);
        }
        let ghost between = self.entries@;
        self.entries.push(Keyed { key: replaced.key, value: term });
        proof {
            let after = self.entries@;
            let last = between.len() as int;
            assert(keys_distinct(after)) by {
                assert forall|a: int, b: int| 0 <= a < b < after.len() implies (#[trigger] after[a]).key@
                    != (#[trigger] after[b]).key@ by {
                    if b < last {
                        assert(between[a].key@ != between[b].key@);
                    } else {
                        assert(holds(between, between[a].key@));
                    }
                }
            }
            assert(map_of(after) =~= map_of(before).insert(id@, term)) by {
                assert forall|key: Seq<char>| holds(after, key) <==> holds(before, key) by {
                    if holds(before, key) && key != id@ {
                        let i = place_of(between, key);
                        assert(after[i].key@ == key);
                    }
                    if key == id@ {
                        assert(after[last].key@ == key);
                        assert(before[at as int].key@ == key);
                    }
                    if holds(after, key) {
                        let i = place_of(after, key);
                        if i < last {
                            assert(between[i].key@ == key);
                            assert(holds(between, key));
                        }
                    }
                }
                assert forall|key: Seq<char>| holds(after, key) implies map_of(after)[key]
                    == map_of(before).insert(id@, term)[key] by {
                    let i = place_of(after, key);
                    lemma_map_of(after, i);
                    if i < last {
                        assert(between[i].key@ == key);
                        lemma_map_of(between, i);
                    }
                }
            }
        }
        Ok(())
    }

    /// Drops the term that is kept under `id`. An id under which nothing is
    /// kept is refused.
    pub fn delete(&mut self, id: &str) -> (done: Result<(), CatalogueError>)
        requires
            old(self).well_formed(),
        ensures
            final(self).well_formed(),
            done == if old(self)@.contains_key(id@) {
                Ok::<(), CatalogueError>(())
            } else {
                Err(CatalogueError::NotFound)
            },
            done is Ok ==> final(self)@ == old(self)@.remove(id@),
            done is Err ==> final(self)@ == old(self)@,
    {
        let at = match self.position(id) {
            None => {
                return Err(CatalogueError::NotFound);
            },
            Some(at) => at,
        };
        let ghost before = self.entries@;
        proof {
            lemma_map_of(before, at as int);
        }
        self.entries.remove(at);
        proof {
            lemma_removed(before, at as int);
        }
        Ok(())
    }
}

/// Taking one entry out leaves the others as they are, each under its key.
pub proof fn lemma_removed(entries: Seq<Keyed<String, RegexTerm>>, at: int)
    requires
        keys_distinct(entries),
        0 <= at < entries.len(),
    ensures
        keys_distinct(entries.remove(at)),
        map_of(entries.remove(at)) == map_of(entries).remove(entries[at].key@),
        !holds(entries.remove(at), entries[at].key@),
        forall|key: Seq<char>|
            key != entries[at].key@ ==> (holds(entries.remove(at), key) <==> holds(entries, key)),
{
    let fewer = entries.remove(at);
    let gone = entries[at].key@;
    assert forall|i: int| 0 <= i < fewer.len() implies #[trigger] fewer[i] == entries[if i < at {
        i
    } else {
        i + 1
    }] by {}
    assert(keys_distinct(fewer)) by {
        assert forall|a: int, b: int| 0 <= a < b < fewer.len() implies (#[trigger] fewer[a]).key@
            != (#[trigger] fewer[b]).key@ by {
            let x = if a < at {
                a
            } else {
                a + 1
            };
            let y = if b < at {
                b
            } else {
                b + 1
            };
            assert(entries[x].key@ != entries[y].key@);
        }
    }
    assert forall|key: Seq<char>| holds(fewer, key) <==> (holds(entries, key) && key != gone) by {
        if holds(fewer, key) {
            let i = place_of(fewer, key);
            let x = if i < at {
                i
            } else {
                i + 1
            };
            assert(entries[x].key@ == key);
            if x < at {
                assert(entries[x].key@ != entries[at].key@);
            } else {
                assert(entries[at].key@ != entries[x].key@);
            }
        }
        if holds(entries, key) && key != gone {
            let x = place_of(entries, key);
            let i = if x < at {
                x
            } else {
                x - 1
            };
            assert(fewer[i].key@ == key);
        }
    }
    assert(map_of(fewer) =~= map_of(entries).remove(gone)) by {
        assert forall|key: Seq<char>| holds(fewer, key) implies map_of(fewer)[key] == map_of(
            entries,
        )[key] by {
            let i = place_of(fewer, key);
            lemma_map_of(fewer, i);
            let x = if i < at {
                i
            } else {
                i + 1
            };
            lemma_map_of(entries, x);
        }
    }
}

} // verus!
