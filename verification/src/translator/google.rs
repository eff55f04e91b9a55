//! The request that Google's translation service takes, and the reading of
//! its reply.

use crate::translator::field;
use crate::translator::fields_view;
use crate::translator::TranslateError;
use vstd::prelude::*;
use vstd::string::*;

verus! {

/// What a reply of the service holds, as far as it is read: a reply is a JSON
/// document, of which only lists and strings matter.
#[derive(Debug)]
pub enum JsonValue {
    /// A string.
    Text(String),
    /// An array.
    List(Vec<JsonValue>),
    /// Anything else.
    Other,
}

/// The lines of a reply: the items of the first item of the document, where
/// both are lists.
pub open spec fn lines_of(body: JsonValue) -> Option<Seq<JsonValue>> {
    match body {
        JsonValue::List(outer) => if outer@.len() > 0 {
            match outer@[0] {
                JsonValue::List(lines) => Some(lines@),
                _ => None,
            }
        } else {
            None
        },
        _ => None,
    }
}

/// The translation that a line holds: its first item, where the line is a
/// list and that item a string.
pub open spec fn translation_of(line: JsonValue) -> Option<Seq<char>> {
    match line {
        JsonValue::List(items) => if items@.len() > 0 {
            match items@[0] {
                JsonValue::Text(text) => Some(text@),
                _ => None,
            }
        } else {
            None
        },
        _ => None,
    }
}

/// The translations of all the lines, joined; `None` where a line holds none.
pub open spec fn translations_of(lines: Seq<JsonValue>) -> Option<Seq<char>>
    decreases lines.len(),
{
    if lines.len() == 0 {
        Some(Seq::empty())
    } else {
        match (translations_of(lines.drop_last()), translation_of(lines.last())) {
            (Some(text), Some(more)) => Some(text + more),
            _ => None,
        }
    }
}

/// What a reply says: the translations of its lines, joined.
pub open spec fn reading_of(body: JsonValue) -> Option<Seq<char>> {
    match lines_of(body) {
        Some(lines) => translations_of(lines),
        None => None,
    }
}

/// Some line among the first `n` holds no translation.
proof fn lemma_bad_line(lines: Seq<JsonValue>, n: int)
    requires
        0 <= n <= lines.len(),
        translations_of(lines.take(n)) is None,
    ensures
        translations_of(lines) is None,
    decreases lines.len(),
{
    if n == lines.len() {
        assert(lines.take(n) =~= lines);
    } else {
        assert(lines.drop_last().take(n) =~= lines.take(n));
        lemma_bad_line(lines.drop_last(), n);
    }
}

/// The client of Google's translation service.
#[derive(Debug)]
pub struct GoogleTranslator {
    target_lang: String,
}

impl GoogleTranslator {
    /// The language that the client translates to.
    pub closed spec fn target_lang(&self) -> Seq<char> {
        self.target_lang@
    }

    /// A client that translates to `target_lang`.
    pub fn new(target_lang: String) -> (client: Self)
        ensures
            client.target_lang() == target_lang@,
    {
        Self { target_lang }
    }

    /// The name by which filter lists know the backend.
    pub fn name(&self) -> (name: &'static str)
        ensures
            name@ == "Google"@,
    {
        "Google"
    }

    /// Where requests go.
    pub fn endpoint(&self) -> (url: &'static str)
        ensures
            url@ == "https://translate.googleapis.com/translate_a/single"@,
    {
        "https://translate.googleapis.com/translate_a/single"
    }

    /// The form that asks for the translation of `text` from Japanese.
    pub fn form(&self, text: &str) -> (form: Vec<(String, String)>)
        ensures
            fields_view(form@) == seq![
                ("client"@, "gtx"@),
                ("sl"@, "ja"@),
                ("tl"@, self.target_lang()),
                ("dt"@, "t"@),
                ("q"@, text@),
            ],
    {
        let mut form: Vec<(String, String)> = Vec::new();
        form.push(field("client", "gtx"));
        form.push(field("sl", "ja"));
        form.push(field("tl", self.target_lang.as_str()));
        form.push(field("dt", "t"));
        form.push(field("q", text));
        assert(fields_view(form@) =~= seq![
            ("client"@, "gtx"@),
            ("sl"@, "ja"@),
            ("tl"@, self.target_lang()),
            ("dt"@, "t"@),
            ("q"@, text@),
        ]);
        form
    }

    /// Reads the translation out of a reply.
    pub fn read(body: &JsonValue) -> (reply: Result<String, TranslateError>)
        ensures
            match reading_of(*body) {
                Some(text) => reply matches Ok(read) && read@ == text,
                None => reply matches Err(TranslateError::Unparsable),
            },
    {
        let lines = match body {
            JsonValue::List(outer) => {
                if outer.len() == 0 {
                    return Err(TranslateError::Unparsable);
                }
                match &outer[0] {
                    JsonValue::List(lines) => lines,
                    _ => {
                        return Err(TranslateError::Unparsable);
                    },
                }
            },
            _ => {
                return Err(TranslateError::Unparsable);
            },
        };
        let mut text = String::new();
        let mut at: usize = 0;
        proof {
            assert(lines@.take(0) =~= Seq::<JsonValue>::empty());
        }
        while at < lines.len()
            invariant
                at <= lines@.len(),
                lines_of(*body) == Some(lines@),
                translations_of(lines@.take(at as int)) == Some(text@),
            decreases lines@.len() - at,
        {
            proof {
                assert(lines@.take(at + 1).drop_last() =~= lines@.take(at as int));
                assert(lines@.take(at + 1).last() == lines@[at as int]);
            }
            let more = match &lines[at] {
                JsonValue::List(items) => {
                    if items.len() == 0 {
                        None
                    } else {
                        match &items[0] {
                            JsonValue::Text(more) => Some(more),
                            _ => None,
                        }
                    }
                },
                _ => None,
            };
            match more {
                Some(more) => {
                    text.append(more.as_str());
                },
                None => {
                    proof {
                        lemma_bad_line(lines@, at + 1);
                    }
                    return Err(TranslateError::Unparsable);
                },
            }
            at = at + 1;
        }
        proof {
            assert(lines@.take(at as int) =~= lines@);
        }
        Ok(text)
    }
}

} // verus!
