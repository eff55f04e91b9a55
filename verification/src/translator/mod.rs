//! Backends: what turns a text in one language into a text in another.

pub mod baidu;
pub mod deepl;
pub mod dictionary;
pub mod google;
pub mod laws;
pub mod microsoft;
pub mod parts;
pub mod roundtrip;
pub mod slots;

pub use baidu::BaiduTranslator;
pub use deepl::DeepLTranslator;
pub use dictionary::DictionaryTranslator;
pub use google::GoogleTranslator;
pub use microsoft::MicrosoftTranslator;

use crate::numerals::decimal;
use crate::numerals::decimal_spec;
use crate::scan::ScanError;
use vstd::prelude::*;
use vstd::string::*;

verus! {

/// Why a translation failed.
#[derive(Clone, Debug, PartialEq, Eq)]
pub enum TranslateError {
    /// A search of the text failed.
    Scan(ScanError),
    /// The backend replied without a translation.
    NoTranslation,
    /// The backend's reply lacks what its format promises.
    Unexpected,
    /// The backend's reply is not in its format.
    Unparsable,
    /// The backend refused the request, with this code and message.
    Api(u32, String),
    /// The backend could not be reached or failed otherwise; the text says how.
    Backend(String),
}

impl TranslateError {
    /// What the error says.
    pub open spec fn message_spec(self) -> Seq<char> {
        match self {
            TranslateError::Scan(ScanError::Pattern) => "A pattern is not a regular expression"@,
            TranslateError::Scan(ScanError::Search) => "A search was given up"@,
            TranslateError::Scan(ScanError::Range) => "A match does not fit the text"@,
            TranslateError::NoTranslation => "DeepL returns no translations"@,
            TranslateError::Unexpected => "Unexpected API result"@,
            TranslateError::Unparsable => "Cannot parse Google translate response"@,
            TranslateError::Api(code, message) => "Error "@ + decimal_spec(code as nat) + ": "@
                + message@,
            TranslateError::Backend(message) => message@,
        }
    }

    /// What the error says.
    pub fn message(&self) -> (text: String)
        ensures
            text@ == self.message_spec(),
    {
        match self {
            TranslateError::Scan(ScanError::Pattern) => String::from_str(
                "A pattern is not a regular expression",
            ),
            TranslateError::Scan(ScanError::Search) => String::from_str("A search was given up"),
            TranslateError::Scan(ScanError::Range) => String::from_str(
                "A match does not fit the text",
            ),
            TranslateError::NoTranslation => String::from_str("DeepL returns no translations"),
            TranslateError::Unexpected => String::from_str("Unexpected API result"),
            TranslateError::Unparsable => String::from_str(
                "Cannot parse Google translate response",
            ),
            TranslateError::Api(code, message) => {
                let mut text = String::from_str("Error ");
                text.append(decimal(*code as u64).as_str());
                text.append(": ");
                text.append(message.as_str());
                text
            },
            TranslateError::Backend(message) => message.clone(),
        }
    }
}

/// What a translation gave, with the text as its characters.
pub open spec fn reply_view(reply: Result<String, TranslateError>) -> Result<
    Seq<char>,
    TranslateError,
> {
    match reply {
        Ok(text) => Ok(text@),
        Err(e) => Err(e),
    }
}

/// The names and values of a request, as sequences of characters.
pub open spec fn fields_view(fields: Seq<(String, String)>) -> Seq<(Seq<char>, Seq<char>)> {
    Seq::new(fields.len(), |i: int| (fields[i].0@, fields[i].1@))
}

/// The texts, as sequences of characters.
pub open spec fn texts_view(texts: Seq<String>) -> Seq<Seq<char>> {
    Seq::new(texts.len(), |i: int| texts[i]@)
}

/// The texts joined, in order, with nothing between them.
pub open spec fn joined(texts: Seq<Seq<char>>) -> Seq<char>
    decreases texts.len(),
{
    if texts.len() == 0 {
        Seq::empty()
    } else {
        joined(texts.drop_last()) + texts.last()
    }
}

/// One field of a request.
pub fn field(name: &str, value: &str) -> (pair: (String, String))
    ensures
        pair.0@ == name@,
        pair.1@ == value@,
{
    (name.to_owned(), value.to_owned())
}

/// Joins the texts, in order, with nothing between them.
pub fn join(texts: &Vec<String>) -> (text: String)
    ensures
        text@ == joined(texts_view(texts@)),
{
    let mut text = String::new();
    let mut at: usize = 0;
    proof {
        assert(texts_view(texts@).take(0) =~= Seq::<Seq<char>>::empty());
    }
    while at < texts.len()
        invariant
            at <= texts@.len(),
            text@ == joined(texts_view(texts@).take(at as int)),
        decreases texts@.len() - at,
    {
        proof {
            assert(texts_view(texts@).take(at + 1).drop_last() =~= texts_view(texts@).take(
                at as int,
            ));
            assert(texts_view(texts@).take(at + 1).last() == texts@[at as int]@);
        }
        text.append(texts[at].as_str());
        at = at + 1;
    }
    proof {
        assert(texts_view(texts@).take(at as int) =~= texts_view(texts@));
    }
    text
}

/// A backend translator.
pub trait Translator {
    /// What the backend may reply to `text`: anything, unless the backend
    /// says more of itself.
    open spec fn replies(&self, text: Seq<char>, reply: Result<Seq<char>, TranslateError>) -> bool {
        true
    }

    /// The name by which filter lists know the backend.
    fn name(&self) -> (name: &'static str);

    /// Translates `text`.
    fn translate(&self, text: &str) -> (reply: Result<String, TranslateError>)
        ensures
            self.replies(text@, reply_view(reply)),
    ;
}

/// The backend that returns every text as it is.
#[derive(Clone, Copy, Debug)]
pub struct NopTranslator;

impl Translator for NopTranslator {
    open spec fn replies(&self, text: Seq<char>, reply: Result<Seq<char>, TranslateError>) -> bool {
        reply == Ok::<Seq<char>, TranslateError>(text)
    }

    fn name(&self) -> (name: &'static str)
        ensures
            name@ == "Nop"@,
    {
        "Nop"
    }

    fn translate(&self, text: &str) -> (reply: Result<String, TranslateError>) {
        Ok(text.to_owned())
    }
}

} // verus!
