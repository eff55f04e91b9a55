//! The request that DeepL takes, and the reading of its reply.

use crate::text::same_text;
use crate::translator::field;
use crate::translator::fields_view;
use crate::translator::texts_view;
use crate::translator::TranslateError;
use vstd::prelude::*;
use vstd::string::*;

verus! {

/// What `str::to_uppercase` makes of a text.
pub uninterp spec fn uppercase_of(text: Seq<char>) -> Seq<char>;

/// Calls `str::to_uppercase`.
///
/// Believed: the result depends on the text alone.
#[verifier::external_body]
fn to_uppercase(text: &str) -> (upper: String)
    ensures
        upper@ == uppercase_of(text@),
{
    text.to_uppercase()
}

/// The name that DeepL has for a language: `EN-US` for `en`, and for every
/// other language its code in upper case.
pub open spec fn deepl_language(target_lang: Seq<char>) -> Seq<char> {
    if target_lang == "en"@ {
        "EN-US"@
    } else {
        uppercase_of(target_lang)
    }
}

/// The client of DeepL.
#[derive(Debug)]
pub struct DeepLTranslator {
    auth_key: String,
    target_lang: String,
}

impl DeepLTranslator {
    /// The key that the client presents.
    pub closed spec fn auth_key(&self) -> Seq<char> {
        self.auth_key@
    }

    /// The language that the client translates to, by DeepL's name for it.
    pub closed spec fn target_lang(&self) -> Seq<char> {
        self.target_lang@
    }

    /// A client that presents `auth_key` and translates to `target_lang`.
    pub fn new(auth_key: String, target_lang: String) -> (client: Self)
        ensures
            client.auth_key() == auth_key@,
            client.target_lang() == deepl_language(target_lang@),
    {
        let target_lang = if same_text(target_lang.as_str(), "en") {
            String::from_str("EN-US")
        } else {
            to_uppercase(target_lang.as_str())
        };
        Self { auth_key, target_lang }
    }

    /// The name by which filter lists know the backend.
    pub fn name(&self) -> (name: &'static str)
        ensures
            name@ == "DeepL"@,
    {
        "DeepL"
    }

    /// Where requests go.
    pub fn endpoint(&self) -> (url: &'static str)
        ensures
            url@ == "https://api-free.deepl.com/v2/translate"@,
    {
        "https://api-free.deepl.com/v2/translate"
    }

    /// The form that asks for the translation of `text`.
    pub fn form(&self, text: &str) -> (form: Vec<(String, String)>)
        ensures
            fields_view(form@) == seq![
                ("text"@, text@),
                ("target_lang"@, self.target_lang()),
                ("auth_key"@, self.auth_key()),
            ],
    {
        let mut form: Vec<(String, String)> = Vec::new();
        form.push(field("text", text));
        form.push(field("target_lang", self.target_lang.as_str()));
        form.push(field("auth_key", self.auth_key.as_str()));
        assert(fields_view(form@) =~= seq![
            ("text"@, text@),
            ("target_lang"@, self.target_lang()),
            ("auth_key"@, self.auth_key()),
        ]);
        form
    }

    /// Reads the translation out of the translations that a reply holds: the
    /// first of them.
    pub fn read(translations: Vec<String>) -> (reply: Result<String, TranslateError>)
        ensures
            translations@.len() == 0 ==> (reply matches Err(TranslateError::NoTranslation)),
            translations@.len() > 0 ==> (reply matches Ok(text) && text@ == translations@[0]@),
    {
        let mut translations = translations;
        if translations.len() == 0 {
            return Err(TranslateError::NoTranslation);
        }
        Ok(translations.swap_remove(0))
    }
}

} // verus!
