//! The request that Microsoft's translation service takes, and the reading
//! of its reply.

use crate::translator::field;
use crate::translator::fields_view;
use crate::translator::TranslateError;
use vstd::prelude::*;
use vstd::string::*;

verus! {

/// What a reply of the service holds.
#[derive(Clone, Debug, PartialEq, Eq)]
pub enum MicrosoftReply {
    /// The service refused the request.
    Error { code: u32, message: String },
    /// For each text of the request, its translations.
    Success(Vec<Vec<String>>),
}

/// The client of Microsoft's translation service.
#[derive(Debug)]
pub struct MicrosoftTranslator {
    api_key: String,
    target_lang: String,
}

impl MicrosoftTranslator {
    /// The key that the client presents.
    pub closed spec fn api_key(&self) -> Seq<char> {
        self.api_key@
    }

    /// The language that the client translates to.
    pub closed spec fn target_lang(&self) -> Seq<char> {
        self.target_lang@
    }

    /// A client that presents `api_key` and translates to `target_lang`.
    pub fn new(api_key: String, target_lang: String) -> (client: Self)
        ensures
            client.api_key() == api_key@,
            client.target_lang() == target_lang@,
    {
        Self { api_key, target_lang }
    }

    /// The name by which filter lists know the backend.
    pub fn name(&self) -> (name: &'static str)
        ensures
            name@ == "Microsoft"@,
    {
        "Microsoft"
    }

    /// Where requests go.
    pub fn endpoint(&self) -> (url: &'static str)
        ensures
            url@ == "https://api.cognitive.microsofttranslator.com/translate"@,
    {
        "https://api.cognitive.microsofttranslator.com/translate"
    }

    /// The parameters that the address of a request carries.
    pub fn query(&self) -> (query: Vec<(String, String)>)
        ensures
            fields_view(query@) == seq![("api-version"@, "3.0"@), ("to"@, self.target_lang())],
    {
        let mut query: Vec<(String, String)> = Vec::new();
        query.push(field("api-version", "3.0"));
        query.push(field("to", self.target_lang.as_str()));
        assert(fields_view(query@) =~= seq![
            ("api-version"@, "3.0"@),
            ("to"@, self.target_lang()),
        ]);
        query
    }

    /// The header that presents the key.
    pub fn header(&self) -> (header: (String, String))
        ensures
            header.0@ == "Ocp-Apim-Subscription-Key"@,
            header.1@ == self.api_key(),
    {
        field("Ocp-Apim-Subscription-Key", self.api_key.as_str())
    }

    /// What a reply says: the last translation of the last text. A reply
    /// without one is unexpected; a refusal is passed on with its code and
    /// message.
    pub open spec fn reading_of(reply: MicrosoftReply) -> Result<Seq<char>, TranslateError> {
        match reply {
            MicrosoftReply::Error { code, message } => Err(TranslateError::Api(code, message)),
            MicrosoftReply::Success(texts) => if texts@.len() > 0 && texts@.last()@.len() > 0 {
                Ok(texts@.last()@.last()@)
            } else {
                Err(TranslateError::Unexpected)
            },
        }
    }

    /// Reads the translation out of a reply.
    pub fn read(reply: MicrosoftReply) -> (read: Result<String, TranslateError>)
        ensures
            crate::translator::reply_view(read) == Self::reading_of(reply),
    {
        match reply {
            MicrosoftReply::Error { code, message } => Err(TranslateError::Api(code, message)),
            MicrosoftReply::Success(texts) => {
                let mut texts = texts;
                match texts.pop() {
                    None => Err(TranslateError::Unexpected),
                    Some(translations) => {
                        let mut translations = translations;
                        match translations.pop() {
                            None => Err(TranslateError::Unexpected),
                            Some(text) => Ok(text),
                        }
                    },
                }
            },
        }
    }
}

} // verus!
