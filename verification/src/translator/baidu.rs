//! The request that Baidu's translation service takes, and the reading of its
//! reply.

use crate::numerals::hex;
use crate::numerals::hex_bytes;
use crate::numerals::hex_pairs;
use crate::numerals::hex_spec;
use crate::translator::field;
use crate::translator::fields_view;
use crate::translator::join;
use crate::translator::joined;
use crate::translator::texts_view;
use vstd::prelude::*;
use vstd::string::*;

verus! {

/// The MD5 digest of the UTF-8 encoding of a text, as `md5::compute` gives it.
pub uninterp spec fn md5_of(data: Seq<char>) -> Seq<u8>;

/// Calls `md5::compute` on the bytes of `data`.
///
/// Believed: the digest depends on the text alone, and has 16 bytes.
#[verifier::external_body]
fn md5_digest(data: &str) -> (digest: Vec<u8>)
    ensures
        digest@ == md5_of(data@),
        digest@.len() == 16,
{
    md5::compute(data).0.to_vec()
}

/// Calls `rand::random` for a `u32`.
///
/// Nothing is claimed of the number.
#[verifier::external_body]
fn random_salt() -> (salt: u32) {
    rand::random::<u32>()
}

/// The client of Baidu's translation service.
#[derive(Debug)]
pub struct BaiduTranslator {
    appid: String,
    secret: String,
    target_lang: String,
}

impl BaiduTranslator {
    /// The application that the client acts for.
    pub closed spec fn appid(&self) -> Seq<char> {
        self.appid@
    }

    /// The secret that the client signs with.
    pub closed spec fn secret(&self) -> Seq<char> {
        self.secret@
    }

    /// The language that the client translates to.
    pub closed spec fn target_lang(&self) -> Seq<char> {
        self.target_lang@
    }

    /// The form that asks for the translation of `text` from Japanese with
    /// the salt `salt`: the salt goes in hexadecimal, and the signature is the
    /// MD5 digest of application, text, salt and secret, in hexadecimal.
    pub open spec fn form_spec(&self, text: Seq<char>, salt: u32) -> Seq<(Seq<char>, Seq<char>)> {
        seq![
            ("q"@, text),
            ("from"@, "jp"@),
            ("to"@, self.target_lang()),
            ("appid"@, self.appid()),
            ("salt"@, hex_spec(salt as nat)),
            (
                "sign"@,
                hex_pairs(md5_of(self.appid() + text + hex_spec(salt as nat) + self.secret())),
            ),
        ]
    }

    /// A client that acts for `appid`, signs with `secret` and translates to
    /// `target_lang`.
    pub fn new(appid: String, secret: String, target_lang: String) -> (client: Self)
        ensures
            client.appid() == appid@,
            client.secret() == secret@,
            client.target_lang() == target_lang@,
    {
        Self { appid, secret, target_lang }
    }

    /// The name by which filter lists know the backend.
    pub fn name(&self) -> (name: &'static str)
        ensures
            name@ == "Baidu"@,
    {
        "Baidu"
    }

    /// Where requests go.
    pub fn endpoint(&self) -> (url: &'static str)
        ensures
            url@ == "https://fanyi-api.baidu.com/api/trans/vip/translate"@,
    {
        "https://fanyi-api.baidu.com/api/trans/vip/translate"
    }

    /// The form that asks for the translation of `text` with the salt `salt`.
    pub fn form_with_salt(&self, text: &str, salt: u32) -> (form: Vec<(String, String)>)
        ensures
            fields_view(form@) == self.form_spec(text@, salt),
    {
        let salt = hex(salt);
        let mut signed = self.appid.clone();
        signed.append(text);
        signed.append(salt.as_str());
        signed.append(self.secret.as_str());
        let sign = hex_bytes(md5_digest(signed.as_str()).as_slice());
        let mut form: Vec<(String, String)> = Vec::new();
        form.push(field("q", text));
        form.push(field("from", "jp"));
        form.push(field("to", self.target_lang.as_str()));
        form.push(field("appid", self.appid.as_str()));
        form.push(field("salt", salt.as_str()));
        form.push(field("sign", sign.as_str()));
        assert(fields_view(form@) =~= seq![
            ("q"@, text@),
            ("from"@, "jp"@),
            ("to"@, self.target_lang()),
            ("appid"@, self.appid()),
            ("salt"@, salt@),
            ("sign"@, sign@),
        ]);
        form
    }

    /// The form that asks for the translation of `text`, with a salt drawn
    /// at random.
    pub fn form(&self, text: &str) -> (form: Vec<(String, String)>)
        ensures
            exists|salt: u32| fields_view(form@) == #[trigger] self.form_spec(text@, salt),
    {
        let salt = random_salt();
        let form = self.form_with_salt(text, salt);
        assert(fields_view(form@) == self.form_spec(text@, salt));
        form
    }

    /// Reads the translation out of the pieces that a reply holds: all of
    /// them, joined.
    pub fn read(pieces: &Vec<String>) -> (text: String)
        ensures
            text@ == joined(texts_view(pieces@)),
    {
        join(pieces)
    }
}

} // verus!
