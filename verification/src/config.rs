//! What the server is configured with, and the choice of a backend by it.

use crate::translator::BaiduTranslator;
use crate::translator::DeepLTranslator;
use crate::translator::GoogleTranslator;
use crate::translator::MicrosoftTranslator;
use crate::translator::NopTranslator;
use vstd::prelude::*;
use vstd::string::*;

verus! {

/// The account at Baidu.
#[derive(Clone, Debug)]
pub struct BaiduConfig {
    pub appid: String,
    pub secret: String,
}

/// The account at Microsoft.
#[derive(Clone, Debug)]
pub struct MicrosoftConfig {
    pub api_key: String,
}

/// The account at DeepL.
#[derive(Clone, Debug)]
pub struct DeepLConfig {
    pub auth_key: String,
}

/// The backends that a language can be given to.
#[derive(Clone, Copy, Debug, PartialEq, Eq, Structural)]
pub enum Translator {
    Nop,
    Google,
    Baidu,
    Microsoft,
    DeepL,
}

impl Default for Translator {
    fn default() -> (translator: Self)
        ensures
            translator == Translator::Nop,
    {
        Translator::Nop
    }
}

/// The configuration of the server.
#[derive(Clone, Debug)]
pub struct Config {
    /// The account at Baidu, if there is one.
    pub baidu: Option<BaiduConfig>,
    /// The account at Microsoft, if there is one.
    pub microsoft: Option<MicrosoftConfig>,
    /// The account at DeepL, if there is one.
    pub deepl: Option<DeepLConfig>,
    /// The backend for Chinese.
    pub zh: Translator,
    /// The backend for English.
    pub en: Translator,
    /// Where the terms are kept.
    pub database: String,
    /// The address that the server listens on.
    pub listen: String,
}

/// Where the terms are kept when the configuration does not say.
pub fn default_database_path() -> (path: String)
    ensures
        path@ == "dictionary.db"@,
{
    String::from_str("dictionary.db")
}

/// The address that the server listens on when the configuration does not
/// say.
pub fn default_listen_addr() -> (address: String)
    ensures
        address@ == "127.0.0.1:3001"@,
{
    String::from_str("127.0.0.1:3001")
}

/// A backend was chosen whose account the configuration lacks.
#[derive(Clone, Copy, Debug, PartialEq, Eq, Structural)]
pub enum ConfigError {
    Baidu,
    Microsoft,
    DeepL,
}

impl ConfigError {
    /// What the error says.
    pub open spec fn message_spec(self) -> Seq<char> {
        match self {
            ConfigError::Baidu => "Baidu config not found"@,
            ConfigError::Microsoft => "Microsoft config not found"@,
            ConfigError::DeepL => "DeepL config not found"@,
        }
    }

    /// What the error says.
    pub fn message(&self) -> (text: String)
        ensures
            text@ == self.message_spec(),
    {
        match self {
            ConfigError::Baidu => String::from_str("Baidu config not found"),
            ConfigError::Microsoft => String::from_str("Microsoft config not found"),
            ConfigError::DeepL => String::from_str("DeepL config not found"),
        }
    }
}

/// A backend, ready for requests.
#[derive(Debug)]
pub enum Backend {
    Nop(NopTranslator),
    Google(GoogleTranslator),
    Baidu(BaiduTranslator),
    Microsoft(MicrosoftTranslator),
    DeepL(DeepLTranslator),
}

impl Backend {
    /// The name by which filter lists know the backend.
    pub open spec fn name_spec(self) -> Seq<char> {
        match self {
            Backend::Nop(_) => "Nop"@,
            Backend::Google(_) => "Google"@,
            Backend::Baidu(_) => "Baidu"@,
            Backend::Microsoft(_) => "Microsoft"@,
            Backend::DeepL(_) => "DeepL"@,
        }
    }

    /// The name by which filter lists know the backend.
    pub fn name(&self) -> (name: &'static str)
        ensures
            name@ == self.name_spec(),
    {
        match self {
            Backend::Nop(_) => "Nop",
            Backend::Google(client) => client.name(),
            Backend::Baidu(client) => client.name(),
            Backend::Microsoft(client) => client.name(),
            Backend::DeepL(client) => client.name(),
        }
    }
}

/// The backend that the choice `translator` asks for, translating to
/// `target_lang`, with its account as `config` gives it.
pub open spec fn loaded(
    backend: Backend,
    target_lang: Seq<char>,
    translator: Translator,
    config: Config,
) -> bool {
    match translator {
        Translator::Nop => backend is Nop,
        Translator::Google => backend matches Backend::Google(client) && client.target_lang()
            == target_lang,
        Translator::Baidu => backend matches Backend::Baidu(client) && config.baidu matches Some(
            account,
        ) && client.appid() == account.appid@ && client.secret() == account.secret@
            && client.target_lang() == target_lang,
        Translator::Microsoft => backend matches Backend::Microsoft(client) && config.microsoft
            matches Some(account) && client.api_key() == account.api_key@ && client.target_lang()
            == target_lang,
        Translator::DeepL => backend matches Backend::DeepL(client) && config.deepl matches Some(
            account,
        ) && client.auth_key() == account.auth_key@ && client.target_lang()
            == crate::translator::deepl::deepl_language(target_lang),
    }
}

/// The account that the choice `translator` needs and `config` lacks.
pub open spec fn missing(translator: Translator, config: Config) -> Option<ConfigError> {
    match translator {
        Translator::Baidu if config.baidu is None => Some(ConfigError::Baidu),
        Translator::Microsoft if config.microsoft is None => Some(ConfigError::Microsoft),
        Translator::DeepL if config.deepl is None => Some(ConfigError::DeepL),
        _ => None,
    }
}

/// Makes the backend that translates to `target_lang` by the choice
/// `translator`. Fails where the configuration lacks the account of the
/// chosen backend.
pub fn load_translator(target_lang: &str, translator: Translator, config: &Config) -> (made: Result<
    Backend,
    ConfigError,
>)
    ensures
        match missing(translator, *config) {
            Some(e) => made == Err::<Backend, ConfigError>(e),
            None => made matches Ok(backend) && loaded(backend, target_lang@, translator, *config),
        },
{
    match translator {
        Translator::Nop => Ok(Backend::Nop(NopTranslator)),
        Translator::Google => Ok(Backend::Google(GoogleTranslator::new(target_lang.to_owned()))),
        Translator::Baidu => match &config.baidu {
            None => Err(ConfigError::Baidu),
            Some(account) => Ok(
                Backend::Baidu(
                    BaiduTranslator::new(
                        account.appid.clone(),
                        account.secret.clone(),
                        target_lang.to_owned(),
                    ),
                ),
            ),
        },
        Translator::Microsoft => match &config.microsoft {
            None => Err(ConfigError::Microsoft),
            Some(account) => Ok(
                Backend::Microsoft(
                    MicrosoftTranslator::new(account.api_key.clone(), target_lang.to_owned()),
                ),
            ),
        },
        Translator::DeepL => match &config.deepl {
            None => Err(ConfigError::DeepL),
            Some(account) => Ok(
                Backend::DeepL(
                    DeepLTranslator::new(account.auth_key.clone(), target_lang.to_owned()),
                ),
            ),
        },
    }
}

} // verus!
