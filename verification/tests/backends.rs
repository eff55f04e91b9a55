use term_translator::config::default_database_path;
use term_translator::config::default_listen_addr;
use term_translator::config::load_translator;
use term_translator::config::Backend;
use term_translator::config::BaiduConfig;
use term_translator::config::Config;
use term_translator::config::ConfigError;
use term_translator::config::DeepLConfig;
use term_translator::config::MicrosoftConfig;
use term_translator::config::Translator;
use term_translator::numerals::decimal;
use term_translator::numerals::hex;
use term_translator::numerals::hex_bytes;
use term_translator::scan::ScanError;
use term_translator::translator::google::JsonValue;
use term_translator::translator::join;
use term_translator::translator::microsoft::MicrosoftReply;
use term_translator::translator::BaiduTranslator;
use term_translator::translator::DeepLTranslator;
use term_translator::translator::GoogleTranslator;
use term_translator::translator::MicrosoftTranslator;
use term_translator::translator::TranslateError;

fn pair(name: &str, value: &str) -> (String, String) {
    (name.to_string(), value.to_string())
}

fn s(text: &str) -> JsonValue {
    JsonValue::Text(text.to_string())
}

fn config() -> Config {
    Config {
        baidu: Some(BaiduConfig { appid: "id".to_string(), secret: "sec".to_string() }),
        microsoft: Some(MicrosoftConfig { api_key: "key".to_string() }),
        deepl: Some(DeepLConfig { auth_key: "auth".to_string() }),
        zh: Translator::Baidu,
        en: Translator::Google,
        database: default_database_path(),
        listen: default_listen_addr(),
    }
}

#[test]
fn numbers_are_written_out() {
    assert_eq!(decimal(0), "0");
    assert_eq!(decimal(7), "7");
    assert_eq!(decimal(10), "10");
    assert_eq!(decimal(4294967295), "4294967295");
    assert_eq!(decimal(u64::MAX), "18446744073709551615");
    assert_eq!(hex(0), "0");
    assert_eq!(hex(255), "ff");
    assert_eq!(hex(4096), "1000");
    assert_eq!(hex(0xdead_beef), "deadbeef");
    assert_eq!(hex_bytes(&[0x00, 0x0f, 0xa0, 0xff]), "000fa0ff");
    assert_eq!(hex_bytes(&[]), "");
}

#[test]
fn texts_are_joined() {
    assert_eq!(join(&vec!["a".to_string(), "".to_string(), "猫".to_string()]), "a猫");
    assert_eq!(join(&vec![]), "");
}

#[test]
fn google_form_asks_for_a_translation_from_japanese() {
    let client = GoogleTranslator::new("en".to_string());
    assert_eq!(client.name(), "Google");
    assert_eq!(client.endpoint(), "https://translate.googleapis.com/translate_a/single");
    assert_eq!(
        client.form("猫"),
        vec![pair("client", "gtx"), pair("sl", "ja"), pair("tl", "en"), pair("dt", "t"), pair("q", "猫")]
    );
}

#[test]
fn google_reply_is_read_line_by_line() {
    let body = JsonValue::List(vec![
        JsonValue::List(vec![
            JsonValue::List(vec![s("Hello "), s("こんにちは"), JsonValue::Other]),
            JsonValue::List(vec![s("world"), s("世界")]),
        ]),
        JsonValue::Other,
        s("ja"),
    ]);
    assert_eq!(GoogleTranslator::read(&body), Ok("Hello world".to_string()));
    let empty = JsonValue::List(vec![JsonValue::List(vec![])]);
    assert_eq!(GoogleTranslator::read(&empty), Ok(String::new()));
}

#[test]
fn google_reply_of_another_shape_is_refused() {
    let cases = vec![
        JsonValue::Other,
        s("text"),
        JsonValue::List(vec![]),
        JsonValue::List(vec![JsonValue::Other]),
        JsonValue::List(vec![JsonValue::List(vec![JsonValue::Other])]),
        JsonValue::List(vec![JsonValue::List(vec![JsonValue::List(vec![])])]),
        JsonValue::List(vec![JsonValue::List(vec![JsonValue::List(vec![JsonValue::Other])])]),
        JsonValue::List(vec![JsonValue::List(vec![
            JsonValue::List(vec![s("fine")]),
            JsonValue::List(vec![JsonValue::Other]),
        ])]),
    ];
    for body in cases {
        assert_eq!(GoogleTranslator::read(&body), Err(TranslateError::Unparsable));
    }
}

#[test]
fn baidu_form_is_signed_with_the_digest_of_its_fields() {
    let client = BaiduTranslator::new("id".to_string(), "sec".to_string(), "zh".to_string());
    assert_eq!(client.name(), "Baidu");
    assert_eq!(client.endpoint(), "https://fanyi-api.baidu.com/api/trans/vip/translate");
    // The digest of "idtext1fsec".
    assert_eq!(
        client.form_with_salt("text", 0x1f),
        vec![
            pair("q", "text"),
            pair("from", "jp"),
            pair("to", "zh"),
            pair("appid", "id"),
            pair("salt", "1f"),
            pair("sign", &format!("{:x}", md5::compute("idtext1fsec"))),
        ]
    );
    let signed = client.form_with_salt("text", 0x1f);
    assert_eq!(signed[5].1.len(), 32);
    assert_ne!(signed[5].1, client.form_with_salt("other", 0x1f)[5].1);
}

#[test]
fn baidu_form_draws_a_salt() {
    let client = BaiduTranslator::new("id".to_string(), "sec".to_string(), "zh".to_string());
    let form = client.form("text");
    assert_eq!(form.len(), 6);
    let salt = u32::from_str_radix(&form[4].1, 16).unwrap();
    assert_eq!(form, client.form_with_salt("text", salt));
}

#[test]
fn baidu_reply_is_joined() {
    assert_eq!(BaiduTranslator::read(&vec!["a".to_string(), "b".to_string()]), "ab");
    assert_eq!(BaiduTranslator::read(&vec![]), "");
}

#[test]
fn deepl_names_languages_in_upper_case() {
    let client = DeepLTranslator::new("auth".to_string(), "en".to_string());
    assert_eq!(client.name(), "DeepL");
    assert_eq!(client.endpoint(), "https://api-free.deepl.com/v2/translate");
    assert_eq!(
        client.form("猫"),
        vec![pair("text", "猫"), pair("target_lang", "EN-US"), pair("auth_key", "auth")]
    );
    let client = DeepLTranslator::new("auth".to_string(), "zh".to_string());
    assert_eq!(client.form("猫")[1], pair("target_lang", "ZH"));
}

#[test]
fn deepl_reply_gives_its_first_translation() {
    assert_eq!(DeepLTranslator::read(vec![]), Err(TranslateError::NoTranslation));
    assert_eq!(DeepLTranslator::read(vec!["a".to_string()]), Ok("a".to_string()));
    assert_eq!(DeepLTranslator::read(vec!["a".to_string(), "b".to_string()]), Ok("a".to_string()));
}

#[test]
fn microsoft_request_carries_version_language_and_key() {
    let client = MicrosoftTranslator::new("key".to_string(), "en".to_string());
    assert_eq!(client.name(), "Microsoft");
    assert_eq!(client.endpoint(), "https://api.cognitive.microsofttranslator.com/translate");
    assert_eq!(client.query(), vec![pair("api-version", "3.0"), pair("to", "en")]);
    assert_eq!(client.header(), pair("Ocp-Apim-Subscription-Key", "key"));
}

#[test]
fn microsoft_reply_gives_its_last_translation() {
    let reply = MicrosoftReply::Success(vec![
        vec!["first".to_string()],
        vec!["a".to_string(), "b".to_string()],
    ]);
    assert_eq!(MicrosoftTranslator::read(reply), Ok("b".to_string()));
    assert_eq!(
        MicrosoftTranslator::read(MicrosoftReply::Success(vec![])),
        Err(TranslateError::Unexpected)
    );
    assert_eq!(
        MicrosoftTranslator::read(MicrosoftReply::Success(vec![vec!["a".to_string()], vec![]])),
        Err(TranslateError::Unexpected)
    );
    assert_eq!(
        MicrosoftTranslator::read(MicrosoftReply::Error { code: 401000, message: "denied".to_string() }),
        Err(TranslateError::Api(401000, "denied".to_string()))
    );
}

#[test]
fn errors_say_what_happened() {
    assert_eq!(TranslateError::NoTranslation.message(), "DeepL returns no translations");
    assert_eq!(TranslateError::Unexpected.message(), "Unexpected API result");
    assert_eq!(TranslateError::Unparsable.message(), "Cannot parse Google translate response");
    assert_eq!(TranslateError::Api(401000, "denied".to_string()).message(), "Error 401000: denied");
    assert_eq!(TranslateError::Backend("timeout".to_string()).message(), "timeout");
    assert_eq!(
        TranslateError::Scan(ScanError::Pattern).message(),
        "A pattern is not a regular expression"
    );
    assert_eq!(TranslateError::Scan(ScanError::Search).message(), "A search was given up");
    assert_eq!(TranslateError::Scan(ScanError::Range).message(), "A match does not fit the text");
    assert_eq!(ConfigError::Baidu.message(), "Baidu config not found");
    assert_eq!(ConfigError::Microsoft.message(), "Microsoft config not found");
    assert_eq!(ConfigError::DeepL.message(), "DeepL config not found");
}

#[test]
fn defaults_of_the_configuration() {
    assert_eq!(default_database_path(), "dictionary.db");
    assert_eq!(default_listen_addr(), "127.0.0.1:3001");
    assert_eq!(Translator::default(), Translator::Nop);
}

#[test]
fn backend_is_made_by_the_configuration() {
    let config = config();
    let cases = [
        (Translator::Nop, "Nop"),
        (Translator::Google, "Google"),
        (Translator::Baidu, "Baidu"),
        (Translator::Microsoft, "Microsoft"),
        (Translator::DeepL, "DeepL"),
    ];
    for (choice, name) in cases {
        assert_eq!(load_translator("en", choice, &config).unwrap().name(), name);
    }
    match load_translator("en", Translator::DeepL, &config).unwrap() {
        Backend::DeepL(client) => assert_eq!(client.form("x")[1], pair("target_lang", "EN-US")),
        other => panic!("{:?}", other),
    }
    match load_translator("zh", Translator::Baidu, &config).unwrap() {
        Backend::Baidu(client) => {
            let form = client.form_with_salt("x", 1);
            assert_eq!(form[2], pair("to", "zh"));
            assert_eq!(form[3], pair("appid", "id"));
        }
        other => panic!("{:?}", other),
    }
}

#[test]
fn backend_without_account_is_refused() {
    let mut config = config();
    config.baidu = None;
    config.microsoft = None;
    config.deepl = None;
    assert_eq!(load_translator("en", Translator::Baidu, &config).unwrap_err(), ConfigError::Baidu);
    assert_eq!(
        load_translator("en", Translator::Microsoft, &config).unwrap_err(),
        ConfigError::Microsoft
    );
    assert_eq!(load_translator("en", Translator::DeepL, &config).unwrap_err(), ConfigError::DeepL);
    assert!(load_translator("en", Translator::Nop, &config).is_ok());
    assert!(load_translator("en", Translator::Google, &config).is_ok());
}
