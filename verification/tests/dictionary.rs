use term_translator::schema::RegexTerm;
use term_translator::schema::TermType;
use term_translator::translator::dictionary::Pass;
use term_translator::translator::parts::Part;
use term_translator::translator::DictionaryTranslator;
use term_translator::translator::NopTranslator;
use term_translator::translator::TranslateError;
use term_translator::translator::Translator;

/// A backend that answers every text in upper case.
struct Upper;

impl Translator for Upper {
    fn name(&self) -> &'static str {
        "Upper"
    }

    fn translate(&self, text: &str) -> Result<String, TranslateError> {
        Ok(text.to_uppercase())
    }
}

/// A backend that always fails.
struct Down;

impl Translator for Down {
    fn name(&self) -> &'static str {
        "Down"
    }

    fn translate(&self, _text: &str) -> Result<String, TranslateError> {
        Err(TranslateError::Backend("no route".to_string()))
    }
}

fn text(s: &str) -> Part {
    Part::Text(s.to_string())
}

fn term(ty: TermType, s: &str) -> Part {
    Part::Term(ty, s.to_string())
}

#[test]
fn url_is_protected_and_restored() {
    let terms: Vec<RegexTerm> = vec![];
    let engine = DictionaryTranslator::new(&NopTranslator, &terms);
    assert_eq!(engine.translate("see https://a.example").unwrap(), "see https://a.example");

    let shielded = engine.transform(vec![text("see https://a.example")], Pass::Intrinsic).unwrap();
    assert_eq!(shielded, vec![text("see "), term(TermType::Transform, "https://a.example")]);

    let (encoded, slots) = engine.prepare("see https://a.example").unwrap();
    assert_eq!(encoded, "see ZMBZ");
    assert_eq!(slots, vec![vec![(TermType::Transform, "https://a.example".to_string())]]);
    assert_eq!(engine.finish(&encoded, slots).unwrap(), "see https://a.example");
}

#[test]
fn transform_term_replaces_its_match() {
    let terms = vec![RegexTerm::new("猫", "cat", TermType::Transform)];
    let engine = DictionaryTranslator::new(&NopTranslator, &terms);
    assert_eq!(engine.translate("猫が好き").unwrap(), "catが好き");
}

#[test]
fn preprocess_term_is_written_out_and_transform_term_is_held_back() {
    let terms = vec![
        RegexTerm::new("A", "a", TermType::Preprocess),
        RegexTerm::new("B", "b", TermType::Transform),
    ];
    let engine = DictionaryTranslator::new(&NopTranslator, &terms);
    let (encoded, slots) = engine.prepare("AB").unwrap();
    assert_eq!(encoded, "aZMBZ");
    assert_eq!(slots, vec![vec![(TermType::Transform, "b".to_string())]]);
    assert_eq!(engine.translate("AB").unwrap(), "ab");
}

#[test]
fn postprocess_term_works_on_what_the_backend_wrote() {
    let terms = vec![RegexTerm::new("X", "Y", TermType::Postprocess)];
    let engine = DictionaryTranslator::new(&Upper, &terms);
    assert_eq!(engine.translate("x").unwrap(), "Y");
    let (encoded, slots) = engine.prepare("x").unwrap();
    assert_eq!(encoded, "x");
    assert_eq!(engine.finish("X", slots).unwrap(), "Y");
}

#[test]
fn hashtag_is_translated_without_the_backend() {
    let terms = vec![RegexTerm::new("猫", "cat", TermType::Transform)];
    let engine = DictionaryTranslator::new(&NopTranslator, &terms);
    assert_eq!(engine.translate("#猫").unwrap(), "#cat");

    let upper = DictionaryTranslator::new(&Upper, &terms);
    let (encoded, slots) = upper.prepare("#猫").unwrap();
    assert_eq!(encoded, "ZMBZ");
    assert_eq!(slots, vec![vec![(TermType::Transform, "#cat".to_string())]]);
    assert_eq!(upper.translate("#猫 ok").unwrap(), "#cat OK");
}

#[test]
fn neighbouring_terms_share_one_placeholder() {
    let terms = vec![
        RegexTerm::new("A", "α", TermType::Transform),
        RegexTerm::new("B", "β", TermType::Transform),
    ];
    let engine = DictionaryTranslator::new(&NopTranslator, &terms);
    let claimed = engine.transform(vec![text("AB")], Pass::BeforeBackend).unwrap();
    assert_eq!(claimed, vec![term(TermType::Transform, "α"), term(TermType::Transform, "β")]);
    let (encoded, slots) = engine.prepare("AB").unwrap();
    assert_eq!(encoded, "ZMBZ");
    assert_eq!(
        slots,
        vec![vec![
            (TermType::Transform, "α".to_string()),
            (TermType::Transform, "β".to_string()),
        ]]
    );
    assert_eq!(engine.translate("AB").unwrap(), "αβ");
}

#[test]
fn text_without_terms_comes_back_unchanged() {
    let terms: Vec<RegexTerm> = vec![];
    let engine = DictionaryTranslator::new(&NopTranslator, &terms);
    for input in ["", "plain", "猫が好き 👍 #tag https://a.example/x?y=1 end"] {
        assert_eq!(engine.translate(input).unwrap(), input);
        assert_eq!(engine.recurse(input).unwrap(), input);
    }
}

#[test]
fn earlier_terms_get_the_text_before_a_match_of_a_later_one() {
    let terms = vec![
        RegexTerm::new("b", "[b]", TermType::Transform),
        RegexTerm::new("a", "[a]", TermType::Transform),
    ];
    let engine = DictionaryTranslator::new(&NopTranslator, &terms);
    let claimed = engine.transform(vec![text("xaybza")], Pass::BeforeBackend).unwrap();
    assert_eq!(
        claimed,
        vec![
            text("x"),
            term(TermType::Transform, "[a]"),
            text("y"),
            term(TermType::Transform, "[b]"),
            text("z"),
            term(TermType::Transform, "[a]"),
        ]
    );
}

#[test]
fn replacement_is_not_scanned_again() {
    let terms = vec![
        RegexTerm::new("a", "b", TermType::Transform),
        RegexTerm::new("b", "c", TermType::Transform),
    ];
    let engine = DictionaryTranslator::new(&NopTranslator, &terms);
    assert_eq!(engine.translate("ab").unwrap(), "bc");
}

#[test]
fn empty_match_advances_by_one_character() {
    let terms = vec![RegexTerm::new("x*", "-", TermType::Transform)];
    let engine = DictionaryTranslator::new(&NopTranslator, &terms);
    assert_eq!(engine.translate("猫a").unwrap(), "-猫-a");
}

#[test]
fn passes_leave_out_the_terms_of_the_other_stages() {
    let terms = vec![
        RegexTerm::new("a", "1", TermType::Preprocess),
        RegexTerm::new("b", "2", TermType::Transform),
        RegexTerm::new("c", "3", TermType::Postprocess),
    ];
    let engine = DictionaryTranslator::new(&NopTranslator, &terms);
    assert_eq!(
        engine.transform(vec![text("abc")], Pass::BeforeBackend).unwrap(),
        vec![term(TermType::Preprocess, "1"), term(TermType::Transform, "2"), text("c")]
    );
    assert_eq!(
        engine.transform(vec![text("abc")], Pass::AfterBackend).unwrap(),
        vec![text("ab"), term(TermType::Postprocess, "3")]
    );
    assert_eq!(engine.translate("abc").unwrap(), "123");
}

#[test]
fn protected_parts_pass_through_a_pass() {
    let terms = vec![RegexTerm::new("a", "b", TermType::Transform)];
    let engine = DictionaryTranslator::new(&NopTranslator, &terms);
    assert_eq!(
        engine.transform(vec![term(TermType::Transform, "a"), text("a")], Pass::BeforeBackend).unwrap(),
        vec![term(TermType::Transform, "a"), term(TermType::Transform, "b")]
    );
}

#[test]
fn bad_pattern_fails_the_translation() {
    let terms = vec![RegexTerm::new("(", "x", TermType::Transform)];
    let engine = DictionaryTranslator::new(&NopTranslator, &terms);
    assert_eq!(
        engine.translate("abc"),
        Err(TranslateError::Scan(term_translator::scan::ScanError::Pattern))
    );
    assert_eq!(engine.translate(""), Ok(String::new()));
}

#[test]
fn backend_failure_is_passed_on() {
    let terms: Vec<RegexTerm> = vec![];
    let engine = DictionaryTranslator::new(&Down, &terms);
    assert_eq!(engine.translate("abc"), Err(TranslateError::Backend("no route".to_string())));
}

#[test]
fn backend_behind_a_trait_object_is_accepted() {
    let terms = vec![RegexTerm::new("猫", "cat", TermType::Transform)];
    let backend: &dyn Translator = &Upper;
    let engine = DictionaryTranslator::new(backend, &terms);
    assert_eq!(engine.translate("猫 and dog").unwrap(), "cat AND DOG");
    assert_eq!(engine.name(), "Term");
}

#[test]
fn backend_may_lower_the_case_of_a_placeholder() {
    let terms = vec![RegexTerm::new("猫", "cat", TermType::Transform)];
    let engine = DictionaryTranslator::new(&NopTranslator, &terms);
    let (encoded, slots) = engine.prepare("猫!").unwrap();
    assert_eq!(encoded, "ZMBZ!");
    assert_eq!(engine.finish("zmbz?", slots).unwrap(), "cat?");
}

#[test]
fn backend_may_drop_or_repeat_or_invent_placeholders() {
    let terms = vec![RegexTerm::new("猫", "cat", TermType::Transform)];
    let engine = DictionaryTranslator::new(&NopTranslator, &terms);
    let (_, slots) = engine.prepare("猫").unwrap();
    assert_eq!(engine.finish("none", slots.clone()).unwrap(), "none");
    assert_eq!(engine.finish("ZMBZ ZMBZ", slots.clone()).unwrap(), "cat cat");
    assert_eq!(engine.finish("a ZMCZ b", slots).unwrap(), "a  b");
}

#[test]
fn text_that_reads_as_a_placeholder_is_taken_for_one() {
    let terms: Vec<RegexTerm> = vec![];
    let engine = DictionaryTranslator::new(&NopTranslator, &terms);
    // No slot has the index 0: the token is dropped.
    assert_eq!(engine.translate("ZMBZ").unwrap(), "");
    // The slot of the URL is read twice.
    assert_eq!(
        engine.translate("zmbz https://a.example").unwrap(),
        "https://a.example https://a.example"
    );
    // The text before the URL and the first letter of its token make a token.
    assert_eq!(engine.translate("ZMBhttps://a.example").unwrap(), "https://a.exampleMBZ");
}

#[test]
fn engine_and_its_two_halves_agree() {
    let terms = vec![
        RegexTerm::new("猫", "cat", TermType::Transform),
        RegexTerm::new("好き", "like", TermType::Preprocess),
        RegexTerm::new("cat", "CAT", TermType::Postprocess),
    ];
    let engine = DictionaryTranslator::new(&NopTranslator, &terms);
    for input in ["猫が好き", "#猫 cat https://a.example 👍", "", "no match"] {
        let (encoded, slots) = engine.prepare(input).unwrap();
        let finished = engine.finish(&encoded, slots).unwrap();
        assert_eq!(engine.translate(input).unwrap(), finished);
        assert_eq!(engine.recurse(input).unwrap(), finished);
    }
    assert_eq!(engine.translate("猫が好き cat").unwrap(), "catがlike CAT");
}
