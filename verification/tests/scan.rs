use term_translator::scan::accepts;
use term_translator::scan::EMOJI_PATTERN;
use term_translator::scan::find_plain;
use term_translator::scan::find_tagged;
use term_translator::scan::find_user;
use term_translator::scan::fit;
use term_translator::scan::HASHTAG_PATTERN;
use term_translator::scan::ScanError;
use term_translator::scan::URL_PATTERN;
use term_translator::text::byte_len;
use term_translator::text::same_text;
use term_translator::text::spans;
use term_translator::text::substr;
use term_translator::text::width_of_first;
use term_translator::translator::NopTranslator;
use term_translator::translator::TranslateError;
use term_translator::translator::Translator;

struct Shout;

impl Translator for Shout {
    fn name(&self) -> &'static str {
        "Shout"
    }

    fn translate(&self, text: &str) -> Result<String, TranslateError> {
        Ok(text.to_uppercase())
    }
}

#[test]
fn a_backend_can_be_written_outside_the_library() {
    assert_eq!(Shout.translate("x").unwrap(), "X");
    assert_eq!(Shout.name(), "Shout");
    assert_eq!(NopTranslator.translate("x").unwrap(), "x");
    assert_eq!(NopTranslator.name(), "Nop");
}

#[test]
fn url_pattern_finds_the_url() {
    assert_eq!(find_plain(URL_PATTERN, "see https://a.example"), Ok(Some((4, 21))));
    assert_eq!(find_plain(URL_PATTERN, "nothing here"), Ok(None));
}

#[test]
fn hashtag_pattern_finds_the_tag() {
    assert_eq!(find_tagged(HASHTAG_PATTERN, "a #猫 b"), Ok(Some((2, 6))));
    assert_eq!(find_tagged(HASHTAG_PATTERN, "a # b"), Ok(None));
}

#[test]
fn emoji_pattern_finds_emoji() {
    assert_eq!(find_plain(EMOJI_PATTERN, "ok 👍🏽!"), Ok(Some((3, 11))));
    assert_eq!(find_plain(EMOJI_PATTERN, "plain"), Ok(None));
}

#[test]
fn user_pattern_reports_byte_offsets() {
    assert_eq!(find_user("猫", "黒猫が好き"), Ok(Some((3, 6))));
    assert_eq!(find_user("(?<=黒)猫", "猫と黒猫"), Ok(Some((9, 12))));
    assert_eq!(find_user("(", "x"), Err(ScanError::Pattern));
}

#[test]
fn search_that_is_given_up_is_an_error() {
    let text = "x".repeat(60);
    assert_eq!(find_user("(x+x+)+(?>y)", &text), Err(ScanError::Search));
}

#[test]
fn match_that_does_not_fit_the_text_is_an_error() {
    // The character occupies the bytes 0 to 3.
    assert_eq!(fit("猫", Ok(Some((0, 3)))), Ok(Some((0, 3))));
    assert_eq!(fit("猫", Ok(Some((3, 3)))), Ok(Some((3, 3))));
    assert_eq!(fit("猫", Ok(Some((1, 3)))), Err(ScanError::Range));
    assert_eq!(fit("猫", Ok(Some((0, 2)))), Err(ScanError::Range));
    assert_eq!(fit("猫", Ok(Some((0, 4)))), Err(ScanError::Range));
    assert_eq!(fit("猫", Ok(Some((3, 0)))), Err(ScanError::Range));
    assert_eq!(fit("猫", Ok(None)), Ok(None));
    assert_eq!(fit("猫", Err(ScanError::Search)), Err(ScanError::Search));
}

#[test]
fn patterns_are_accepted_or_refused() {
    assert!(accepts("猫"));
    assert!(accepts("(?<=a)(b)\\1?"));
    assert!(!accepts("("));
    assert!(!accepts("[a"));
}

#[test]
fn text_is_cut_at_byte_offsets() {
    assert_eq!(byte_len("a猫👍"), 8);
    assert_eq!(byte_len(""), 0);
    assert!(spans("a猫👍", 1, 4));
    assert!(spans("a猫👍", 8, 8));
    assert!(!spans("a猫👍", 2, 4));
    assert!(!spans("a猫👍", 4, 1));
    assert!(!spans("a猫👍", 4, 9));
    assert_eq!(substr("a猫👍", 1, 4), "猫");
    assert_eq!(substr("a猫👍", 0, 8), "a猫👍");
    assert_eq!(substr("a猫👍", 4, 4), "");
    assert_eq!(width_of_first("a猫"), 1);
    assert_eq!(width_of_first("猫a"), 3);
    assert_eq!(width_of_first("👍"), 4);
    assert_eq!(width_of_first("é"), 2);
    assert!(same_text("猫", "猫"));
    assert!(same_text("", ""));
    assert!(!same_text("猫", "犬"));
    assert!(!same_text("a", "ab"));
}
