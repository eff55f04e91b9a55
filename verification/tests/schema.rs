use std::cmp::Ordering;
use term_translator::api::eligible_terms;
use term_translator::api::handle_rejection;
use term_translator::api::is_eligible;
use term_translator::api::supports;
use term_translator::api::Rejection;
use term_translator::schema::FilterList;
use term_translator::schema::RegexTerm;
use term_translator::schema::TermType;

fn list(exclude: bool, names: &[&str]) -> FilterList {
    FilterList { exclude, list: names.iter().map(|name| name.to_string()).collect() }
}

fn term(input: &str, priority: u32, ty: TermType) -> RegexTerm {
    let mut term = RegexTerm::new(input, "", ty);
    term.priority = priority;
    term
}

#[test]
fn filter_list_admits_its_members_or_all_others() {
    assert!(list(false, &["X"]).contains("X"));
    assert!(!list(false, &["X"]).contains("Y"));
    assert!(!list(true, &["X"]).contains("X"));
    assert!(list(true, &["X"]).contains("Y"));
    assert!(!list(false, &[]).contains("X"));
    assert!(list(true, &[]).contains("X"));
    assert!(list(false, &["A", "B", "C"]).contains("C"));
}

#[test]
fn default_stage_is_transform() {
    assert_eq!(TermType::default(), TermType::Transform);
}

#[test]
fn lower_priority_is_tried_first() {
    let a = term("long pattern", 1, TermType::Postprocess);
    let b = term("x", 2, TermType::Preprocess);
    assert_eq!(a.compare_priority(&b), Ordering::Less);
    assert_eq!(b.compare_priority(&a), Ordering::Greater);
}

#[test]
fn stages_are_tried_in_their_order() {
    let pre = term("long pattern", 0, TermType::Preprocess);
    let mid = term("pattern", 0, TermType::Transform);
    let post = term("x", 0, TermType::Postprocess);
    assert_eq!(pre.compare_priority(&mid), Ordering::Less);
    assert_eq!(mid.compare_priority(&post), Ordering::Less);
    assert_eq!(pre.compare_priority(&post), Ordering::Less);
    assert_eq!(post.compare_priority(&mid), Ordering::Greater);
    assert_eq!(mid.compare_priority(&pre), Ordering::Greater);
}

#[test]
fn shorter_pattern_is_tried_first() {
    let short = term("猫", 3, TermType::Transform);
    let long = term("cats", 3, TermType::Transform);
    assert_eq!(short.compare_priority(&long), Ordering::Less);
    assert_eq!(long.compare_priority(&short), Ordering::Greater);
    assert_eq!(short.compare_priority(&term("dog", 3, TermType::Transform)), Ordering::Equal);
}

#[test]
fn term_is_eligible_for_its_language_and_backends() {
    let mut t = term("a", 0, TermType::Transform);
    assert!(is_eligible(&t, "en", "Google"));
    t.target_lang = Some("zh".to_string());
    assert!(!is_eligible(&t, "en", "Google"));
    assert!(is_eligible(&t, "zh", "Google"));
    t.translator = Some(list(false, &["Baidu"]));
    assert!(!is_eligible(&t, "zh", "Google"));
    assert!(is_eligible(&t, "zh", "Baidu"));
    t.translator = Some(list(true, &["Baidu"]));
    assert!(is_eligible(&t, "zh", "Google"));
    assert!(!is_eligible(&t, "zh", "Baidu"));
}

#[test]
fn eligible_terms_are_filtered_and_sorted() {
    let mut other_language = term("never", 0, TermType::Transform);
    other_language.target_lang = Some("zh".to_string());
    let mut other_backend = term("never", 0, TermType::Transform);
    other_backend.translator = Some(list(true, &["Google"]));
    let all = vec![
        term("ccc", 1, TermType::Transform),
        other_language,
        term("post", 0, TermType::Postprocess),
        term("bb", 1, TermType::Transform),
        other_backend,
        term("pre", 1, TermType::Preprocess),
        term("aa", 1, TermType::Transform),
    ];
    let sorted = eligible_terms(all, "en", "Google");
    let inputs: Vec<&str> = sorted.iter().map(|t| t.input.as_str()).collect();
    assert_eq!(inputs, vec!["post", "pre", "bb", "aa", "ccc"]);
}

#[test]
fn english_and_chinese_are_supported() {
    assert!(supports("en"));
    assert!(supports("zh"));
    assert!(!supports("ja"));
    assert!(!supports(""));
    assert!(!supports("EN"));
}

#[test]
fn rejections_are_answered_with_status_and_message() {
    let cases = [
        (Rejection::NotFound, 404, "NOT_FOUND"),
        (Rejection::Failed, 500, "INTERNAL_SERVER_ERROR"),
        (Rejection::InvalidQuery, 422, "INVALID_QUERY"),
        (Rejection::MethodNotAllowed, 405, "METHOD_NOT_ALLOWED"),
        (Rejection::Unhandled, 500, "UNHANDLED_REJECTION"),
    ];
    for (rejection, code, message) in cases {
        let (status, body) = handle_rejection(rejection);
        assert_eq!(status, code);
        assert_eq!(body.error, message);
    }
}
