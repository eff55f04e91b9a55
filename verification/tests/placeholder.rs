use term_translator::placeholder::decode_replace_string;
use term_translator::placeholder::encode_replacement_string;
use term_translator::placeholder::find_token;
use term_translator::schema::TermType;
use term_translator::translator::parts::into_last_text;
use term_translator::translator::parts::inverse_transform;
use term_translator::translator::parts;
use term_translator::translator::parts::Part;
use term_translator::translator::slots::decode;
use term_translator::translator::slots::encode;

fn text(s: &str) -> Part {
    Part::Text(s.to_string())
}

fn term(ty: TermType, s: &str) -> Part {
    Part::Term(ty, s.to_string())
}

#[test]
fn index_is_written_in_base_twenty_least_digit_first() {
    assert_eq!(encode_replacement_string(0), "ZMBZ");
    assert_eq!(encode_replacement_string(1), "ZMCZ");
    assert_eq!(encode_replacement_string(19), "ZMYZ");
    assert_eq!(encode_replacement_string(20), "ZMBCZ");
    assert_eq!(encode_replacement_string(21), "ZMCCZ");
    assert_eq!(encode_replacement_string(399), "ZMYYZ");
    assert_eq!(encode_replacement_string(400), "ZMBBCZ");
}

#[test]
fn written_index_is_read_back() {
    for index in [0usize, 1, 19, 20, 21, 399, 400, 8000, 123_456_789, usize::MAX] {
        assert_eq!(decode_replace_string(&encode_replacement_string(index)), Some(index));
    }
}

#[test]
fn index_is_read_in_either_case() {
    assert_eq!(decode_replace_string("ZMBCZ"), Some(20));
    assert_eq!(decode_replace_string("zmbcz"), Some(20));
    assert_eq!(decode_replace_string("zMcZ"), Some(1));
    assert_eq!(decode_replace_string("ZMMZ"), Some(9));
}

#[test]
fn what_is_no_token_names_no_index() {
    for input in ["", "ZMZ", "ZMB", "MBZ", "ZMAZ", "ZMBZ ", " ZMBZ", "ZMBZZ", "ZM猫Z", "ZMB\u{212A}Z"] {
        assert_eq!(decode_replace_string(input), None);
    }
    // More than a `usize` holds.
    assert_eq!(decode_replace_string("ZMYYYYYYYYYYYYYYYYYYYYYYYYYYYYYYZ"), None);
}

#[test]
fn first_token_is_found() {
    assert_eq!(find_token("a ZMBZ b zmcz".as_bytes(), 0), Some((2, 6)));
    assert_eq!(find_token("a ZMBZ b zmcz".as_bytes(), 3), Some((9, 13)));
    assert_eq!(find_token("ZMZ ZMB ZMBX".as_bytes(), 0), None);
    assert_eq!(find_token("ZMBZMBZ".as_bytes(), 0), Some((0, 4)));
    assert_eq!(find_token("ZMZMBZ".as_bytes(), 0), Some((2, 6)));
    assert_eq!(find_token("".as_bytes(), 0), None);
    assert_eq!(find_token("ZMBZ".as_bytes(), 9), None);
}

#[test]
fn encode_writes_one_token_for_each_run_of_terms() {
    let parts = vec![
        text("a"),
        term(TermType::Transform, "1"),
        term(TermType::Postprocess, "2"),
        text("b"),
        term(TermType::Transform, "3"),
    ];
    let (encoded, slots) = encode(parts);
    assert_eq!(encoded, "aZMBZbZMCZ");
    assert_eq!(
        slots,
        vec![
            vec![(TermType::Transform, "1".to_string()), (TermType::Postprocess, "2".to_string())],
            vec![(TermType::Transform, "3".to_string())],
        ]
    );
}

#[test]
fn empty_text_breaks_a_run() {
    let parts = vec![term(TermType::Transform, "1"), text(""), term(TermType::Transform, "2")];
    let (encoded, slots) = encode(parts);
    assert_eq!(encoded, "ZMBZZMCZ");
    assert_eq!(slots.len(), 2);
}

#[test]
fn decode_gives_back_what_encode_took() {
    let parts = vec![
        text("a"),
        term(TermType::Transform, "1"),
        term(TermType::Postprocess, "2"),
        text("猫"),
        term(TermType::Transform, "3"),
    ];
    let (encoded, slots) = encode(parts.clone());
    assert_eq!(decode(&encoded, slots), parts);
}

#[test]
fn decode_drops_a_token_without_slot() {
    let slots = vec![vec![(TermType::Transform, "1".to_string())]];
    assert_eq!(
        decode("xZMCZyZMBZ", slots),
        vec![text("x"), text("y"), term(TermType::Transform, "1")]
    );
    assert_eq!(decode("", vec![]), vec![]);
    assert_eq!(decode("ZMBZ", vec![]), vec![]);
}

#[test]
fn inverse_transform_turns_chosen_terms_into_text() {
    let parts = vec![
        text("a"),
        term(TermType::Preprocess, "p"),
        term(TermType::Preprocess, ""),
        term(TermType::Transform, "t"),
        term(TermType::Postprocess, ""),
    ];
    assert_eq!(
        inverse_transform(parts.clone(), Some(TermType::Preprocess)),
        vec![text("a"), text("p"), term(TermType::Transform, "t"), term(TermType::Postprocess, "")]
    );
    assert_eq!(inverse_transform(parts, None), vec![text("a"), text("p"), text("t")]);
}

#[test]
fn concat_joins_neighbouring_texts() {
    let parts = vec![
        text("a"),
        text("b"),
        term(TermType::Transform, "t"),
        text("c"),
        text(""),
        text("d"),
    ];
    assert_eq!(parts::concat(parts), vec![text("ab"), term(TermType::Transform, "t"), text("cd")]);
    assert_eq!(parts::concat(vec![]), vec![]);
    assert_eq!(parts::concat(vec![text("")]), vec![text("")]);
}

#[test]
fn last_text_is_the_result() {
    assert_eq!(into_last_text(vec![text("a"), text("b")]), "b");
    assert_eq!(into_last_text(vec![text("a"), term(TermType::Transform, "t")]), "");
    assert_eq!(into_last_text(vec![]), "");
}
