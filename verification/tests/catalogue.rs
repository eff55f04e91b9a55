use term_translator::api::Keyed;
use term_translator::catalogue::Catalogue;
use term_translator::catalogue::CatalogueError;
use term_translator::schema::RegexTerm;
use term_translator::schema::TermType;

fn term(input: &str) -> RegexTerm {
    RegexTerm::new(input, "out", TermType::Transform)
}

fn keyed(key: &str, input: &str) -> Keyed<String, RegexTerm> {
    Keyed { key: key.to_string(), value: term(input) }
}

#[test]
fn new_terms_get_the_least_free_number() {
    let mut catalogue = Catalogue::new();
    assert_eq!(catalogue.insert(term("a")), Ok("0".to_string()));
    assert_eq!(catalogue.insert(term("b")), Ok("1".to_string()));
    assert_eq!(catalogue.insert(term("c")), Ok("2".to_string()));
    assert_eq!(catalogue.delete("1"), Ok(()));
    assert_eq!(catalogue.insert(term("d")), Ok("1".to_string()));
    assert_eq!(catalogue.insert(term("e")), Ok("3".to_string()));
    assert_eq!(catalogue.get_by_id("1").unwrap().input, "d");
    assert_eq!(catalogue.get_by_id("3").unwrap().input, "e");
}

#[test]
fn ids_that_are_no_numbers_do_not_count() {
    let mut catalogue =
        Catalogue::from_entries(vec![keyed("x", "a"), keyed("1", "b"), keyed("00", "c")]).unwrap();
    assert_eq!(catalogue.insert(term("d")), Ok("0".to_string()));
    assert_eq!(catalogue.insert(term("e")), Ok("2".to_string()));
    let mut ids: Vec<String> = catalogue.into_entries().into_iter().map(|e| e.key).collect();
    ids.sort();
    assert_eq!(ids, vec!["0", "00", "1", "2", "x"]);
}

#[test]
fn ten_terms_reach_two_digits() {
    let mut catalogue = Catalogue::new();
    for n in 0..12 {
        assert_eq!(catalogue.insert(term("a")), Ok(n.to_string()));
    }
}

#[test]
fn term_with_a_bad_pattern_is_refused() {
    let mut catalogue = Catalogue::new();
    assert_eq!(catalogue.insert(term("(")), Err(CatalogueError::InvalidPattern));
    assert_eq!(catalogue.insert(term("a")), Ok("0".to_string()));
    assert_eq!(catalogue.update_by_id("0", term("[")), Err(CatalogueError::InvalidPattern));
    assert_eq!(catalogue.update_by_id("7", term("[")), Err(CatalogueError::InvalidPattern));
    assert_eq!(catalogue.get_by_id("0").unwrap().input, "a");
}

#[test]
fn update_replaces_the_term_under_its_id() {
    let mut catalogue = Catalogue::new();
    catalogue.insert(term("a")).unwrap();
    catalogue.insert(term("b")).unwrap();
    assert_eq!(catalogue.update_by_id("0", term("c")), Ok(()));
    assert_eq!(catalogue.get_by_id("0").unwrap().input, "c");
    assert_eq!(catalogue.get_by_id("1").unwrap().input, "b");
    assert_eq!(catalogue.update_by_id("2", term("c")), Err(CatalogueError::NotFound));
    assert!(catalogue.get_by_id("2").is_none());
    assert_eq!(catalogue.into_entries().len(), 2);
}

#[test]
fn delete_drops_the_term_under_its_id() {
    let mut catalogue = Catalogue::new();
    catalogue.insert(term("a")).unwrap();
    catalogue.insert(term("b")).unwrap();
    assert_eq!(catalogue.delete("0"), Ok(()));
    assert!(catalogue.get_by_id("0").is_none());
    assert_eq!(catalogue.get_by_id("1").unwrap().input, "b");
    assert_eq!(catalogue.delete("0"), Err(CatalogueError::NotFound));
    assert_eq!(catalogue.into_entries(), vec![keyed("1", "b")]);
}

#[test]
fn entries_with_one_key_twice_make_no_catalogue() {
    assert!(Catalogue::from_entries(vec![keyed("a", "x"), keyed("b", "y"), keyed("a", "z")]).is_none());
    assert!(Catalogue::from_entries(vec![]).is_some());
    let catalogue = Catalogue::from_entries(vec![keyed("a", "x"), keyed("b", "y")]).unwrap();
    assert_eq!(catalogue.get_by_id("b").unwrap().input, "y");
    assert!(catalogue.get_by_id("c").is_none());
}

#[test]
fn errors_of_the_catalogue_say_what_happened() {
    assert_eq!(CatalogueError::NotFound.message(), "Term ID does not exist");
    assert_eq!(CatalogueError::InvalidPattern.message(), "A pattern is not a regular expression");
}
