use wordle::loader::LoadError;
use wordle::loader::build_dictionary;

#[test]
fn build_from_json_list() {
    let t = match build_dictionary("[\"APPLE\", \"mango\"]") {
        Ok(t) => t,
        Err(_) => panic!("a JSON list of words must be accepted"),
    };
    // words are stored case-folded
    assert!(t.search(b"apple"));
    assert!(t.search(b"mango"));
    assert!(!t.search(b"APPLE"));
    assert!(!t.search(b"grape"));
    let words = t.get_all_words();
    assert_eq!(words, vec![b"apple".to_vec(), b"mango".to_vec()]);
}

#[test]
fn build_from_empty_list() {
    let t = match build_dictionary("[]") {
        Ok(t) => t,
        Err(_) => panic!("an empty JSON list must be accepted"),
    };
    assert!(t.get_all_words().is_empty());
}

#[test]
fn build_rejects_malformed_text() {
    match build_dictionary("this is no JSON") {
        Ok(_) => panic!("malformed text must be rejected"),
        Err(e) => assert_eq!(e, LoadError::Malformed),
    }
    match build_dictionary("{\"a\": 1}") {
        Ok(_) => panic!("a JSON object must be rejected"),
        Err(e) => assert_eq!(e, LoadError::Malformed),
    }
    match build_dictionary("[1, 2, 3]") {
        Ok(_) => panic!("a list of numbers must be rejected"),
        Err(e) => assert_eq!(e, LoadError::Malformed),
    }
}

#[test]
fn build_keeps_multibyte_words() {
    let t = match build_dictionary("[\"ma\\u00e7a\"]") {
        Ok(t) => t,
        Err(_) => panic!("a JSON list of words must be accepted"),
    };
    assert!(t.search("ma\u{e7}a".as_bytes()));
    assert!(!t.search(b"maca"));
}
