use flashcards::cards::load_flashcards;
use flashcards::errors::LoadError;

#[test]
fn keeps_only_complete_records() {
    let lines = vec![
        "q1,a1".to_string(),
        "".to_string(),
        "q2,".to_string(),
        "bad".to_string(),
    ];
    let cards = load_flashcards(&lines).unwrap();
    assert_eq!(cards.len(), 1);
    assert_eq!(cards[0].question, "q1");
    assert_eq!(cards[0].answer, "a1");
}

#[test]
fn preserves_file_order() {
    let lines = vec![
        "q1,a1".to_string(),
        "q2,a2".to_string(),
        "q3,a3".to_string(),
    ];
    let cards = load_flashcards(&lines).unwrap();
    assert_eq!(cards.len(), 3);
    assert_eq!(cards[0].question, "q1");
    assert_eq!(cards[1].question, "q2");
    assert_eq!(cards[2].answer, "a3");
}

#[test]
fn no_usable_cards_is_an_error() {
    let lines = vec!["".to_string(), "bad".to_string(), ",a".to_string()];
    match load_flashcards(&lines) {
        Err(e) => assert_eq!(e, LoadError::NoUsableCards),
        Ok(_) => panic!("expected a load failure"),
    }
}

#[test]
fn empty_file_is_an_error() {
    let lines: Vec<String> = Vec::new();
    match load_flashcards(&lines) {
        Err(e) => assert_eq!(e, LoadError::NoUsableCards),
        Ok(_) => panic!("expected a load failure"),
    }
}

#[test]
fn quoted_records_load() {
    let lines = vec!["\"1, 2, 3\",counting".to_string()];
    let cards = load_flashcards(&lines).unwrap();
    assert_eq!(cards[0].question, "1, 2, 3");
    assert_eq!(cards[0].answer, "counting");
}

#[test]
fn load_error_messages() {
    assert_eq!(
        LoadError::NoUsableCards.message(),
        "deck file contains no usable cards"
    );
    assert_eq!(LoadError::IoError.message(), "deck file could not be read");
}
