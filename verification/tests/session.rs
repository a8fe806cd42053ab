use flashcards::cards::{load_flashcards, Flashcard};
use flashcards::errors::LoadError;
use flashcards::session::FlashcardGame;

fn three_cards() -> Vec<Flashcard> {
    vec![
        Flashcard { question: "q1".to_string(), answer: "a1".to_string() },
        Flashcard { question: "q2".to_string(), answer: "a2".to_string() },
        Flashcard { question: "q3".to_string(), answer: "a3".to_string() },
    ]
}

#[test]
fn new_session_starts_at_first_question() {
    let g = FlashcardGame::new(three_cards());
    assert_eq!(g.position(), 0);
    assert_eq!(g.total(), 3);
    assert!(!g.flipped());
    assert_eq!(g.get_current_text(), "q1");
}

#[test]
fn next_saturates_at_last_card() {
    let mut g = FlashcardGame::new(three_cards());
    for _ in 0..5 {
        g.next_card();
    }
    assert_eq!(g.position(), 2);
    assert_eq!(g.get_current_text(), "q3");
}

#[test]
fn prev_saturates_at_first_card() {
    let mut g = FlashcardGame::new(three_cards());
    g.prev_card();
    assert_eq!(g.position(), 0);
    g.next_card();
    g.prev_card();
    g.prev_card();
    assert_eq!(g.position(), 0);
}

#[test]
fn moving_resets_flip() {
    let mut g = FlashcardGame::new(three_cards());
    g.flip();
    assert!(g.flipped());
    g.next_card();
    assert!(!g.flipped());
    g.flip();
    g.prev_card();
    assert!(!g.flipped());
}

#[test]
fn flip_toggles_and_keeps_position() {
    let mut g = FlashcardGame::new(three_cards());
    g.next_card();
    g.flip();
    assert!(g.flipped());
    assert_eq!(g.position(), 1);
    assert_eq!(g.get_current_text(), "a2");
    g.flip();
    assert!(!g.flipped());
    assert_eq!(g.get_current_text(), "q2");
}

#[test]
fn boundary_next_keeps_position_but_resets_flip() {
    let mut g = FlashcardGame::new(three_cards());
    g.next_card();
    g.next_card();
    g.flip();
    g.next_card();
    // the saturating call moves nothing, yet still turns the question up
    assert_eq!(g.position(), 2);
    assert!(!g.flipped());
    assert_eq!(g.get_current_text(), "q3");
}

#[test]
fn boundary_prev_keeps_position_but_resets_flip() {
    let mut g = FlashcardGame::new(three_cards());
    g.flip();
    g.prev_card();
    assert_eq!(g.position(), 0);
    assert!(!g.flipped());
    assert_eq!(g.get_current_text(), "q1");
}

#[test]
fn reload_installs_new_cards() {
    let mut g = FlashcardGame::new(three_cards());
    g.next_card();
    g.flip();
    let new_cards = vec![Flashcard {
        question: "fresh".to_string(),
        answer: "deck".to_string(),
    }];
    assert!(g.reload(new_cards).is_ok());
    assert_eq!(g.position(), 0);
    assert!(!g.flipped());
    assert_eq!(g.total(), 1);
    assert_eq!(g.get_current_text(), "fresh");
}

#[test]
fn reload_with_empty_collection_keeps_prior_state() {
    let mut g = FlashcardGame::new(three_cards());
    g.next_card();
    g.flip();
    match g.reload(Vec::new()) {
        Err(e) => assert_eq!(e, LoadError::NoUsableCards),
        Ok(()) => panic!("expected the reload to be refused"),
    }
    assert_eq!(g.position(), 1);
    assert!(g.flipped());
    assert_eq!(g.total(), 3);
    assert_eq!(g.get_current_text(), "a2");
}

#[test]
fn loader_feeds_session() {
    let lines = vec!["q1,a1".to_string(), "skip".to_string(), "q2,a2".to_string()];
    let cards = load_flashcards(&lines).unwrap();
    let mut g = FlashcardGame::new(cards);
    assert_eq!(g.total(), 2);
    g.next_card();
    g.flip();
    assert_eq!(g.get_current_text(), "a2");
}
