use flashcards::catalog::DeckManager;
use flashcards::errors::CatalogError;

fn names(list: &[&str]) -> Vec<String> {
    list.iter().map(|s| s.to_string()).collect()
}

#[test]
fn filters_and_sorts_entries() {
    let d = DeckManager::from_entries("decks", names(&["b.csv", "a.csv", "c.txt"])).unwrap();
    assert_eq!(d.total_decks(), 2);
    assert_eq!(d.get_current_deck_path(), "decks/a.csv");
}

#[test]
fn next_wraps_from_last_to_first() {
    let mut d = DeckManager::from_entries("decks", names(&["b.csv", "a.csv"])).unwrap();
    d.next_deck();
    assert_eq!(d.get_current_deck_path(), "decks/b.csv");
    d.next_deck();
    assert_eq!(d.get_current_deck_path(), "decks/a.csv");
}

#[test]
fn prev_wraps_from_first_to_last() {
    let mut d = DeckManager::from_entries("decks", names(&["b.csv", "a.csv"])).unwrap();
    d.prev_deck();
    assert_eq!(d.get_current_deck_path(), "decks/b.csv");
    d.prev_deck();
    assert_eq!(d.get_current_deck_path(), "decks/a.csv");
}

#[test]
fn single_entry_navigation_is_a_noop() {
    let mut d = DeckManager::from_entries("decks", names(&["only.csv"])).unwrap();
    d.next_deck();
    assert_eq!(d.get_current_deck_path(), "decks/only.csv");
    d.prev_deck();
    assert_eq!(d.get_current_deck_path(), "decks/only.csv");
}

#[test]
fn no_matching_files_is_an_error() {
    match DeckManager::from_entries("decks", names(&["notes.txt", "image.png"])) {
        Err(e) => assert_eq!(e, CatalogError::NoDecksFound),
        Ok(_) => panic!("expected a catalog failure"),
    }
}

#[test]
fn empty_directory_is_an_error() {
    match DeckManager::from_entries("decks", Vec::new()) {
        Err(e) => assert_eq!(e, CatalogError::NoDecksFound),
        Ok(_) => panic!("expected a catalog failure"),
    }
}

#[test]
fn bare_extension_name_is_not_a_deck() {
    // ".csv" has no stem, so it has no extension in the file-system sense
    match DeckManager::from_entries("decks", names(&[".csv"])) {
        Err(e) => assert_eq!(e, CatalogError::NoDecksFound),
        Ok(_) => panic!("expected a catalog failure"),
    }
}

#[test]
fn extension_match_is_case_sensitive() {
    match DeckManager::from_entries("decks", names(&["a.CSV"])) {
        Err(e) => assert_eq!(e, CatalogError::NoDecksFound),
        Ok(_) => panic!("expected a catalog failure"),
    }
}

#[test]
fn display_name_strips_extension() {
    let d = DeckManager::from_entries("decks", names(&["basic_math.csv"])).unwrap();
    assert_eq!(d.get_current_deck_name(), "basic_math");
}

#[test]
fn formatted_name_capitalizes_words() {
    let d = DeckManager::from_entries("decks", names(&["basic_math.csv"])).unwrap();
    assert_eq!(d.get_formatted_deck_name(), "Basic Math");
}

#[test]
fn formatted_name_collapses_underscore_runs() {
    let d = DeckManager::from_entries("decks", names(&["world__capital_cities.csv"])).unwrap();
    assert_eq!(d.get_formatted_deck_name(), "World Capital Cities");
}

#[test]
fn deck_counter_is_one_based() {
    let mut d = DeckManager::from_entries("decks", names(&["a.csv", "b.csv", "c.csv"])).unwrap();
    assert_eq!(d.get_deck_counter(), "Deck 1 / 3");
    d.next_deck();
    assert_eq!(d.get_deck_counter(), "Deck 2 / 3");
}

#[test]
fn multiple_decks_flag() {
    let one = DeckManager::from_entries("decks", names(&["a.csv"])).unwrap();
    assert!(!one.has_multiple_decks());
    let two = DeckManager::from_entries("decks", names(&["a.csv", "b.csv"])).unwrap();
    assert!(two.has_multiple_decks());
}

#[test]
fn catalog_error_messages() {
    assert_eq!(
        CatalogError::NoDecksFound.message(),
        "no deck files found in folder"
    );
    assert_eq!(
        CatalogError::DirectoryNotFound.message(),
        "deck folder does not exist"
    );
    assert_eq!(
        CatalogError::NotADirectory.message(),
        "deck folder is not a directory"
    );
}
