use flashcards::wrap::wrap_text;

#[test]
fn empty_text_gives_no_lines() {
    let lines = wrap_text("", 550, 40);
    assert!(lines.is_empty());
}

#[test]
fn whitespace_only_gives_no_lines() {
    let lines = wrap_text("   \t  ", 550, 40);
    assert!(lines.is_empty());
}

#[test]
fn short_text_stays_on_one_line() {
    // 11 characters at 20 estimated pixels each is 220 <= 550
    let lines = wrap_text("hello world", 550, 40);
    assert_eq!(lines, vec!["hello world".to_string()]);
}

#[test]
fn greedy_packing_flushes_when_full() {
    // estimate is 20 px per character: "aa bb" measures 100, adding
    // " cc" pushes the candidate to 160 > 100, so the line flushes
    let lines = wrap_text("aa bb cc", 100, 40);
    assert_eq!(lines, vec!["aa bb".to_string(), "cc".to_string()]);
}

#[test]
fn overwide_word_gets_its_own_line() {
    let lines = wrap_text("incomprehensibilities", 100, 40);
    assert_eq!(lines, vec!["incomprehensibilities".to_string()]);
}

#[test]
fn overwide_word_between_short_ones() {
    let lines = wrap_text("a incomprehensibilities b", 100, 40);
    assert_eq!(
        lines,
        vec![
            "a".to_string(),
            "incomprehensibilities".to_string(),
            "b".to_string(),
        ]
    );
}

#[test]
fn words_are_preserved_in_order() {
    let text = "the quick brown fox jumps over the lazy dog again and again";
    for max_width in [1, 50, 100, 220, 1000] {
        for font_size in [0, 1, 13, 40] {
            let lines = wrap_text(text, max_width, font_size);
            let rejoined: Vec<&str> =
                lines.iter().flat_map(|l| l.split_whitespace()).collect();
            let original: Vec<&str> = text.split_whitespace().collect();
            assert_eq!(rejoined, original);
        }
    }
}

#[test]
fn whitespace_runs_collapse_to_single_spaces() {
    let lines = wrap_text("  a \t b \n c  ", 550, 40);
    assert_eq!(lines, vec!["a b c".to_string()]);
}

#[test]
fn zero_font_size_fits_everything() {
    // a zero estimate never exceeds a non-negative budget
    let lines = wrap_text("one two three", 0, 0);
    assert_eq!(lines, vec!["one two three".to_string()]);
}

#[test]
fn negative_budget_puts_each_word_alone() {
    let lines = wrap_text("one two", -1, 40);
    assert_eq!(lines, vec!["one".to_string(), "two".to_string()]);
}
