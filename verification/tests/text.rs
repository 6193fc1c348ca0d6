use minesweep::text::align_strings_to_char;

#[test]
fn aligns_on_the_separator() {
    let lines = align_strings_to_char(&["a: x", "bb: yy"], ':');
    assert_eq!(lines, vec![" a: x ".to_string(), "bb: yy".to_string()]);
}

#[test]
fn single_string_is_unchanged() {
    let lines = align_strings_to_char(&["quit: q"], ':');
    assert_eq!(lines, vec!["quit: q".to_string()]);
}

#[test]
fn aligns_help_text() {
    let lines = align_strings_to_char(
        &["movement: hjkl", "expose tile: spacebar", "flag tile: f", "quit: q"],
        ':',
    );
    assert_eq!(
        lines,
        vec![
            "   movement: hjkl    ".to_string(),
            "expose tile: spacebar".to_string(),
            "  flag tile: f       ".to_string(),
            "       quit: q       ".to_string(),
        ]
    );
    // Every line has the separator in the same column.
    for line in &lines {
        assert_eq!(line.find(':'), Some(11));
    }
}

#[test]
fn splits_at_the_first_occurrence() {
    let lines = align_strings_to_char(&["a:b:c", "xy:z"], ':');
    assert_eq!(lines, vec![" a:b:c".to_string(), "xy:z  ".to_string()]);
}
