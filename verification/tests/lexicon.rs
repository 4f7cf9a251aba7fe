use webgame_board::lexicon::Lexicon;

fn words(text: &str) -> Vec<String> {
    Lexicon::parse(text).words().clone()
}

#[test]
fn parse_reads_one_word_per_line() {
    assert_eq!(words("apple\nbanana\ncherry"), vec!["apple", "banana", "cherry"]);
    assert_eq!(words("apple\nbanana\ncherry\n"), vec!["apple", "banana", "cherry"]);
    assert_eq!(words("apple"), vec!["apple"]);
}

#[test]
fn parse_of_nothing_is_empty() {
    assert!(words("").is_empty());
    assert!(words("\n").is_empty());
    assert!(words(" \n\t\n\r\n   ").is_empty());
    assert_eq!(Lexicon::parse("").len(), 0);
}

#[test]
fn parse_drops_white_space_around_words() {
    assert_eq!(words("  apple \n\tbanana\t\ncherry\r\n"), vec!["apple", "banana", "cherry"]);
    assert_eq!(words("\u{3000}apple\u{a0}\n\u{2003}banana\u{85}"), vec!["apple", "banana"]);
}

#[test]
fn parse_keeps_what_is_inside_a_word() {
    assert_eq!(words(" ice cream \nnew\tyork"), vec!["ice cream", "new\tyork"]);
    // A zero width space is no white space.
    assert_eq!(words("\u{200b}\n a\u{200b} "), vec!["\u{200b}", "a\u{200b}"]);
    assert_eq!(words("\u{e9}t\u{e9}\n\u{1f600}"), vec!["\u{e9}t\u{e9}", "\u{1f600}"]);
}

#[test]
fn parse_skips_blank_lines() {
    assert_eq!(words("\n\napple\n\n   \nbanana\n\n"), vec!["apple", "banana"]);
}

#[test]
fn parse_keeps_the_first_of_repeated_words() {
    assert_eq!(words("b\na\nb\n a \nc\na"), vec!["b", "a", "c"]);
    assert_eq!(words("Apple\napple"), vec!["Apple", "apple"]);
}

#[test]
fn parse_agrees_with_lines_and_trim() {
    let text = "alpha\r\n  beta\n\ngamma  \n\tdelta\u{2028}\nalpha\n \u{1680} \nepsilon zeta\n";
    let mut expected: Vec<String> = Vec::new();
    for line in text.lines() {
        let word = line.trim();
        if !word.is_empty() && !expected.iter().any(|known| known == word) {
            expected.push(word.to_string());
        }
    }
    assert_eq!(words(text), expected);
    assert_eq!(expected.len(), 5);
}

#[test]
fn white_space_is_what_char_says() {
    for code in 0..=0x10ffff_u32 {
        if let Some(c) = char::from_u32(code) {
            let mut line = String::from("x");
            line.push(c);
            let kept = words(&line);
            if c.is_whitespace() {
                assert_eq!(kept, vec!["x"], "U+{:04X} should be dropped", code);
            } else {
                assert_eq!(kept, vec![line.clone()], "U+{:04X} should be kept", code);
            }
        }
    }
}

#[test]
fn len_counts_the_words() {
    let lexicon = Lexicon::parse("one\ntwo\nthree\ntwo\n");
    assert_eq!(lexicon.len(), 3);
    assert_eq!(lexicon.words().len(), 3);
}
