use weir::provider::tokenizer::{Piece, Tokenizer, Vocabulary};

const ALL: [Vocabulary; 5] = [
    Vocabulary::R50kBase,
    Vocabulary::P50kBase,
    Vocabulary::P50kEdit,
    Vocabulary::Cl100kBase,
    Vocabulary::O200kBase,
];

#[test]
fn texts_are_counted_in_tokens() {
    let tokenizer = Tokenizer::new(Vocabulary::Cl100kBase);
    assert_eq!(tokenizer.count(""), Some(0));
    assert_eq!(tokenizer.count("Hello"), Some(1));
    assert_eq!(tokenizer.count("hello world"), Some(2));
    assert_eq!(tokenizer.count("    "), Some(1));
}

#[test]
fn each_vocabulary_counts_in_its_own_way() {
    // Eight spaces and a digit, and a word of Greek.
    let counts = |text: &str| ALL.map(|vocabulary| Tokenizer::new(vocabulary).count(text).unwrap());
    assert_eq!(counts("hello world"), [2, 2, 2, 2, 2]);
    let spaces = counts("        1");
    assert!(spaces[0] > spaces[1], "r50k has no tokens for runs of spaces");
    let numbers = counts("1234567");
    assert_eq!(numbers[3..], [3, 3], "digits come three by three");
    let greek = counts("\u{3bb}\u{3cc}\u{3b3}\u{3bf}\u{3c2}");
    assert!(greek[4] < greek[0]);
}

#[test]
fn every_byte_has_a_token() {
    for vocabulary in ALL {
        let tokenizer = Tokenizer::new(vocabulary);
        for c in ('\0'..='\u{fff}').chain('\u{10fff0}'..='\u{10ffff}') {
            let tokens = tokenizer.count(&c.to_string()).unwrap();
            assert!(1 <= tokens && tokens <= c.len_utf8());
        }
    }
}

#[test]
fn long_texts_of_short_pieces_are_counted() {
    let tokenizer = Tokenizer::new(Vocabulary::Cl100kBase);
    assert_eq!(tokenizer.count(&" a".repeat(600_000)), Some(600_000));
    assert_eq!(tokenizer.count(&"1".repeat(1_200_000)), Some(400_000));
    let chinese = "\u{4f60}\u{597d}\u{ff0c}";
    let tokens = tokenizer.count(&chinese.repeat(2)).unwrap() - tokenizer.count(chinese).unwrap();
    let many = tokenizer.count(&chinese.repeat(400_000)).unwrap();
    assert!(many >= 400_000 && many <= 400_000 * (tokens + 2));
}

#[test]
fn texts_with_a_piece_that_is_too_long_are_not_counted() {
    for vocabulary in ALL {
        let tokenizer = Tokenizer::new(vocabulary);
        assert_eq!(tokenizer.count(&"a".repeat(999_001)), None);
        assert_eq!(tokenizer.count(&" ".repeat(999_001)), None);
        assert_eq!(tokenizer.count(&"!".repeat(999_001)), None);
        assert_eq!(tokenizer.count(&("a ".to_string() + &"\u{e9}".repeat(999_001))), None);
    }
    assert_eq!(Tokenizer::new(Vocabulary::P50kBase).count(&"1".repeat(999_001)), None);
    assert_eq!(Tokenizer::new(Vocabulary::O200kBase).count(&"A".repeat(499_001)), None);
}

#[test]
fn pieces_are_measured_between_what_breaks_them() {
    assert!(Piece::Word.fits("abc abc", 3));
    assert!(!Piece::Word.fits("abc abcd", 3));
    assert!(Piece::Word.fits("abc1abc!abc", 3));
    assert!(!Piece::Word.fits("\u{3bb}\u{3cc}\u{3b3}\u{3bf}", 3));
    assert!(Piece::Number.fits("123a123 123", 3));
    assert!(!Piece::Number.fits("1234", 3));
    assert!(Piece::Gap.fits("!? a...1\n\n\n", 3));
    assert!(!Piece::Gap.fits("a    b", 3));
    // A sentence of Chinese, with a comma and a full stop of its own.
    let chinese = "\u{4f60}\u{597d}\u{ff0c}\u{4e16}\u{754c}\u{3002}";
    assert!(Piece::Word.fits(chinese, 2));
    assert!(!Piece::Word.fits(chinese, 1));
    assert!(Piece::Number.fits(chinese, 0));
    assert!(Piece::Gap.fits(chinese, 1));
    assert!(!Piece::Gap.fits(chinese, 0));
    assert!(Piece::Gap.fits("", 0));
    assert!(!Piece::Gap.fits(" ", 0));
    assert!(Piece::Gap.fits("a", 0));
}
