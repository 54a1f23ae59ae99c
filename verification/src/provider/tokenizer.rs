//! Counting the tokens of a text.

use tiktoken_rs::CoreBPE;
use vstd::prelude::*;

verus! {

/// `tiktoken_rs::CoreBPE`, a byte-pair tokenizer with its vocabulary.
#[verifier::external_type_specification]
#[verifier::external_body]
pub struct ExCoreBPE(tiktoken_rs::CoreBPE);

/// The vocabularies that `tiktoken_rs` carries with it.
#[derive(Clone, Copy, Debug, PartialEq, Eq, Structural)]
pub enum Vocabulary {
    R50kBase,
    P50kBase,
    P50kEdit,
    Cl100kBase,
    O200kBase,
}

/// What a tokenizer's regular expression finds in one piece: a word, a number, or
/// a gap, which is white space or marks.
#[derive(Clone, Copy, Debug, PartialEq, Eq, Structural)]
pub enum Piece {
    Word,
    Number,
    Gap,
}

/// `c` is an ASCII letter.
pub open spec fn is_letter(c: char) -> bool {
    'a' <= c <= 'z' || 'A' <= c <= 'Z'
}

/// `c` is an ASCII digit.
pub open spec fn is_digit(c: char) -> bool {
    '0' <= c <= '9'
}

/// `c` is an ASCII character.
pub open spec fn is_ascii(c: char) -> bool {
    c <= '\x7f'
}

/// `c` is a letter of another alphabet or a character of another script: of the
/// Latin, Greek, Cyrillic, Hebrew, Arabic, Devanagari, Thai, Japanese, Chinese and
/// Korean ones, those in ranges that Unicode has filled with letters.
pub open spec fn is_other_letter(c: char) -> bool {
    ||| '\u{c0}' <= c <= '\u{d6}'
    ||| '\u{d8}' <= c <= '\u{f6}'
    ||| '\u{f8}' <= c <= '\u{24f}'
    ||| '\u{391}' <= c <= '\u{3a1}'
    ||| '\u{3a3}' <= c <= '\u{3c9}'
    ||| '\u{400}' <= c <= '\u{481}'
    ||| '\u{5d0}' <= c <= '\u{5ea}'
    ||| '\u{621}' <= c <= '\u{64a}'
    ||| '\u{905}' <= c <= '\u{939}'
    ||| '\u{e01}' <= c <= '\u{e30}'
    ||| '\u{3041}' <= c <= '\u{3096}'
    ||| '\u{30a1}' <= c <= '\u{30fa}'
    ||| '\u{4e00}' <= c <= '\u{9fa5}'
    ||| '\u{ac00}' <= c <= '\u{d7a3}'
}

/// `c` is a mark or a space, in ranges that Unicode has filled with neither letters
/// nor digits nor accents.
pub open spec fn is_other_mark(c: char) -> bool {
    ||| '\u{a1}' <= c <= '\u{a9}'
    ||| c == '\u{60c}'
    ||| c == '\u{61f}'
    ||| '\u{964}' <= c <= '\u{965}'
    ||| '\u{2010}' <= c <= '\u{2027}'
    ||| '\u{3000}' <= c <= '\u{3003}'
    ||| '\u{3008}' <= c <= '\u{3011}'
    ||| '\u{ff01}' <= c <= '\u{ff0f}'
    ||| '\u{ff1a}' <= c <= '\u{ff20}'
}

impl Piece {
    /// `c` cannot stand in a piece of this kind, but for the first character of one:
    /// a word has no other ASCII characters than letters and no marks, a number no
    /// other ASCII characters than digits and no letters or marks, and a gap neither
    /// letters nor digits. Characters outside the ranges above are not judged.
    pub open spec fn is_broken_by(self, c: char) -> bool {
        match self {
            Piece::Word => (is_ascii(c) && !is_letter(c)) || is_other_mark(c),
            Piece::Number => (is_ascii(c) && !is_digit(c)) || is_other_letter(c) || is_other_mark(
                c,
            ),
            Piece::Gap => is_letter(c) || is_digit(c) || is_other_letter(c),
        }
    }

    /// Nothing from `from` up to `to` breaks a piece of this kind.
    pub open spec fn runs(self, text: Seq<char>, from: int, to: int) -> bool {
        forall|k: int| from <= k < to ==> !self.is_broken_by(#[trigger] text[k])
    }

    /// No stretch of more than `longest` characters goes on without one that breaks
    /// a piece of this kind.
    pub open spec fn stays_within(self, text: Seq<char>, longest: nat) -> bool {
        forall|from: int, to: int|
            0 <= from <= to <= text.len() && #[trigger] self.runs(text, from, to) ==> to - from
                <= longest
    }

    /// Whether `c` breaks a piece of this kind.
    fn breaks(&self, c: char) -> (breaks: bool)
        ensures
            breaks == self.is_broken_by(c),
    {
        let letter = ('a' <= c && c <= 'z') || ('A' <= c && c <= 'Z');
        let digit = '0' <= c && c <= '9';
        let ascii = c <= '\x7f';
        let other_letter = ('\u{c0}' <= c && c <= '\u{d6}')
            || ('\u{d8}' <= c && c <= '\u{f6}')
            || ('\u{f8}' <= c && c <= '\u{24f}')
            || ('\u{391}' <= c && c <= '\u{3a1}')
            || ('\u{3a3}' <= c && c <= '\u{3c9}')
            || ('\u{400}' <= c && c <= '\u{481}')
            || ('\u{5d0}' <= c && c <= '\u{5ea}')
            || ('\u{621}' <= c && c <= '\u{64a}')
            || ('\u{905}' <= c && c <= '\u{939}')
            || ('\u{e01}' <= c && c <= '\u{e30}')
            || ('\u{3041}' <= c && c <= '\u{3096}')
            || ('\u{30a1}' <= c && c <= '\u{30fa}')
            || ('\u{4e00}' <= c && c <= '\u{9fa5}')
            || ('\u{ac00}' <= c && c <= '\u{d7a3}');
        let other_mark = ('\u{a1}' <= c && c <= '\u{a9}')
            || c == '\u{60c}'
            || c == '\u{61f}'
            || ('\u{964}' <= c && c <= '\u{965}')
            || ('\u{2010}' <= c && c <= '\u{2027}')
            || ('\u{3000}' <= c && c <= '\u{3003}')
            || ('\u{3008}' <= c && c <= '\u{3011}')
            || ('\u{ff01}' <= c && c <= '\u{ff0f}')
            || ('\u{ff1a}' <= c && c <= '\u{ff20}');
        match self {
            Piece::Word => (ascii && !letter) || other_mark,
            Piece::Number => (ascii && !digit) || other_letter || other_mark,
            Piece::Gap => letter || digit || other_letter,
        }
    }

    /// Whether no stretch of a text could hold more than `longest` characters of a
    /// piece of this kind.
    pub fn fits(&self, text: &str, longest: usize) -> (fits: bool)
        ensures
            fits == self.stays_within(text@, longest as nat),
    {
        let ghost all = text@;
        let mut run: usize = 0;
        for c in rest: text.chars()
            invariant
                rest.seq() == all,
                all == text@,
                run <= longest,
                run <= rest.index(),
                self.runs(all, rest.index() - run, rest.index() as int),
                run < rest.index() ==> self.is_broken_by(all[rest.index() - run - 1]),
                forall|from: int, to: int|
                    0 <= from <= to <= rest.index() && #[trigger] self.runs(all, from, to) ==> to
                        - from <= longest,
        {
            let ghost index = rest.index() as int;
            let ghost before = run;
            if self.breaks(c) {
                run = 0;
            } else if run == longest {
                assert(self.runs(all, index - run, index + 1) && index < all.len());
                return false;
            } else {
                run = run + 1;
            }
            assert forall|from: int, to: int|
                0 <= from <= to <= index + 1 && #[trigger] self.runs(all, from, to) implies to
                - from <= longest by {
                if to == index + 1 && from <= index {
                    assert(!self.is_broken_by(all[index]));
                    if from < index - before {
                        assert(self.is_broken_by(all[index - before - 1]));
                    }
                }
            }
        }
        true
    }
}

impl Vocabulary {
    /// The longest pieces of a kind that the vocabulary's regular expression is sure
    /// to get through, where there is a limit.
    ///
    /// The expression runs on a machine that gives up on a piece that takes a million
    /// branches on its stack, or a million steps back. It takes one branch for each
    /// character of a piece, and one step back for each of a gap. The expression of
    /// `O200kBase` takes up to two steps back for each character of a word. Those of
    /// `Cl100kBase` and `O200kBase` find no more than three digits at once. A handful
    /// of either goes to the rest of the expression.
    pub open spec fn longest(self, piece: Piece) -> Option<nat> {
        match piece {
            Piece::Word => if self == Vocabulary::O200kBase {
                Some(499_000)
            } else {
                Some(999_000)
            },
            Piece::Number => if self == Vocabulary::Cl100kBase || self == Vocabulary::O200kBase {
                None
            } else {
                Some(999_000)
            },
            Piece::Gap => Some(999_000),
        }
    }

    /// The pieces of a kind in a text are sure to be short enough.
    pub open spec fn gets_through(self, text: Seq<char>, piece: Piece) -> bool {
        self.longest(piece) matches Some(longest) ==> piece.stays_within(text, longest)
    }

    /// Whether the pieces of a kind in a text are sure to be short enough.
    fn passes(&self, text: &str, piece: Piece) -> (passes: bool)
        ensures
            passes == self.gets_through(text@, piece),
    {
        let long_words: bool = *self != Vocabulary::O200kBase;
        let any_number: bool = *self == Vocabulary::Cl100kBase || *self == Vocabulary::O200kBase;
        match piece {
            Piece::Word => piece.fits(text, if long_words { 999_000 } else { 499_000 }),
            Piece::Number => any_number || piece.fits(text, 999_000),
            Piece::Gap => piece.fits(text, 999_000),
        }
    }
}

/// The vocabulary of a tokenizer that `tiktoken_rs` makes from one that it carries
/// with it; of any other tokenizer there is none.
pub uninterp spec fn vocabulary_of(tokenizer: CoreBPE) -> Option<Vocabulary>;

/// The tokens that a tokenizer makes of a text.
pub uninterp spec fn ordinary_tokens(tokenizer: CoreBPE, text: Seq<char>) -> Seq<u32>;

/// A tokenizer is sure to split a text.
pub open spec fn encodes(tokenizer: CoreBPE, text: Seq<char>) -> bool {
    match vocabulary_of(tokenizer) {
        Some(vocabulary) => {
            &&& vocabulary.gets_through(text, Piece::Word)
            &&& vocabulary.gets_through(text, Piece::Number)
            &&& vocabulary.gets_through(text, Piece::Gap)
        },
        None => false,
    }
}

/// Calls `tiktoken_rs::r50k_base`, which makes a tokenizer from that vocabulary. It
/// reads constants of its own, which are sound, and so reports no error.
#[verifier::external_body]
fn r50k_base() -> (made: Option<CoreBPE>)
    ensures
        made is Some,
        vocabulary_of(made->0) == Some(Vocabulary::R50kBase),
{
    tiktoken_rs::r50k_base().ok()
}

/// Calls `tiktoken_rs::p50k_base`, as `r50k_base` does its own.
#[verifier::external_body]
fn p50k_base() -> (made: Option<CoreBPE>)
    ensures
        made is Some,
        vocabulary_of(made->0) == Some(Vocabulary::P50kBase),
{
    tiktoken_rs::p50k_base().ok()
}

/// Calls `tiktoken_rs::p50k_edit`, as `r50k_base` does its own.
#[verifier::external_body]
fn p50k_edit() -> (made: Option<CoreBPE>)
    ensures
        made is Some,
        vocabulary_of(made->0) == Some(Vocabulary::P50kEdit),
{
    tiktoken_rs::p50k_edit().ok()
}

/// Calls `tiktoken_rs::cl100k_base`, as `r50k_base` does its own.
#[verifier::external_body]
fn cl100k_base() -> (made: Option<CoreBPE>)
    ensures
        made is Some,
        vocabulary_of(made->0) == Some(Vocabulary::Cl100kBase),
{
    tiktoken_rs::cl100k_base().ok()
}

/// Calls `tiktoken_rs::o200k_base`, as `r50k_base` does its own.
#[verifier::external_body]
fn o200k_base() -> (made: Option<CoreBPE>)
    ensures
        made is Some,
        vocabulary_of(made->0) == Some(Vocabulary::O200kBase),
{
    tiktoken_rs::o200k_base().ok()
}

/// `CoreBPE::encode_ordinary` splits a text into tokens of its vocabulary. The
/// result depends on the tokenizer and the text alone. It panics where the regular
/// expression gives up, where that finds an empty piece, or where a byte has no
/// token of its own. With the vocabularies that the crate carries every piece has a
/// character and every byte a token, and the expression does not give up where no
/// piece of a text can be too long.
pub assume_specification[ CoreBPE::encode_ordinary ](tokenizer: &CoreBPE, text: &str) -> (tokens:
    Vec<u32>)
    requires
        encodes(*tokenizer, text@),
    ensures
        tokens@ == ordinary_tokens(*tokenizer, text@),
;

/// A tokenizer with a vocabulary that has a token for every byte.
pub struct Tokenizer {
    bpe: CoreBPE,
    vocabulary: Vocabulary,
}

impl Tokenizer {
    #[verifier::type_invariant]
    spec fn well_formed(self) -> bool {
        vocabulary_of(self.bpe) == Some(self.vocabulary)
    }

    /// The tokenizer that does the work.
    pub closed spec fn bpe(self) -> CoreBPE {
        self.bpe
    }

    /// The tokenizer with a vocabulary.
    pub fn new(vocabulary: Vocabulary) -> (tokenizer: Tokenizer)
        ensures
            vocabulary_of(tokenizer.bpe()) == Some(vocabulary),
    {
        let made = match vocabulary {
            Vocabulary::R50kBase => r50k_base(),
            Vocabulary::P50kBase => p50k_base(),
            Vocabulary::P50kEdit => p50k_edit(),
            Vocabulary::Cl100kBase => cl100k_base(),
            Vocabulary::O200kBase => o200k_base(),
        };
        Tokenizer { bpe: made.unwrap(), vocabulary }
    }

    /// How many tokens a text has, unless a piece of it could be too long.
    pub fn count(&self, text: &str) -> (tokens: Option<usize>)
        ensures
            match tokens {
                Some(tokens) => {
                    &&& encodes(self.bpe(), text@)
                    &&& tokens == ordinary_tokens(self.bpe(), text@).len()
                },
                None => !encodes(self.bpe(), text@),
            },
    {
        proof {
            use_type_invariant(self);
        }
        if self.vocabulary.passes(text, Piece::Word) && self.vocabulary.passes(text, Piece::Number)
            && self.vocabulary.passes(text, Piece::Gap) {
            Some(self.bpe.encode_ordinary(text).len())
        } else {
            None
        }
    }
}

/// A text of no more characters than the longest piece that a vocabulary is sure to
/// get through is split, whatever is in it.
pub proof fn short_texts_are_encoded(tokenizer: CoreBPE, text: Seq<char>)
    requires
        vocabulary_of(tokenizer) is Some,
        text.len() <= 499_000,
    ensures
        encodes(tokenizer, text),
{
}

/// Any text of no more than 999,000 characters is split with any vocabulary but the
/// one whose words are held shorter.
pub proof fn texts_of_one_piece_are_encoded(tokenizer: CoreBPE, text: Seq<char>)
    requires
        vocabulary_of(tokenizer) matches Some(vocabulary) && vocabulary != Vocabulary::O200kBase,
        text.len() <= 999_000,
    ensures
        encodes(tokenizer, text),
{
}

/// Prose of any length is split, with any vocabulary: a text in which no 499,000
/// characters in a row are without a space, or without a letter.
pub proof fn prose_is_encoded(tokenizer: CoreBPE, text: Seq<char>)
    requires
        vocabulary_of(tokenizer) is Some,
        forall|from: int|
            0 <= from && from + 499_000 <= text.len() ==> #[trigger] has_space(
                text,
                from,
                from + 499_000,
            ),
        forall|from: int|
            0 <= from && from + 499_000 <= text.len() ==> #[trigger] has_letter(
                text,
                from,
                from + 499_000,
            ),
    ensures
        encodes(tokenizer, text),
{
    assert forall|piece: Piece, from: int, to: int|
        0 <= from <= to <= text.len() && #[trigger] piece.runs(text, from, to) implies to - from
        <= 499_000 by {
        if to - from > 499_000 {
            assert(has_space(text, from, from + 499_000));
            assert(has_letter(text, from, from + 499_000));
            let space = choose|k: int| from <= k < from + 499_000 && #[trigger] text[k] == ' ';
            let letter = choose|k: int|
                from <= k < from + 499_000 && ('a' <= #[trigger] text[k] <= 'z' || 'A' <= text[k]
                    <= 'Z');
            assert(!piece.is_broken_by(text[space]));
            assert(!piece.is_broken_by(text[letter]));
        }
    }
    assert forall|piece: Piece| #[trigger] piece.stays_within(text, 499_000) by {}
    assert(Piece::Word.stays_within(text, 499_000));
    assert(Piece::Number.stays_within(text, 499_000));
    assert(Piece::Gap.stays_within(text, 499_000));
}

/// There is a space among the characters from `from` up to `to`.
pub open spec fn has_space(text: Seq<char>, from: int, to: int) -> bool {
    exists|k: int| from <= k < to && #[trigger] text[k] == ' '
}

/// There is an ASCII letter among the characters from `from` up to `to`.
pub open spec fn has_letter(text: Seq<char>, from: int, to: int) -> bool {
    exists|k: int|
        from <= k < to && ('a' <= #[trigger] text[k] <= 'z' || 'A' <= text[k] <= 'Z')
}

/// A text is not split that has more than 999,000 letters in a row, or more than
/// 999,000 spaces; nor, with a vocabulary that takes numbers whole, so many digits.
pub proof fn endless_pieces_are_not_encoded(
    tokenizer: CoreBPE,
    text: Seq<char>,
    from: int,
    to: int,
)
    requires
        0 <= from <= to <= text.len(),
        to - from > 999_000,
    ensures
        (forall|k: int| from <= k < to ==> 'a' <= #[trigger] text[k] <= 'z') ==> !encodes(
            tokenizer,
            text,
        ),
        (forall|k: int| from <= k < to ==> #[trigger] text[k] == ' ') ==> !encodes(tokenizer, text),
        vocabulary_of(tokenizer) == Some(Vocabulary::P50kBase) && (forall|k: int|
            from <= k < to ==> '0' <= #[trigger] text[k] <= '9') ==> !encodes(tokenizer, text),
{
    if forall|k: int| from <= k < to ==> 'a' <= #[trigger] text[k] <= 'z' {
        assert(Piece::Word.runs(text, from, to));
    }
    if forall|k: int| from <= k < to ==> #[trigger] text[k] == ' ' {
        assert(Piece::Gap.runs(text, from, to));
    }
    if forall|k: int| from <= k < to ==> '0' <= #[trigger] text[k] <= '9' {
        assert(Piece::Number.runs(text, from, to));
    }
}

/// Of the ASCII characters a letter breaks numbers and gaps, a digit words and gaps,
/// and any other words and numbers; none breaks a piece of its own kind.
pub proof fn ascii_characters_break_the_other_pieces(c: char)
    requires
        c <= '\x7f',
    ensures
        ({
            let letter = 'a' <= c <= 'z' || 'A' <= c <= 'Z';
            let digit = '0' <= c <= '9';
            &&& Piece::Word.is_broken_by(c) == !letter
            &&& Piece::Number.is_broken_by(c) == !digit
            &&& Piece::Gap.is_broken_by(c) == (letter || digit)
        }),
{
}

} // verus!
