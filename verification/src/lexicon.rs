//! The list of candidate codewords.

use vstd::prelude::*;
use vstd::std_specs::iter::IteratorSpec;

verus! {

/// Whether `c` is white space: a character that Unicode marks as
/// `White_Space`.
pub open spec fn is_space(c: char) -> bool {
    ||| '\u{9}' <= c <= '\u{D}'
    ||| c == ' '
    ||| c == '\u{85}'
    ||| c == '\u{A0}'
    ||| c == '\u{1680}'
    ||| '\u{2000}' <= c <= '\u{200A}'
    ||| c == '\u{2028}'
    ||| c == '\u{2029}'
    ||| c == '\u{202F}'
    ||| c == '\u{205F}'
    ||| c == '\u{3000}'
}

/// `line` without the white space at its two ends.
pub open spec fn trim(line: Seq<char>) -> Seq<char>
    decreases line.len(),
{
    if line.len() > 0 && is_space(line.first()) {
        trim(line.drop_first())
    } else if line.len() > 0 && is_space(line.last()) {
        trim(line.drop_last())
    } else {
        line
    }
}

/// The lines of `text`: what stands before, between and after its line
/// feeds. A text without a line feed is one line.
pub open spec fn lines_of(text: Seq<char>) -> Seq<Seq<char>>
    decreases text.len(),
{
    if text.len() == 0 {
        seq![Seq::empty()]
    } else {
        let before = lines_of(text.drop_last());
        if text.last() == '\n' {
            before.push(Seq::empty())
        } else {
            before.drop_last().push(before.last().push(text.last()))
        }
    }
}

/// `words` with the word of `line` added: `line` without the white space at
/// its ends, unless that is empty or among `words` already.
pub open spec fn with_line(words: Seq<Seq<char>>, line: Seq<char>) -> Seq<Seq<char>> {
    let word = trim(line);
    if word.len() == 0 || words.contains(word) {
        words
    } else {
        words.push(word)
    }
}

/// The words of `lines`: each line without the white space at its ends, but
/// for the lines that are blank and for the words that an earlier line gave.
pub open spec fn words_of_lines(lines: Seq<Seq<char>>) -> Seq<Seq<char>>
    decreases lines.len(),
{
    if lines.len() == 0 {
        Seq::empty()
    } else {
        with_line(words_of_lines(lines.drop_last()), lines.last())
    }
}

/// The words that `text` lists, one to a line.
pub open spec fn words_of_text(text: Seq<char>) -> Seq<Seq<char>> {
    words_of_lines(lines_of(text))
}

/// Whether `word` can stand in a lexicon: it is not empty and has no white
/// space at either end.
pub open spec fn is_word(word: Seq<char>) -> bool {
    word.len() > 0 && !is_space(word.first()) && !is_space(word.last())
}

/// Whether `words` can be the content of a lexicon: each entry is a word and
/// no word occurs twice.
pub open spec fn is_word_list(words: Seq<Seq<char>>) -> bool {
    &&& words.no_duplicates()
    &&& forall|i: int| 0 <= i < words.len() ==> is_word(#[trigger] words[i])
}

/// `String::push` appends one character to the string.
pub assume_specification[ String::push ](s: &mut String, ch: char)
    ensures
        final(s)@ == old(s)@.push(ch),
;

/// Whether `c` is white space.
fn is_space_char(c: char) -> (space: bool)
    ensures
        space == is_space(c),
{
    ('\u{9}' <= c && c <= '\u{D}') || c == ' ' || c == '\u{85}' || c == '\u{A0}' || c
        == '\u{1680}' || ('\u{2000}' <= c && c <= '\u{200A}') || c == '\u{2028}' || c
        == '\u{2029}' || c == '\u{202F}' || c == '\u{205F}' || c == '\u{3000}'
}

/// A line that is white space from its start up to `from` and from `to` on,
/// and is not at `from` nor just before `to`, is trimmed to what stands
/// between the two.
proof fn lemma_trim_between(line: Seq<char>, from: int, to: int)
    requires
        0 <= from < to <= line.len(),
        forall|i: int| 0 <= i < from ==> is_space(line[i]),
        forall|i: int| to <= i < line.len() ==> is_space(line[i]),
        !is_space(line[from]),
        !is_space(line[to - 1]),
    ensures
        trim(line) == line.subrange(from, to),
    decreases line.len(),
{
    if from > 0 {
        lemma_trim_between(line.drop_first(), from - 1, to - 1);
    } else if to < line.len() {
        lemma_trim_between(line.drop_last(), from, to);
    }
}

/// A line of white space alone is trimmed to nothing.
proof fn lemma_trim_blank(line: Seq<char>)
    requires
        forall|i: int| 0 <= i < line.len() ==> is_space(line[i]),
    ensures
        trim(line).len() == 0,
    decreases line.len(),
{
    if line.len() > 0 {
        lemma_trim_blank(line.drop_first());
    }
}

/// `line` without the white space at its two ends.
fn trimmed(line: &Vec<char>) -> (word: String)
    ensures
        word@ == trim(line@),
        word@.len() == 0 || is_word(word@),
{
    let mut from: usize = 0;
    while from < line.len() && is_space_char(line[from])
        invariant
            from <= line.len(),
            forall|i: int| 0 <= i < from ==> is_space(line@[i]),
        decreases line.len() - from,
    {
        from += 1;
    }
    let mut word = String::new();
    if from == line.len() {
        proof {
            lemma_trim_blank(line@);
        }
        return word;
    }
    let mut to: usize = line.len();
    while is_space_char(line[to - 1])
        invariant
            from < to <= line.len(),
            !is_space(line@[from as int]),
            forall|i: int| to <= i < line.len() ==> is_space(line@[i]),
        decreases to,
    {
        to -= 1;
    }
    proof {
        lemma_trim_between(line@, from as int, to as int);
    }
    let mut i: usize = from;
    while i < to
        invariant
            from <= i <= to <= line.len(),
            word@ == line@.subrange(from as int, i as int),
        decreases to - i,
    {
        word.push(line[i]);
        i += 1;
        assert(line@.subrange(from as int, i as int) == line@.subrange(from as int, i - 1).push(
            line@[i - 1],
        ));
    }
    word
}

/// Whether `word` is among `words`.
fn contains_word(words: &Vec<String>, word: &String) -> (found: bool)
    ensures
        found == words.deep_view().contains(word@),
{
    let mut i: usize = 0;
    while i < words.len()
        invariant
            i <= words.len(),
            forall|k: int| 0 <= k < i ==> words.deep_view()[k] != word@,
        decreases words.len() - i,
    {
        if words[i] == *word {
            assert(words.deep_view()[i as int] == word@);
            return true;
        }
        i += 1;
    }
    false
}

/// Adds the word of `line` to `words`, unless the line is blank or an earlier
/// line gave the same word.
fn add_line(words: &mut Vec<String>, line: &Vec<char>)
    requires
        is_word_list(old(words).deep_view()),
    ensures
        final(words).deep_view() == with_line(old(words).deep_view(), line@),
        is_word_list(final(words).deep_view()),
{
    let word = trimmed(line);
    if word.as_str().is_empty() || contains_word(words, &word) {
        return ;
    }
    words.push(word);
}

/// The candidate codewords of a game, fixed once they are loaded.
pub struct Lexicon {
    words: Vec<String>,
}

impl View for Lexicon {
    type V = Seq<Seq<char>>;

    closed spec fn view(&self) -> Seq<Seq<char>> {
        self.words.deep_view()
    }
}

impl Lexicon {
    #[verifier::type_invariant]
    spec fn well_formed(&self) -> bool {
        is_word_list(self@)
    }

    /// Reads a word list: one word to a line, white space around a word and
    /// blank lines ignored, a word that is listed again ignored.
    pub fn parse(text: &str) -> (lexicon: Lexicon)
        ensures
            lexicon@ == words_of_text(text@),
            is_word_list(lexicon@),
    {
        let mut words: Vec<String> = Vec::new();
        let mut line: Vec<char> = Vec::new();
        let mut rest = text.chars();
        let ghost mut read: Seq<char> = Seq::empty();
        loop
            invariant
                rest.obeys_prophetic_iter_laws(),
                rest.decrease() is Some,
                read + rest.remaining() == text@,
                lines_of(read).len() > 0,
                words.deep_view() == words_of_lines(lines_of(read).drop_last()),
                line@ == lines_of(read).last(),
                is_word_list(words.deep_view()),
            ensures
                read == text@,
                lines_of(read).len() > 0,
                words.deep_view() == words_of_lines(lines_of(read).drop_last()),
                line@ == lines_of(read).last(),
                is_word_list(words.deep_view()),
            decreases rest.decrease()->0,
        {
            let ghost lines = lines_of(read);
            match rest.next() {
                Some(c) => {
                    proof {
                        assert(read.push(c).drop_last() == read);
                        read = read.push(c);
                    }
                    if c == '\n' {
                        add_line(&mut words, &line);
                        line = Vec::new();
                        assert(lines.push(Seq::empty()).drop_last() == lines);
                    } else {
                        line.push(c);
                        assert(lines.drop_last().push(lines.last().push(c)).drop_last()
                            == lines.drop_last());
                    }
                },
                None => {
                    break ;
                },
            }
        }
        add_line(&mut words, &line);
        proof {
            let lines = lines_of(read);
            assert(lines == lines.drop_last().push(lines.last()));
        }
        Lexicon { words }
    }

    /// The words, in the order in which they were loaded.
    pub fn words(&self) -> (words: &Vec<String>)
        ensures
            words.deep_view() == self@,
            is_word_list(self@),
    {
        proof {
            use_type_invariant(self);
        }
        &self.words
    }

    /// How many words the lexicon holds.
    pub fn len(&self) -> (n: usize)
        ensures
            n == self@.len(),
    {
        self.words.len()
    }
}

} // verus!
