//! Text to tokens and back.
//!
//! A run of letters and apostrophes is one word token (`thou'lt` stays
//! whole), every other visible character is a token of its own, and so is
//! the line break. Other white space only separates.

use crate::strings;
use vstd::prelude::*;
use vstd::string::*;

verus! {

/// The characters that words are made of.
pub open spec fn is_word_char(c: char) -> bool {
    strings::alphabetic(c) || c == '\''
}

/// The characters that stand as tokens of their own.
pub open spec fn is_mark(c: char) -> bool {
    !is_word_char(c) && (c == '\n' || !strings::white_space(c))
}

/// The number of word characters that a text starts with.
pub open spec fn word_run(text: Seq<char>) -> nat
    decreases text.len(),
{
    if text.len() == 0 || !is_word_char(text[0]) {
        0
    } else {
        1 + word_run(text.skip(1))
    }
}

/// The tokens of a text.
pub open spec fn tokens_of(text: Seq<char>) -> Seq<Seq<char>>
    decreases text.len(),
{
    if text.len() == 0 {
        seq![]
    } else if is_word_char(text[0]) {
        let n = word_run(text) as int;
        if 0 < n <= text.len() {
            seq![text.take(n)] + tokens_of(text.skip(n))
        } else {
            seq![]
        }
    } else if is_mark(text[0]) {
        seq![seq![text[0]]] + tokens_of(text.skip(1))
    } else {
        tokens_of(text.skip(1))
    }
}

/// Whether all characters of a text are word characters.
pub open spec fn all_word_chars(text: Seq<char>) -> bool {
    forall|i: int| 0 <= i < text.len() ==> is_word_char(#[trigger] text[i])
}

/// A run is a prefix of word characters that no longer one contains.
pub proof fn lemma_word_run(text: Seq<char>)
    ensures
        word_run(text) <= text.len(),
        all_word_chars(text.take(word_run(text) as int)),
        word_run(text) < text.len() ==> !is_word_char(text[word_run(text) as int]),
        text.len() > 0 && is_word_char(text[0]) ==> word_run(text) > 0,
    decreases text.len(),
{
    if text.len() > 0 && is_word_char(text[0]) {
        let rest = text.skip(1);
        lemma_word_run(rest);
        let run = text.take(word_run(text) as int);
        assert forall|i: int| 0 <= i < run.len() implies is_word_char(#[trigger] run[i]) by {
            if i > 0 {
                assert(run[i] == rest.take(word_run(rest) as int)[i - 1]);
            }
        }
    }
}

/// The run of a word that the rest of the text does not continue is the word.
pub proof fn lemma_word_run_of_word(word: Seq<char>, rest: Seq<char>)
    requires
        all_word_chars(word),
        rest.len() > 0 ==> !is_word_char(rest[0]),
    ensures
        word_run(word + rest) == word.len(),
    decreases word.len(),
{
    if word.len() == 0 {
        assert(word + rest =~= rest);
    } else {
        assert(is_word_char(word[0]));
        assert((word + rest)[0] == word[0]);
        assert((word + rest).skip(1) =~= word.skip(1) + rest);
        assert(all_word_chars(word.skip(1)));
        lemma_word_run_of_word(word.skip(1), rest);
    }
}

/// A word that the rest of the text does not continue is the first token.
pub proof fn lemma_tokens_of_word(word: Seq<char>, rest: Seq<char>)
    requires
        word.len() > 0,
        all_word_chars(word),
        rest.len() > 0 ==> !is_word_char(rest[0]),
    ensures
        tokens_of(word + rest) == seq![word] + tokens_of(rest),
{
    lemma_word_run_of_word(word, rest);
    assert(is_word_char(word[0]));
    assert((word + rest)[0] == word[0]);
    assert((word + rest).take(word.len() as int) =~= word);
    assert((word + rest).skip(word.len() as int) =~= rest);
}

/// Splits a text into its tokens.
pub fn tokenize(text: &str) -> (tokens: Vec<String>)
    ensures
        strings::texts(tokens@) == tokens_of(text@),
{
    let mut tokens: Vec<String> = Vec::new();
    let mut word = String::new();
    assert(strings::texts(tokens@) + tokens_of(word@ + text@.skip(0)) =~= tokens_of(text@)) by {
        assert(word@ + text@.skip(0) =~= text@);
    }
    for c in it: text.chars()
        invariant
            it.seq() == text@,
            all_word_chars(word@),
            strings::texts(tokens@) + tokens_of(word@ + text@.skip(it.index() as int)) == tokens_of(text@),
    {
        let ghost rest = text@.skip(it.index() as int);
        let ghost next = text@.skip(it.index() + 1);
        assert(rest[0] == c);
        assert(rest.skip(1) =~= next);
        if c.is_alphabetic() || c == '\'' {
            assert(word@ + rest =~= word@.push(c) + next);
            word.push(c);
        } else {
            let ghost before = strings::texts(tokens@);
            if word.as_str().is_empty() {
                assert(word@ + rest =~= rest);
            } else {
                proof {
                    lemma_tokens_of_word(word@, rest);
                }
                let ghost done = word@;
                tokens.push(word);
                word = String::new();
                assert(strings::texts(tokens@) =~= before.push(done));
                assert(strings::texts(tokens@) + tokens_of(rest) =~= before + tokens_of(done + rest));
            }
            let ghost flushed = strings::texts(tokens@);
            assert(word@ + next =~= next);
            if c == '\n' || !c.is_whitespace() {
                tokens.push(strings::string_of(c));
                assert(strings::texts(tokens@) =~= flushed.push(seq![c]));
                assert(strings::texts(tokens@) + tokens_of(next) =~= flushed + tokens_of(rest));
            }
        }
    }
    assert(text@.skip(text@.len() as int) =~= Seq::<char>::empty());
    assert(word@ + Seq::<char>::empty() =~= word@);
    if !word.as_str().is_empty() {
        let ghost before = strings::texts(tokens@);
        let ghost done = word@;
        proof {
            lemma_tokens_of_word(done, Seq::<char>::empty());
        }
        tokens.push(word);
        assert(strings::texts(tokens@) =~= before.push(done));
        assert(strings::texts(tokens@) =~= before + tokens_of(done));
    }
    tokens
}

/// The marks that follow the token before them without a space.
pub open spec fn attaches(tok: Seq<char>) -> bool {
    tok.len() == 1 && (tok[0] == ',' || tok[0] == '.' || tok[0] == '!' || tok[0] == '?' || tok[0]
        == ';' || tok[0] == ':' || tok[0] == '\'' || tok[0] == ')' || tok[0] == ']' || tok[0] == '}'
        || tok[0] == '-')
}

/// The marks that the token after them follows without a space.
pub open spec fn opens(tok: Seq<char>) -> bool {
    tok.len() == 1 && (tok[0] == '(' || tok[0] == '[' || tok[0] == '{' || tok[0] == '`')
}

/// The line break token.
pub open spec fn is_line_break(tok: Seq<char>) -> bool {
    tok.len() == 1 && tok[0] == '\n'
}

/// Whether a space stands between a token and the one before it.
pub open spec fn spaced(prev: Option<Seq<char>>, tok: Seq<char>) -> bool {
    match prev {
        None => false,
        Some(p) => !is_line_break(p) && !opens(p) && !attaches(tok) && !is_line_break(tok),
    }
}

/// The text that a token adds after the one before it.
pub open spec fn written(prev: Option<Seq<char>>, tok: Seq<char>) -> Seq<char> {
    if spaced(prev, tok) {
        seq![' '] + tok
    } else {
        tok
    }
}

/// The last token of a list.
pub open spec fn last_of(tokens: Seq<Seq<char>>) -> Option<Seq<char>> {
    if tokens.len() == 0 {
        None
    } else {
        Some(tokens.last())
    }
}

/// The readable text of a list of tokens.
pub open spec fn text_of(tokens: Seq<Seq<char>>) -> Seq<char>
    decreases tokens.len(),
{
    if tokens.len() == 0 {
        seq![]
    } else {
        text_of(tokens.drop_last()) + written(last_of(tokens.drop_last()), tokens.last())
    }
}

/// Whether a token hugs the one before it, with no space in between.
pub fn attaches_to_previous(tok: &str) -> (r: bool)
    ensures
        r == attaches(tok@),
{
    match strings::only_char(tok) {
        Some(c) => c == ',' || c == '.' || c == '!' || c == '?' || c == ';' || c == ':' || c == '\''
            || c == ')' || c == ']' || c == '}' || c == '-',
        None => false,
    }
}

/// Writes a list of tokens as readable text.
pub fn detokenize(tokens: &[String]) -> (text: String)
    ensures
        text@ == text_of(strings::texts(tokens@)),
{
    let mut out = String::new();
    // Whether the token before, if there is one, lets a space follow it.
    let mut space_after_previous: bool = false;
    let ghost all = strings::texts(tokens@);
    let mut i: usize = 0;
    assert(all.take(0) =~= Seq::<Seq<char>>::empty());
    while i < tokens.len()
        invariant
            i <= tokens@.len(),
            all == strings::texts(tokens@),
            out@ == text_of(all.take(i as int)),
            space_after_previous <==> (i > 0 && !is_line_break(all[i - 1]) && !opens(all[i - 1])),
        decreases tokens@.len() - i,
    {
        let tok = tokens[i].as_str();
        assert(tok@ == all[i as int]);
        assert(all.take(i + 1).drop_last() =~= all.take(i as int));
        assert(all.take(i + 1).last() == tok@);
        let sole = strings::only_char(tok);
        let breaks = match sole {
            Some(c) => c == '\n',
            None => false,
        };
        let opening = match sole {
            Some(c) => c == '(' || c == '[' || c == '{' || c == '`',
            None => false,
        };
        assert(breaks == is_line_break(tok@));
        assert(opening == opens(tok@));
        if space_after_previous && !breaks && !attaches_to_previous(tok) {
            out.push(' ');
        }
        let ghost lead = out@;
        out.append(tok);
        assert(out@ =~= text_of(all.take(i as int)) + written(last_of(all.take(i as int)), tok@));
        space_after_previous = !breaks && !opening;
        i += 1;
    }
    assert(all.take(tokens@.len() as int) =~= all);
    out
}

/// Whether a token is a word: word characters and nothing else.
pub open spec fn is_word(tok: Seq<char>) -> bool {
    tok.len() > 0 && all_word_chars(tok)
}

/// Whether a list is a list of tokens: words and single marks.
pub open spec fn are_tokens(tokens: Seq<Seq<char>>) -> bool {
    forall|i: int|
        0 <= i < tokens.len() ==> is_word(#[trigger] tokens[i]) || (tokens[i].len() == 1
            && is_mark(tokens[i][0]))
}

/// The characters of a text that belong to tokens: all but the white space
/// that only separates.
pub open spec fn visible(text: Seq<char>) -> Seq<char> {
    text.filter(|c: char| is_word_char(c) || is_mark(c))
}

/// The characters of a list of tokens, one token after the other.
pub open spec fn joined(tokens: Seq<Seq<char>>) -> Seq<char>
    decreases tokens.len(),
{
    if tokens.len() == 0 {
        seq![]
    } else {
        tokens[0] + joined(tokens.skip(1))
    }
}

/// Every token is a word, which holds word characters alone, or a single
/// mark; none is empty.
pub proof fn law_tokens_are_words_and_marks(text: Seq<char>)
    ensures
        are_tokens(tokens_of(text)),
    decreases text.len(),
{
    if text.len() > 0 {
        if is_word_char(text[0]) {
            let n = word_run(text) as int;
            lemma_word_run(text);
            let rest = tokens_of(text.skip(n));
            law_tokens_are_words_and_marks(text.skip(n));
            let all = seq![text.take(n)] + rest;
            assert forall|i: int| 0 <= i < all.len() implies is_word(#[trigger] all[i]) || (
            all[i].len() == 1 && is_mark(all[i][0])) by {
                if i > 0 {
                    assert(all[i] == rest[i - 1]);
                }
            }
        } else {
            let rest = tokens_of(text.skip(1));
            law_tokens_are_words_and_marks(text.skip(1));
            let all = seq![seq![text[0]]] + rest;
            assert forall|i: int| 0 < i < all.len() implies is_word(#[trigger] all[i]) || (
            all[i].len() == 1 && is_mark(all[i][0])) by {
                assert(all[i] == rest[i - 1]);
            }
        }
    }
}

/// What is visible of two texts in a row.
proof fn lemma_visible_add(a: Seq<char>, b: Seq<char>)
    ensures
        visible(a + b) == visible(a) + visible(b),
    decreases b.len(),
{
    reveal(Seq::filter);
    if b.len() == 0 {
        assert(a + b =~= a);
        assert(visible(a) + visible(b) =~= visible(a));
    } else {
        lemma_visible_add(a, b.drop_last());
        assert((a + b).drop_last() =~= a + b.drop_last());
        assert((a + b).last() == b.last());
        assert(visible(a + b) =~= visible(a) + visible(b));
    }
}

/// All of a word is visible.
proof fn lemma_visible_word(word: Seq<char>)
    requires
        all_word_chars(word),
    ensures
        visible(word) == word,
    decreases word.len(),
{
    reveal(Seq::filter);
    if word.len() > 0 {
        assert(is_word_char(word[word.len() - 1]));
        assert(all_word_chars(word.drop_last())) by {
            assert forall|i: int| 0 <= i < word.drop_last().len() implies is_word_char(
                #[trigger] word.drop_last()[i],
            ) by {
                assert(word.drop_last()[i] == word[i]);
            }
        }
        lemma_visible_word(word.drop_last());
        assert(word =~= word.drop_last().push(word.last()));
    } else {
        assert(visible(word) =~= word);
    }
}

/// What is visible of a single character.
proof fn lemma_visible_char(c: char)
    ensures
        visible(seq![c]) == (if is_word_char(c) || is_mark(c) {
            seq![c]
        } else {
            seq![]
        }),
{
    reveal(Seq::filter);
    let one = seq![c];
    assert(one.drop_last() =~= Seq::<char>::empty());
    assert(one.drop_last().filter(|c: char| is_word_char(c) || is_mark(c)) =~= Seq::<char>::empty());
    assert(Seq::<char>::empty().push(c) =~= one);
}

/// Tokenizing loses nothing but the white space between tokens: the tokens,
/// one after the other, are the visible characters of the text in order.
pub proof fn law_tokens_hold_all_that_is_visible(text: Seq<char>)
    ensures
        joined(tokens_of(text)) == visible(text),
    decreases text.len(),
{
    if text.len() == 0 {
        reveal(Seq::filter);
        assert(joined(tokens_of(text)) =~= visible(text));
    } else if is_word_char(text[0]) {
        lemma_word_run(text);
        let head = text.take(word_run(text) as int);
        let rest = text.skip(word_run(text) as int);
        law_tokens_hold_all_that_is_visible(rest);
        lemma_visible_add(head, rest);
        assert(head + rest =~= text);
        lemma_visible_word(head);
        assert(tokens_of(text).skip(1) =~= tokens_of(rest));
    } else {
        let head = seq![text[0]];
        let rest = text.skip(1);
        law_tokens_hold_all_that_is_visible(rest);
        lemma_visible_add(head, rest);
        assert(head + rest =~= text);
        lemma_visible_char(text[0]);
        if is_mark(text[0]) {
            assert(tokens_of(text).skip(1) =~= tokens_of(rest));
        } else {
            assert(Seq::<char>::empty() + visible(rest) =~= visible(rest));
        }
    }
}

/// Whether an apostrophe on its own directly follows a word.
pub open spec fn apostrophe_follows_word(tokens: Seq<Seq<char>>) -> bool {
    exists|i: int|
        0 <= i < tokens.len() - 1 && is_word(tokens[i]) && #[trigger] tokens[i + 1] == seq!['\'']
}

/// The readable text of a list of tokens is that of the first `n` and what
/// the others add; it starts with what the first adds.
proof fn lemma_tokens_of_rest(tokens: Seq<Seq<char>>, prev: Option<Seq<char>>, n: nat)
    requires
        are_tokens(tokens),
        n <= tokens.len(),
        !apostrophe_follows_word(tokens),
        n == 0 || prev == Some(tokens[n - 1]),
        n == 0 ==> prev is None,
    ensures
        tokens_of(tail_text(tokens, n)) == tokens.skip(n as int),
        n > 0 && is_word(tokens[n - 1]) && tail_text(tokens, n).len() > 0 ==> !is_word_char(
            tail_text(tokens, n)[0],
        ),
    decreases tokens.len() - n,
{
    let rest = tail_text(tokens, n);
    if n == tokens.len() {
        assert(tokens.skip(n as int) =~= Seq::<Seq<char>>::empty());
    } else {
        let tok = tokens[n as int];
        lemma_tokens_of_rest(tokens, Some(tok), n + 1);
        let after = tail_text(tokens, n + 1);
        assert(tokens.skip(n as int) =~= seq![tok] + tokens.skip(n as int + 1));
        assert(tokens_of(tok + after) == seq![tok] + tokens_of(after)) by {
            if is_word(tok) {
                lemma_tokens_of_word(tok, after);
            } else {
                assert((tok + after)[0] == tok[0]);
                assert((tok + after).skip(1) =~= after);
                assert(tok =~= seq![tok[0]]);
            }
        }
        if spaced(prev, tok) {
            assert(rest =~= seq![' '] + (tok + after));
            assert(rest[0] == ' ');
            assert(rest.skip(1) =~= tok + after);
        } else {
            assert(rest =~= tok + after);
            assert(rest[0] == tok[0]);
            if n > 0 && is_word(tokens[n - 1]) {
                // Only a mark hugs a word from behind: a word would be
                // spaced, unless it is the apostrophe.
                let p = tokens[n - 1];
                assert(is_word_char(p[0]));
                if is_word(tok) {
                    assert(is_word_char(tok[0]));
                    assert(attaches(tok));
                    assert(tok =~= seq!['\'']);
                    assert(tokens[(n - 1) + 1] == seq!['\'']);
                }
            }
        }
    }
}

/// What the tokens from the `n`th on add to the readable text.
pub open spec fn tail_text(tokens: Seq<Seq<char>>, n: nat) -> Seq<char>
    decreases tokens.len() - n,
{
    if n >= tokens.len() {
        seq![]
    } else {
        written(
            if n == 0 {
                None
            } else {
                Some(tokens[n - 1])
            },
            tokens[n as int],
        ) + tail_text(tokens, n + 1)
    }
}

/// The readable text up to a token and what the others add make up the whole.
proof fn lemma_tail_text(tokens: Seq<Seq<char>>, n: nat)
    requires
        n <= tokens.len(),
    ensures
        text_of(tokens) == text_of(tokens.take(n as int)) + tail_text(tokens, n),
    decreases tokens.len() - n,
{
    if n == tokens.len() {
        assert(tokens.take(n as int) =~= tokens);
        assert(text_of(tokens) + Seq::<char>::empty() =~= text_of(tokens));
    } else {
        lemma_tail_text(tokens, n + 1);
        let longer = tokens.take(n as int + 1);
        assert(longer.drop_last() =~= tokens.take(n as int));
        assert(longer.last() == tokens[n as int]);
        let head = text_of(tokens.take(n as int));
        let here = written(
            if n == 0 {
                None
            } else {
                Some(tokens[n - 1])
            },
            tokens[n as int],
        );
        assert(text_of(longer) == head + here);
        assert((head + here) + tail_text(tokens, n + 1) =~= head + (here + tail_text(
            tokens,
            n + 1,
        )));
    }
}

/// Reading back what was written: tokenizing the readable text of a list of
/// tokens gives the tokens again. The exception is an apostrophe on its own
/// behind a word, which the text joins to the word.
pub proof fn law_readable_text_reads_back(tokens: Seq<Seq<char>>)
    requires
        are_tokens(tokens),
        !apostrophe_follows_word(tokens),
    ensures
        tokens_of(text_of(tokens)) == tokens,
{
    lemma_tail_text(tokens, 0);
    assert(text_of(tokens.take(0)) =~= Seq::<char>::empty());
    assert(Seq::<char>::empty() + tail_text(tokens, 0) =~= tail_text(tokens, 0));
    lemma_tokens_of_rest(tokens, None, 0);
    assert(tokens.skip(0) =~= tokens);
}

/// Reading goes on character by character. A letter or an apostrophe goes on
/// with the word that the character before it belongs to, or begins a word; a
/// line break, and every other character that is not white space, is a token
/// of its own; other white space adds nothing, and ends a word.
pub proof fn law_one_more_character(text: Seq<char>, c: char)
    ensures
        tokens_of(seq![]) == Seq::<Seq<char>>::empty(),
        ({
            let before = tokens_of(text);
            let after = tokens_of(text.push(c));
            let in_word = strings::alphabetic(c) || c == '\'';
            let goes_on = text.len() > 0 && (strings::alphabetic(text.last()) || text.last()
                == '\'');
            if in_word && goes_on {
                before.len() > 0 && after == before.drop_last().push(before.last().push(c))
            } else if in_word || c == '\n' || !strings::white_space(c) {
                after == before.push(seq![c])
            } else {
                after == before
            }
        }),
    decreases text.len(),
{
    let longer = text.push(c);
    let none = Seq::<char>::empty();
    assert(tokens_of(none) =~= Seq::<Seq<char>>::empty());
    lemma_tokens_of_char(c);
    if text.len() == 0 {
        assert(longer =~= seq![c]);
        assert(tokens_of(text).push(seq![c]) =~= seq![seq![c]]);
    } else if is_word_char(text[0]) {
        lemma_word_run(text);
        let n = word_run(text) as int;
        let head = text.take(n);
        let rest = text.skip(n);
        assert(head + rest =~= text);
        assert(rest.len() > 0 ==> rest[0] == text[n]);
        lemma_tokens_of_word(head, rest);
        if rest.len() == 0 {
            assert(head =~= text);
            assert(is_word_char(text[text.len() - 1]));
            assert(tokens_of(text) =~= seq![text]);
            if is_word_char(c) {
                assert(all_word_chars(longer)) by {
                    assert forall|i: int| 0 <= i < longer.len() implies is_word_char(
                        #[trigger] longer[i],
                    ) by {
                        if i < text.len() {
                            assert(longer[i] == head[i]);
                        }
                    }
                }
                lemma_tokens_of_word(longer, none);
                assert(longer + none =~= longer);
                assert(tokens_of(longer) =~= seq![longer]);
                assert(tokens_of(text).drop_last().push(tokens_of(text).last().push(c)) =~= seq![
                    longer,
                ]);
            } else {
                lemma_tokens_of_word(head, seq![c]);
                assert(longer =~= head + seq![c]);
                assert(tokens_of(longer) =~= seq![text] + tokens_of(seq![c]));
                assert(seq![text] + seq![seq![c]] =~= tokens_of(text).push(seq![c]));
                assert(seq![text] + Seq::<Seq<char>>::empty() =~= tokens_of(text));
            }
        } else {
            law_one_more_character(rest, c);
            lemma_tokens_of_word(head, rest.push(c));
            assert(longer =~= head + rest.push(c));
            assert(rest.last() == text.last());
            let tail = tokens_of(rest);
            assert(tokens_of(text) =~= seq![head] + tail);
            assert(seq![head] + tail.push(seq![c]) =~= (seq![head] + tail).push(seq![c]));
            if tail.len() > 0 {
                assert(seq![head] + tail.drop_last().push(tail.last().push(c)) =~= (seq![head]
                    + tail).drop_last().push((seq![head] + tail).last().push(c)));
            }
        }
    } else {
        let rest = text.skip(1);
        law_one_more_character(rest, c);
        assert(longer.skip(1) =~= rest.push(c));
        assert(longer[0] == text[0]);
        if rest.len() > 0 {
            assert(rest.last() == text.last());
        } else {
            assert(text.last() == text[0]);
        }
        let tail = tokens_of(rest);
        let head = seq![text[0]];
        assert(seq![head] + tail.push(seq![c]) =~= (seq![head] + tail).push(seq![c]));
        if tail.len() > 0 {
            assert(seq![head] + tail.drop_last().push(tail.last().push(c)) =~= (seq![head]
                + tail).drop_last().push((seq![head] + tail).last().push(c)));
        }
    }
}

/// The tokens of a single character.
proof fn lemma_tokens_of_char(c: char)
    ensures
        tokens_of(seq![c]) == (if is_word_char(c) || is_mark(c) {
            seq![seq![c]]
        } else {
            seq![]
        }),
{
    let one = seq![c];
    let none = Seq::<char>::empty();
    assert(one.skip(1) =~= none);
    assert(tokens_of(none) =~= Seq::<Seq<char>>::empty());
    if is_word_char(c) {
        lemma_tokens_of_word(one, none);
        assert(one + none =~= one);
        assert(tokens_of(one) =~= seq![one]);
    } else if is_mark(c) {
        assert(tokens_of(one) =~= seq![one]);
    }
}

/// Writing goes on token by token. The first token is written as it is, and
/// every other with a space before it, except after a line break or an opening
/// mark, and except before a line break or a mark that closes or divides.
pub proof fn law_one_more_token(tokens: Seq<Seq<char>>, tok: Seq<char>)
    ensures
        text_of(seq![]) == Seq::<char>::empty(),
        text_of(seq![tok]) == tok,
        tokens.len() > 0 ==> ({
            let prev = tokens.last();
            let after_opening = prev == seq!['\n'] || prev == seq!['('] || prev == seq!['[']
                || prev == seq!['{'] || prev == seq!['`'];
            let before_closing = tok == seq!['\n'] || tok == seq![','] || tok == seq!['.'] || tok
                == seq!['!'] || tok == seq!['?'] || tok == seq![';'] || tok == seq![':'] || tok
                == seq!['\''] || tok == seq![')'] || tok == seq![']'] || tok == seq!['}'] || tok
                == seq!['-'];
            text_of(tokens.push(tok)) == text_of(tokens) + (if after_opening || before_closing {
                tok
            } else {
                seq![' '] + tok
            })
        }),
{
    let first = seq![tok];
    let none = Seq::<Seq<char>>::empty();
    assert(first.drop_last() =~= none);
    assert(text_of(none) =~= Seq::<char>::empty());
    assert(text_of(first) =~= tok);
    if tokens.len() > 0 {
        let prev = tokens.last();
        assert(tokens.push(tok).drop_last() =~= tokens);
        assert(prev.len() == 1 ==> prev =~= seq![prev[0]]);
        assert(tok.len() == 1 ==> tok =~= seq![tok[0]]);
    }
}

/// Which tokens hug the one before them: the marks that close or divide.
pub proof fn law_closing_marks_hug_the_token_before(tok: Seq<char>)
    ensures
        attaches(tok) <==> (tok == seq![','] || tok == seq!['.'] || tok == seq!['!'] || tok
            == seq!['?'] || tok == seq![';'] || tok == seq![':'] || tok == seq!['\''] || tok
            == seq![')'] || tok == seq![']'] || tok == seq!['}'] || tok == seq!['-']),
{
    assert(tok.len() == 1 ==> tok =~= seq![tok[0]]);
}

} // verus!
