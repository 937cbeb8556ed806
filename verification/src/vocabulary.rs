//! The vocabulary: which tokens a model knows, and by which numbers.
//!
//! Slot 0 stands for every unknown token. The other slots hold the most
//! frequent tokens, listed in the order of their texts.

use crate::ranking;
use crate::ranking::Ranking;
use crate::strings;
use vstd::hash_map::StringHashMap;
use vstd::prelude::*;

verus! {

/// How often a token occurs.
pub open spec fn count_of(tokens: Seq<Seq<char>>, word: Seq<char>) -> nat {
    tokens.to_multiset().count(word)
}

/// Whether a token is preferred to another: for being more frequent, or
/// among equally frequent ones for standing first in a listing.
pub open spec fn preferred(tokens: Seq<Seq<char>>, a: Seq<char>, b: Seq<char>) -> bool {
    count_of(tokens, a) > count_of(tokens, b) || (count_of(tokens, a) == count_of(tokens, b)
        && strings::text_before(a, b))
}

/// The tokens that are preferred to `word`.
pub open spec fn preferred_to(tokens: Seq<Seq<char>>, word: Seq<char>) -> Set<Seq<char>> {
    tokens.to_set().filter(|other: Seq<char>| preferred(tokens, other, word))
}

/// Whether a token is one of those that a vocabulary of at most `max_vocab`
/// entries, slot 0 among them, has room for.
pub open spec fn kept(tokens: Seq<Seq<char>>, max_vocab: nat, word: Seq<char>) -> bool {
    tokens.contains(word) && preferred_to(tokens, word).len() + 1 < max_vocab
}

/// How many of a number of different tokens a vocabulary of at most
/// `max_vocab` entries keeps: all of them, or as many as fit beside slot 0.
pub open spec fn entries_kept(distinct: nat, max_vocab: nat) -> nat {
    if max_vocab == 0 {
        0
    } else if distinct < max_vocab {
        distinct
    } else {
        (max_vocab - 1) as nat
    }
}

/// The entry of slot 0.
pub open spec fn unknown() -> Seq<char> {
    "<unk>"@
}

/// Whether a list is strictly in the order of a listing.
pub open spec fn listed(words: Seq<Seq<char>>) -> bool {
    forall|i: int, j: int|
        0 <= i < j < words.len() ==> strings::text_before(#[trigger] words[i], #[trigger] words[j])
}

/// Whether `vocab` is the vocabulary of `tokens` with at most `max_vocab`
/// entries: the entry for the unknown, then the tokens that are kept.
pub open spec fn is_vocabulary(
    vocab: Seq<Seq<char>>,
    tokens: Seq<Seq<char>>,
    max_vocab: nat,
) -> bool {
    &&& vocab.len() > 0
    &&& vocab[0] == unknown()
    &&& listed(vocab.skip(1))
    &&& forall|word: Seq<char>| #[trigger]
        vocab.skip(1).contains(word) <==> kept(tokens, max_vocab, word)
}

/// The numbers of the entries of a vocabulary; of an entry that occurs more
/// than once, the last.
pub open spec fn ids_of(vocab: Seq<Seq<char>>) -> Map<Seq<char>, usize>
    decreases vocab.len(),
{
    if vocab.len() == 0 {
        Map::empty()
    } else {
        ids_of(vocab.drop_last()).insert(vocab.last(), (vocab.len() - 1) as usize)
    }
}

/// The number of a token, 0 for one that is unknown.
pub open spec fn id_of(ids: Map<Seq<char>, usize>, word: Seq<char>) -> usize {
    if ids.contains_key(word) {
        ids[word]
    } else {
        0
    }
}

/// The numbers of a list of tokens.
pub open spec fn encoded(ids: Map<Seq<char>, usize>, tokens: Seq<Seq<char>>) -> Seq<usize> {
    Seq::new(tokens.len(), |i: int| id_of(ids, tokens[i]))
}

/// The entries of a vocabulary with the given numbers.
pub open spec fn decoded(vocab: Seq<Seq<char>>, ids: Seq<usize>) -> Seq<Seq<char>> {
    Seq::new(ids.len(), |i: int| vocab[ids[i] as int])
}

/// The most frequent words first.
struct ByCount<'a> {
    words: &'a Vec<String>,
    counts: &'a Vec<usize>,
}

impl<'a> Ranking for ByCount<'a> {
    closed spec fn ranks(&self, item: usize) -> bool {
        &&& item < self.words@.len()
        &&& self.words@.len() == self.counts@.len()
        &&& strings::texts(self.words@).no_duplicates()
    }

    closed spec fn ahead(&self, a: usize, b: usize) -> bool {
        let words = strings::texts(self.words@);
        self.counts@[a as int] > self.counts@[b as int] || (self.counts@[a as int]
            == self.counts@[b as int] && strings::text_before(words[a as int], words[b as int]))
    }

    proof fn irreflexive(&self, a: usize) {
        strings::lemma_text_before_irreflexive(strings::texts(self.words@)[a as int]);
    }

    proof fn total(&self, a: usize, b: usize) {
        let words = strings::texts(self.words@);
        assert(words[a as int] != words[b as int]);
        strings::lemma_text_before_total(words[a as int], words[b as int]);
    }

    proof fn transitive(&self, a: usize, b: usize, c: usize) {
        let words = strings::texts(self.words@);
        if self.counts@[a as int] == self.counts@[c as int] {
            strings::lemma_text_before_transitive(words[a as int], words[b as int], words[c as int]);
        }
    }

    fn is_ahead(&self, a: usize, b: usize) -> (r: bool) {
        if self.counts[a] == self.counts[b] {
            strings::is_text_before(self.words[a].as_str(), self.words[b].as_str())
        } else {
            self.counts[a] > self.counts[b]
        }
    }
}

/// The words in the order of a listing.
struct ByText<'a> {
    words: &'a Vec<String>,
}

impl<'a> Ranking for ByText<'a> {
    closed spec fn ranks(&self, item: usize) -> bool {
        &&& item < self.words@.len()
        &&& strings::texts(self.words@).no_duplicates()
    }

    closed spec fn ahead(&self, a: usize, b: usize) -> bool {
        let words = strings::texts(self.words@);
        strings::text_before(words[a as int], words[b as int])
    }

    proof fn irreflexive(&self, a: usize) {
        strings::lemma_text_before_irreflexive(strings::texts(self.words@)[a as int]);
    }

    proof fn total(&self, a: usize, b: usize) {
        let words = strings::texts(self.words@);
        assert(words[a as int] != words[b as int]);
        strings::lemma_text_before_total(words[a as int], words[b as int]);
    }

    proof fn transitive(&self, a: usize, b: usize, c: usize) {
        let words = strings::texts(self.words@);
        strings::lemma_text_before_transitive(words[a as int], words[b as int], words[c as int]);
    }

    fn is_ahead(&self, a: usize, b: usize) -> (r: bool) {
        strings::is_text_before(self.words[a].as_str(), self.words[b].as_str())
    }
}

/// Whether `words` lists the different tokens of `tokens`, each once, and
/// `counts` says how often each occurs.
spec fn tallied(tokens: Seq<Seq<char>>, words: Seq<Seq<char>>, counts: Seq<usize>) -> bool {
    &&& words.no_duplicates()
    &&& counts.len() == words.len()
    &&& forall|word: Seq<char>| #[trigger] words.contains(word) <==> tokens.contains(word)
    &&& forall|i: int|
        0 <= i < words.len() ==> #[trigger] counts[i] as nat == count_of(tokens, words[i])
}

/// A token more adds one to the count of that token alone.
proof fn lemma_count_push(tokens: Seq<Seq<char>>, token: Seq<char>, word: Seq<char>)
    ensures
        count_of(tokens.push(token), word) == count_of(tokens, word) + (if word == token {
            1nat
        } else {
            0nat
        }),
        count_of(tokens, word) <= tokens.len(),
        count_of(tokens, word) > 0 <==> tokens.contains(word),
        tokens.push(token).contains(word) <==> tokens.contains(word) || word == token,
{
    tokens.to_multiset_ensures();
    tokens.push(token).to_multiset_ensures();
    assert(tokens.push(token).to_multiset() =~= tokens.to_multiset().insert(token));
    assert(count_of(tokens, word) <= tokens.to_multiset().len());
    if tokens.contains(word) {
        let i = tokens.index_of(word);
        assert(tokens.push(token)[i] == word);
    }
    if word == token {
        assert(tokens.push(token)[tokens.len() as int] == word);
    }
}

/// The different tokens, in the order in which they first occur, and how
/// often each occurs.
fn tally(tokens: &[String]) -> (r: (Vec<String>, Vec<usize>))
    ensures
        tallied(strings::texts(tokens@), strings::texts(r.0@), r.1@),
{
    let ghost all = strings::texts(tokens@);
    let mut counts: StringHashMap<usize> = StringHashMap::new();
    let mut words: Vec<String> = Vec::new();
    let mut i: usize = 0;
    proof {
        all.take(0).to_multiset_ensures();
    }
    while i < tokens.len()
        invariant
            i <= tokens@.len(),
            all == strings::texts(tokens@),
            strings::texts(words@).no_duplicates(),
            forall|word: Seq<char>| #[trigger]
                strings::texts(words@).contains(word) <==> all.take(i as int).contains(word),
            forall|word: Seq<char>| #[trigger]
                counts@.contains_key(word) <==> all.take(i as int).contains(word),
            forall|word: Seq<char>| #[trigger]
                counts@.contains_key(word) ==> counts@[word] as nat == count_of(
                    all.take(i as int),
                    word,
                ),
        decreases tokens@.len() - i,
    {
        let token = &tokens[i];
        let ghost before = all.take(i as int);
        let ghost known = counts@;
        let ghost listed_before = strings::texts(words@);
        assert(all.take(i + 1) =~= before.push(token@));
        proof {
            lemma_count_push(before, token@, token@);
        }
        match counts.get(token.as_str()) {
            Some(n) => {
                let n: usize = *n;
                counts.insert(token.clone(), n + 1);
            },
            None => {
                counts.insert(token.clone(), 1);
                words.push(token.clone());
                assert(strings::texts(words@) =~= listed_before.push(token@));
                assert forall|k: int| 0 <= k < listed_before.len() implies listed_before[k]
                    != token@ by {
                    assert(listed_before.contains(listed_before[k]));
                }
            },
        }
        assert forall|word: Seq<char>|
            strings::texts(words@).contains(word) <==> all.take(i + 1).contains(word) by {
            lemma_count_push(before, token@, word);
            lemma_count_push(listed_before, token@, word);
        }
        assert forall|word: Seq<char>|
            counts@.contains_key(word) <==> all.take(i + 1).contains(word) by {
            lemma_count_push(before, token@, word);
        }
        assert forall|word: Seq<char>| counts@.contains_key(word) implies counts@[word] as nat
            == count_of(all.take(i + 1), word) by {
            lemma_count_push(before, token@, word);
        }
        i += 1;
    }
    assert(all.take(tokens@.len() as int) =~= all);
    let mut numbers: Vec<usize> = Vec::new();
    let mut j: usize = 0;
    while j < words.len()
        invariant
            j <= words@.len(),
            numbers@.len() == j,
            forall|word: Seq<char>| #[trigger]
                strings::texts(words@).contains(word) ==> counts@.contains_key(word),
            forall|word: Seq<char>| #[trigger]
                counts@.contains_key(word) ==> counts@[word] as nat == count_of(all, word),
            forall|k: int|
                0 <= k < j ==> #[trigger] numbers@[k] as nat == count_of(
                    all,
                    strings::texts(words@)[k],
                ),
        decreases words@.len() - j,
    {
        assert(strings::texts(words@)[j as int] == words@[j as int]@);
        assert(strings::texts(words@).contains(words@[j as int]@));
        match counts.get(words[j].as_str()) {
            Some(n) => numbers.push(*n),
            None => {
                assert(false);
            },
        }
        j += 1;
    }
    (words, numbers)
}

/// The numbers below `n`, in order.
pub fn numbers_below(n: usize) -> (v: Vec<usize>)
    ensures
        v@ == Seq::new(n as nat, |i: int| i as usize),
{
    let mut v: Vec<usize> = Vec::new();
    let mut i: usize = 0;
    while i < n
        invariant
            i <= n,
            v@ == Seq::new(i as nat, |k: int| k as usize),
        decreases n - i,
    {
        v.push(i);
        i += 1;
        assert(v@ =~= Seq::new(i as nat, |k: int| k as usize));
    }
    v
}

/// Distinct tokens in the order of preference: the tokens preferred to one
/// are those before it, so their number is its position.
proof fn lemma_position_counts_preferred(tokens: Seq<Seq<char>>, words: Seq<Seq<char>>, r: int)
    requires
        words.no_duplicates(),
        forall|word: Seq<char>| #[trigger] words.contains(word) <==> tokens.contains(word),
        forall|i: int, j: int|
            0 <= i < j < words.len() ==> preferred(
                tokens,
                #[trigger] words[i],
                #[trigger] words[j],
            ),
        0 <= r < words.len(),
    ensures
        preferred_to(tokens, words[r]).len() == r,
{
    let first = words.take(r);
    assert(preferred_to(tokens, words[r]) =~= first.to_set()) by {
        assert forall|word: Seq<char>|
            preferred_to(tokens, words[r]).contains(word) <==> first.to_set().contains(word) by {
            if preferred_to(tokens, words[r]).contains(word) {
                assert(words.contains(word));
                let i = words.index_of(word);
                if i == r {
                    strings::lemma_text_before_irreflexive(word);
                } else if i > r {
                    assert(preferred(tokens, words[r], words[i]));
                    if strings::text_before(word, words[r]) && strings::text_before(words[r], word) {
                        strings::lemma_text_before_transitive(word, words[r], word);
                        strings::lemma_text_before_irreflexive(word);
                    }
                }
                assert(first[i] == word);
            }
            if first.to_set().contains(word) {
                let i = first.index_of(word);
                assert(words[i] == word);
                assert(words.contains(word));
                assert(preferred(tokens, words[i], words[r]));
            }
        }
    }
    first.unique_seq_to_set();
}

/// The texts of chosen strings.
spec fn picked(words: Seq<Seq<char>>, items: Seq<usize>) -> Seq<Seq<char>> {
    Seq::new(items.len(), |i: int| words[items[i] as int])
}

/// Choosing different items of a list without repetition repeats no text.
proof fn lemma_picked(words: Seq<Seq<char>>, items: Seq<usize>)
    requires
        words.no_duplicates(),
        items.no_duplicates(),
        forall|i: int| 0 <= i < items.len() ==> #[trigger] items[i] < words.len(),
    ensures
        picked(words, items).no_duplicates(),
        forall|i: int|
            0 <= i < items.len() ==> picked(words, items).contains(#[trigger] words[items[i] as int]),
{
    assert forall|i: int| 0 <= i < items.len() implies picked(words, items).contains(
        #[trigger] words[items[i] as int],
    ) by {
        assert(picked(words, items)[i] == words[items[i] as int]);
    }
}

/// Builds the vocabulary of a list of tokens, of at most `max_vocab`
/// entries, and the numbers of its entries.
pub fn build_vocab(tokens: &[String], max_vocab: usize) -> (r: (
    Vec<String>,
    StringHashMap<usize>,
))
    ensures
        is_vocabulary(strings::texts(r.0@), strings::texts(tokens@), max_vocab as nat),
        r.0@.len() == 1 + entries_kept(strings::texts(tokens@).to_set().len(), max_vocab as nat),
        r.1@ == ids_of(strings::texts(r.0@)),
{
    let ghost all = strings::texts(tokens@);
    let (words, counts) = tally(tokens);
    let ghost distinct = strings::texts(words@);
    proof {
        distinct.unique_seq_to_set();
        assert(distinct.to_set() =~= all.to_set()) by {
            assert forall|word: Seq<char>|
                distinct.to_set().contains(word) <==> all.to_set().contains(word) by {
                assert(distinct.contains(word) <==> all.contains(word));
            }
        }
    }
    let by_count = ByCount { words: &words, counts: &counts };
    let everything = numbers_below(words.len());
    let ghost numbered = everything@;
    let mut top = ranking::sort(&by_count, everything);
    let ghost order = top@;
    let ghost ordered = picked(distinct, order);
    proof {
        ranking::lemma_same_items(numbered, order);
        assert forall|i: int| 0 <= i < order.len() implies #[trigger] order[i] < words@.len() by {
            assert(numbered.contains(order[i]));
        }
        lemma_picked(distinct, order);
        assert forall|word: Seq<char>| #[trigger] ordered.contains(word) <==> all.contains(word) by {
            if all.contains(word) {
                assert(distinct.contains(word));
                let i = distinct.index_of(word);
                assert(numbered[i] == i as usize);
                assert(numbered.contains(i as usize));
                assert(order.contains(i as usize));
                let j = order.index_of(i as usize);
                assert(ordered[j] == word);
            }
            if ordered.contains(word) {
                let j = ordered.index_of(word);
                assert(distinct[order[j] as int] == word);
                assert(distinct.contains(word));
            }
        }
        assert forall|i: int, j: int| 0 <= i < j < ordered.len() implies preferred(
            all,
            #[trigger] ordered[i],
            #[trigger] ordered[j],
        ) by {
            assert(by_count.ahead(order[i], order[j]));
            assert(counts@[order[i] as int] as nat == count_of(all, distinct[order[i] as int]));
            assert(counts@[order[j] as int] as nat == count_of(all, distinct[order[j] as int]));
        }
    }
    let keep: usize = max_vocab.saturating_sub(1);
    if keep < top.len() {
        top.truncate(keep);
    }
    let ghost chosen = top@;
    assert(chosen =~= order.take(chosen.len() as int));
    proof {
        lemma_picked(distinct, chosen);
    }
    let by_text = ByText { words: &words };
    let listing = ranking::sort(&by_text, top);
    let ghost listing_words = picked(distinct, listing@);
    proof {
        ranking::lemma_same_items(chosen, listing@);
        assert forall|i: int| 0 <= i < listing@.len() implies #[trigger] listing@[i]
            < words@.len() by {
            assert(chosen.contains(listing@[i]));
        }
        assert forall|i: int, j: int|
            0 <= i < j < listing_words.len() implies strings::text_before(
            #[trigger] listing_words[i],
            #[trigger] listing_words[j],
        ) by {
            assert(by_text.ahead(listing@[i], listing@[j]));
        }
        assert forall|word: Seq<char>| #[trigger]
            listing_words.contains(word) <==> kept(all, max_vocab as nat, word) by {
            if listing_words.contains(word) {
                let i = listing_words.index_of(word);
                assert(chosen.contains(listing@[i]));
                let j = chosen.index_of(listing@[i]);
                assert(ordered[j] == word);
                assert(ordered.contains(word));
                lemma_position_counts_preferred(all, ordered, j);
            }
            if kept(all, max_vocab as nat, word) {
                assert(ordered.contains(word));
                let j = ordered.index_of(word);
                lemma_position_counts_preferred(all, ordered, j);
                assert(chosen[j] == order[j]);
                assert(listing@.contains(order[j]));
                let i = listing@.index_of(order[j]);
                assert(listing_words[i] == word);
            }
        }
    }
    let mut vocab: Vec<String> = Vec::new();
    vocab.push("<unk>".to_string());
    let mut i: usize = 0;
    while i < listing.len()
        invariant
            i <= listing@.len(),
            distinct == strings::texts(words@),
            forall|k: int| 0 <= k < listing@.len() ==> #[trigger] listing@[k] < words@.len(),
            listing_words == picked(distinct, listing@),
            vocab@.len() == i + 1,
            vocab@[0]@ == unknown(),
            strings::texts(vocab@).skip(1) == listing_words.take(i as int),
        decreases listing@.len() - i,
    {
        vocab.push(words[listing[i]].clone());
        i += 1;
        assert(strings::texts(vocab@).skip(1) =~= listing_words.take(i as int));
    }
    assert(listing_words.take(listing@.len() as int) =~= listing_words);
    let token_to_id = index_vocab(vocab.as_slice());
    (vocab, token_to_id)
}

/// The number of each entry of a vocabulary.
pub fn index_vocab(vocab: &[String]) -> (ids: StringHashMap<usize>)
    ensures
        ids@ == ids_of(strings::texts(vocab@)),
{
    let ghost all = strings::texts(vocab@);
    let mut ids: StringHashMap<usize> = StringHashMap::new();
    let mut i: usize = 0;
    assert(all.take(0) =~= Seq::<Seq<char>>::empty());
    while i < vocab.len()
        invariant
            i <= vocab@.len(),
            all == strings::texts(vocab@),
            ids@ == ids_of(all.take(i as int)),
        decreases vocab@.len() - i,
    {
        assert(all.take(i + 1).drop_last() =~= all.take(i as int));
        ids.insert(vocab[i].clone(), i);
        i += 1;
    }
    assert(all.take(vocab@.len() as int) =~= all);
    ids
}

/// The numbers of a list of tokens, 0 for each that is unknown.
pub fn encode(token_to_id: &StringHashMap<usize>, tokens: &[String]) -> (ids: Vec<usize>)
    ensures
        ids@ == encoded(token_to_id@, strings::texts(tokens@)),
{
    let mut ids: Vec<usize> = Vec::new();
    let mut i: usize = 0;
    while i < tokens.len()
        invariant
            i <= tokens@.len(),
            ids@ == encoded(token_to_id@, strings::texts(tokens@)).take(i as int),
        decreases tokens@.len() - i,
    {
        let id: usize = match token_to_id.get(tokens[i].as_str()) {
            Some(id) => *id,
            None => 0,
        };
        ids.push(id);
        i += 1;
        assert(ids@ =~= encoded(token_to_id@, strings::texts(tokens@)).take(i as int));
    }
    assert(ids@ =~= encoded(token_to_id@, strings::texts(tokens@)));
    ids
}

/// Two strictly ordered lists of the same texts are the same.
proof fn lemma_one_listing(a: Seq<Seq<char>>, b: Seq<Seq<char>>)
    requires
        listed(a),
        listed(b),
        forall|word: Seq<char>| #[trigger] a.contains(word) <==> b.contains(word),
    ensures
        a == b,
    decreases a.len(),
{
    if a.len() == 0 {
        if b.len() > 0 {
            assert(b.contains(b[0]));
            assert(a.contains(b[0]));
        }
        assert(a =~= b);
    } else {
        assert(a.contains(a[0]));
        assert(b.contains(a[0]));
        let j = b.index_of(a[0]);
        assert(b.contains(b[0]));
        assert(a.contains(b[0]));
        let i = a.index_of(b[0]);
        if i > 0 && j > 0 {
            assert(strings::text_before(a[0], a[i]));
            assert(strings::text_before(b[0], b[j]));
            strings::lemma_text_before_transitive(a[0], b[0], a[0]);
            strings::lemma_text_before_irreflexive(a[0]);
        }
        assert(a[0] == b[0]);
        let x = a.skip(1);
        let y = b.skip(1);
        assert forall|word: Seq<char>| #[trigger] x.contains(word) <==> y.contains(word) by {
            lemma_rest_contains(a, word);
            lemma_rest_contains(b, word);
            assert(a.contains(word) <==> b.contains(word));
        }
        lemma_one_listing(x, y);
        assert(a =~= seq![a[0]] + x);
        assert(b =~= seq![b[0]] + y);
    }
}

/// The rest of a strictly ordered list holds all but the first text.
proof fn lemma_rest_contains(a: Seq<Seq<char>>, word: Seq<char>)
    requires
        listed(a),
        a.len() > 0,
    ensures
        a.skip(1).contains(word) <==> a.contains(word) && word != a[0],
{
    if a.skip(1).contains(word) {
        let i = a.skip(1).index_of(word);
        assert(a[i + 1] == word);
        assert(strings::text_before(a[0], a[i + 1]));
        if word == a[0] {
            strings::lemma_text_before_irreflexive(word);
        }
    }
    if a.contains(word) && word != a[0] {
        let i = a.index_of(word);
        assert(a.skip(1)[i - 1] == word);
    }
}

/// A list of tokens has only one vocabulary of a given size.
pub proof fn law_one_vocabulary(
    a: Seq<Seq<char>>,
    b: Seq<Seq<char>>,
    tokens: Seq<Seq<char>>,
    max_vocab: nat,
)
    requires
        is_vocabulary(a, tokens, max_vocab),
        is_vocabulary(b, tokens, max_vocab),
    ensures
        a == b,
{
    assert forall|word: Seq<char>| #[trigger]
        a.skip(1).contains(word) <==> b.skip(1).contains(word) by {
        assert(a.skip(1).contains(word) <==> kept(tokens, max_vocab, word));
        assert(b.skip(1).contains(word) <==> kept(tokens, max_vocab, word));
    }
    lemma_one_listing(a.skip(1), b.skip(1));
    assert(a =~= seq![a[0]] + a.skip(1));
    assert(b =~= seq![b[0]] + b.skip(1));
}

/// A token that is kept is preferred to every token that is not: it is more
/// frequent, or as frequent and earlier in a listing.
pub proof fn law_kept_tokens_are_preferred(
    tokens: Seq<Seq<char>>,
    max_vocab: nat,
    word: Seq<char>,
    other: Seq<char>,
)
    requires
        kept(tokens, max_vocab, word),
        tokens.contains(other),
        !kept(tokens, max_vocab, other),
    ensures
        preferred(tokens, word, other),
        count_of(tokens, word) >= count_of(tokens, other),
{
    strings::lemma_text_before_total(word, other);
    if preferred(tokens, other, word) {
        let a = preferred_to(tokens, other);
        let b = preferred_to(tokens, word);
        assert(a.subset_of(b)) by {
            assert forall|third: Seq<char>| #[trigger] a.contains(third) implies b.contains(
                third,
            ) by {
                if strings::text_before(third, other) && strings::text_before(other, word) {
                    strings::lemma_text_before_transitive(third, other, word);
                }
            }
        }
        vstd::set_lib::lemma_len_subset(a, b);
    }
}

/// Every entry of a vocabulary has a number, under which the vocabulary holds
/// it, and nothing else has one.
pub proof fn law_numbers_name_their_entries(vocab: Seq<Seq<char>>, word: Seq<char>)
    requires
        vocab.len() <= usize::MAX,
    ensures
        ids_of(vocab).contains_key(word) <==> vocab.contains(word),
        vocab.contains(word) ==> ids_of(vocab)[word] < vocab.len() && vocab[ids_of(
            vocab,
        )[word] as int] == word,
    decreases vocab.len(),
{
    if vocab.len() > 0 {
        let rest = vocab.drop_last();
        law_numbers_name_their_entries(rest, word);
        if vocab.contains(word) && word != vocab.last() {
            let i = vocab.index_of(word);
            assert(rest[i] == word);
        }
        if rest.contains(word) {
            let i = rest.index_of(word);
            assert(vocab[i] == word);
        }
        if word == vocab.last() {
            assert(vocab[vocab.len() - 1] == word);
        } else if rest.contains(word) {
            assert(rest[ids_of(rest)[word] as int] == vocab[ids_of(rest)[word] as int]);
        }
    }
}

/// Looking up the numbers of tokens gives the tokens back, except that a token
/// that is not in the vocabulary comes back as the entry of slot 0.
pub proof fn law_numbered_tokens_read_back(vocab: Seq<Seq<char>>, tokens: Seq<Seq<char>>, i: int)
    requires
        0 < vocab.len() <= usize::MAX,
        0 <= i < tokens.len(),
    ensures
        encoded(ids_of(vocab), tokens)[i] < vocab.len(),
        decoded(vocab, encoded(ids_of(vocab), tokens))[i] == (if vocab.contains(tokens[i]) {
            tokens[i]
        } else {
            vocab[0]
        }),
{
    law_numbers_name_their_entries(vocab, tokens[i]);
}

/// What a vocabulary holds: the entry for the unknown, then tokens of the text,
/// in alphabetical order. A token of the text that it holds is more frequent
/// than any that it leaves out, or as frequent and earlier in the alphabet.
pub proof fn law_vocabularies_hold_the_most_frequent(
    vocab: Seq<Seq<char>>,
    tokens: Seq<Seq<char>>,
    max_vocab: nat,
)
    requires
        is_vocabulary(vocab, tokens, max_vocab),
    ensures
        vocab.len() > 0,
        vocab[0] == seq!['<', 'u', 'n', 'k', '>'],
        forall|i: int| 0 < i < vocab.len() ==> tokens.contains(#[trigger] vocab[i]),
        forall|i: int, j: int|
            0 < i < j < vocab.len() ==> strings::text_before(#[trigger] vocab[i], #[trigger] vocab[j]),
        forall|i: int, other: Seq<char>|
            0 < i < vocab.len() && tokens.contains(other) && !vocab.skip(1).contains(other) ==> {
                let often = tokens.to_multiset().count(#[trigger] vocab[i]);
                let seldom = #[trigger] tokens.to_multiset().count(other);
                often > seldom || (often == seldom && strings::text_before(vocab[i], other))
            },
{
    reveal_strlit("<unk>");
    assert("<unk>"@ =~= seq!['<', 'u', 'n', 'k', '>']);
    let words = vocab.skip(1);
    assert forall|i: int| 0 < i < vocab.len() implies tokens.contains(#[trigger] vocab[i])
        && kept(tokens, max_vocab, vocab[i]) by {
        assert(words[i - 1] == vocab[i]);
        assert(words.contains(vocab[i]));
    }
    assert forall|i: int, j: int| 0 < i < j < vocab.len() implies strings::text_before(
        #[trigger] vocab[i],
        #[trigger] vocab[j],
    ) by {
        assert(words[i - 1] == vocab[i] && words[j - 1] == vocab[j]);
    }
    assert forall|i: int, other: Seq<char>|
        0 < i < vocab.len() && tokens.contains(other) && !vocab.skip(1).contains(other) implies {
        let often = tokens.to_multiset().count(#[trigger] vocab[i]);
        let seldom = #[trigger] tokens.to_multiset().count(other);
        often > seldom || (often == seldom && strings::text_before(vocab[i], other))
    } by {
        assert(kept(tokens, max_vocab, vocab[i]));
        law_kept_tokens_are_preferred(tokens, max_vocab, vocab[i], other);
    }
}

/// A vocabulary is as full as it may be: it keeps all the different tokens of a
/// text, or as many as fit beside the entry for the unknown.
pub proof fn law_vocabularies_are_as_full_as_they_may_be(distinct: nat, max_vocab: nat)
    ensures
        entries_kept(distinct, max_vocab) <= distinct,
        max_vocab > 0 ==> entries_kept(distinct, max_vocab) + 1 <= max_vocab,
        max_vocab == 0 ==> entries_kept(distinct, max_vocab) == 0,
        max_vocab > 0 && entries_kept(distinct, max_vocab) < distinct ==> entries_kept(
            distinct,
            max_vocab,
        ) + 1 == max_vocab,
{
}

/// The number of an entry is its place, and of one that occurs several times
/// the last place. A token gets the number that is listed for it, and 0 where
/// none is.
pub proof fn law_numbers_are_places(
    vocab: Seq<Seq<char>>,
    ids: Map<Seq<char>, usize>,
    tokens: Seq<Seq<char>>,
    i: int,
)
    requires
        vocab.len() <= usize::MAX,
    ensures
        0 <= i < vocab.len() && !vocab.skip(i + 1).contains(vocab[i]) ==> ids_of(vocab)[vocab[i]]
            == i,
        encoded(ids, tokens).len() == tokens.len(),
        0 <= i < tokens.len() && ids.contains_key(tokens[i]) ==> encoded(ids, tokens)[i]
            == ids[tokens[i]],
        0 <= i < tokens.len() && !ids.contains_key(tokens[i]) ==> encoded(ids, tokens)[i] == 0,
    decreases vocab.len(),
{
    if 0 <= i < vocab.len() && !vocab.skip(i + 1).contains(vocab[i]) {
        let rest = vocab.drop_last();
        if i < rest.len() {
            let later = vocab.skip(i + 1);
            assert(later[later.len() - 1] == vocab.last());
            if rest.skip(i + 1).contains(vocab[i]) {
                let j = rest.skip(i + 1).index_of(vocab[i]);
                assert(later[j] == vocab[i]);
            }
            law_numbers_are_places(rest, ids, tokens, i);
        }
    }
}

/// Numbers stand for the entries of a vocabulary, one for one.
pub proof fn law_numbers_are_read_one_by_one(vocab: Seq<Seq<char>>, ids: Seq<usize>)
    ensures
        decoded(vocab, ids).len() == ids.len(),
        forall|i: int| 0 <= i < ids.len() ==> #[trigger] decoded(vocab, ids)[i] == vocab[ids[i] as int],
{
}

} // verus!
