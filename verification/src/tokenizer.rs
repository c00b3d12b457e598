//! Splits text into tokens and puts it together again.

use vstd::hash_map::StringHashMap;
use vstd::prelude::*;

use crate::text;

verus! {

/// Turns text into tokens and tokens into text.
pub trait Tokenizer: Send + Sync {
    /// The tokens of a text.
    spec fn encoded(&self, text: Seq<char>) -> Seq<u32>;

    /// The text of tokens.
    spec fn decoded(&self, tokens: Seq<u32>) -> Seq<char>;

    /// The number of tokens there are.
    spec fn size(&self) -> nat;

    /// Whether the tokenizer is in order.
    spec fn inv(&self) -> bool;

    /// The tokens of a text.
    fn encode(&self, text: &str) -> (r: Vec<u32>)
        requires
            self.inv(),
        ensures
            r@ == self.encoded(text@),
    ;

    /// The text of tokens.
    fn decode(&self, tokens: &[u32]) -> (r: String)
        requires
            self.inv(),
        ensures
            r@ == self.decoded(tokens@),
    ;

    /// The number of tokens there are.
    fn vocab_size(&self) -> (n: usize)
        requires
            self.inv(),
        ensures
            n == self.size(),
    ;
}

/// A tokenizer whose tokens are words between white space, numbered in the order in
/// which they were made known.
pub struct WhitespaceTokenizer {
    vocab: StringHashMap<u32>,
    inv: Vec<String>,
}

/// The tokens of those of `ws` that are in the vocabulary.
pub open spec fn known_tokens(vocab: Seq<Seq<char>>, ws: Seq<Seq<char>>) -> Seq<u32>
    decreases ws.len(),
{
    if ws.len() == 0 {
        Seq::empty()
    } else {
        let before = known_tokens(vocab, ws.drop_last());
        if vocab.contains(ws.last()) {
            before.push(vocab.index_of(ws.last()) as u32)
        } else {
            before
        }
    }
}

/// The words of those tokens that there are.
pub open spec fn token_words(vocab: Seq<Seq<char>>, tokens: Seq<u32>) -> Seq<Seq<char>>
    decreases tokens.len(),
{
    if tokens.len() == 0 {
        Seq::empty()
    } else {
        let before = token_words(vocab, tokens.drop_last());
        if tokens.last() < vocab.len() {
            before.push(vocab[tokens.last() as int])
        } else {
            before
        }
    }
}

/// The words, each where it comes first.
pub open spec fn interned(ws: Seq<Seq<char>>) -> Seq<Seq<char>>
    decreases ws.len(),
{
    if ws.len() == 0 {
        Seq::empty()
    } else {
        let before = interned(ws.drop_last());
        if before.contains(ws.last()) {
            before
        } else {
            before.push(ws.last())
        }
    }
}

impl View for WhitespaceTokenizer {
    type V = Seq<Seq<char>>;

    /// The vocabulary.
    closed spec fn view(&self) -> Seq<Seq<char>> {
        text::views(self.inv@)
    }
}

impl WhitespaceTokenizer {
    /// No word has two tokens, and the lookup table knows all words and no others.
    pub closed spec fn wf(&self) -> bool {
        &&& self@.no_duplicates()
        &&& forall|w: Seq<char>| #[trigger] self.vocab@.dom().contains(w) <==> self@.contains(w)
        &&& forall|i: int|
            0 <= i < self@.len() ==> self.vocab@[#[trigger] self@[i]] == i as u32
    }

    /// A tokenizer without words.
    pub fn new() -> (t: Self)
        ensures
            t.wf(),
            t@ == Seq::<Seq<char>>::empty(),
    {
        let t = WhitespaceTokenizer { vocab: StringHashMap::new(), inv: Vec::new() };
        proof {
            assert(t@ =~= Seq::empty());
        }
        t
    }

    fn intern(&mut self, w: &str) -> (id: u32)
        requires
            old(self).wf(),
        ensures
            final(self).wf(),
            final(self)@ == (if old(self)@.contains(w@) {
                old(self)@
            } else {
                old(self)@.push(w@)
            }),
            id == final(self)@.index_of(w@) as u32,
    {
        let ghost before = self@;
        if let Some(id) = self.vocab.get(w) {
            proof {
                let i = before.index_of(w@);
                assert(before[i] == w@);
            }
            return *id;
        }
        proof {
            assert(!before.contains(w@));
        }
        let id: u32 = #[verifier::truncate] (self.inv.len() as u32);
        self.vocab.insert(w.to_owned(), id);
        let word = w.to_owned();
        self.inv.push(word);
        proof {
            let now = self@;
            assert(now =~= before.push(w@));
            assert(now[before.len() as int] == w@);
            assert(now.no_duplicates());
            assert(now.index_of(w@) == before.len());
            assert forall|x: Seq<char>| #[trigger] self.vocab@.dom().contains(x) <==> now.contains(
                x,
            ) by {
                if before.contains(x) {
                    let j = before.index_of(x);
                    assert(now[j] == x);
                }
                if now.contains(x) {
                    let j = now.index_of(x);
                    assert(j < before.len() ==> before[j] == x);
                }
            }
            assert forall|i: int| 0 <= i < now.len() implies self.vocab@[#[trigger] now[i]]
                == i as u32 by {
                if i < before.len() {
                    assert(before[i] == now[i]);
                    assert(before.contains(now[i]));
                }
            }
        }
        id
    }

    /// A tokenizer that knows the given words.
    pub fn with_words(words: &[&str]) -> (t: Self)
        ensures
            t.wf(),
            t@ == interned(words@.map_values(|w: &str| w@)),
    {
        let mut t = Self::new();
        let ghost all = words@.map_values(|w: &str| w@);
        for i in 0..words.len()
            invariant
                all == words@.map_values(|w: &str| w@),
                t.wf(),
                t@ == interned(all.take(i as int)),
        {
            proof {
                assert(all.take(i + 1).drop_last() =~= all.take(i as int));
                assert(all[i as int] == words@[i as int]@);
            }
            t.intern(words[i]);
        }
        proof {
            assert(all.take(all.len() as int) =~= all);
        }
        t
    }
}

impl Default for WhitespaceTokenizer {
    fn default() -> (t: Self)
        ensures
            t.wf(),
            t@ == Seq::<Seq<char>>::empty(),
    {
        WhitespaceTokenizer::new()
    }
}

impl Tokenizer for WhitespaceTokenizer {
    open spec fn encoded(&self, text: Seq<char>) -> Seq<u32> {
        known_tokens(self@, text::words(text))
    }

    open spec fn decoded(&self, tokens: Seq<u32>) -> Seq<char> {
        text::join(token_words(self@, tokens), " "@)
    }

    open spec fn size(&self) -> nat {
        self@.len()
    }

    open spec fn inv(&self) -> bool {
        self.wf()
    }

    fn encode(&self, text: &str) -> (r: Vec<u32>) {
        let ws = text::split_whitespace(text);
        let ghost all = text::views(ws@);
        let mut r: Vec<u32> = Vec::new();
        for i in 0..ws.len()
            invariant
                self.wf(),
                all == text::views(ws@),
                r@ == known_tokens(self@, all.take(i as int)),
        {
            proof {
                assert(all.take(i + 1).drop_last() =~= all.take(i as int));
                assert(all[i as int] == ws@[i as int]@);
            }
            if let Some(id) = self.vocab.get(ws[i].as_str()) {
                proof {
                    let w = ws@[i as int]@;
                    let j = self@.index_of(w);
                    assert(self@.contains(w));
                    assert(self@[j] == w);
                }
                r.push(*id);
            }
        }
        proof {
            assert(all.take(all.len() as int) =~= all);
        }
        r
    }

    fn decode(&self, tokens: &[u32]) -> (r: String) {
        let mut ws: Vec<String> = Vec::new();
        for i in 0..tokens.len()
            invariant
                text::views(ws@) == token_words(self@, tokens@.take(i as int)),
        {
            proof {
                assert(tokens@.take(i + 1).drop_last() =~= tokens@.take(i as int));
            }
            let t: usize = tokens[i] as usize;
            if t < self.inv.len() {
                let w = self.inv[t].clone();
                proof {
                    assert(text::views(ws@.push(w)) =~= text::views(ws@).push(w@));
                }
                ws.push(w);
            }
        }
        proof {
            assert(tokens@.take(tokens@.len() as int) =~= tokens@);
        }
        text::joined(ws.as_slice())
    }

    fn vocab_size(&self) -> (n: usize) {
        self.inv.len()
    }
}

/// A text of known words is given back, with single spaces, when its tokens are turned
/// into text.
pub proof fn law_round_trip(t: WhitespaceTokenizer, text: Seq<char>)
    requires
        t.wf(),
        t@.len() <= 0x1_0000_0000,
        forall|i: int|
            0 <= i < text::words(text).len() ==> t@.contains(#[trigger] text::words(text)[i]),
    ensures
        t.decoded(t.encoded(text)) == text::join(text::words(text), " "@),
{
    lemma_tokens_back(t@, text::words(text));
}

proof fn lemma_tokens_back(vocab: Seq<Seq<char>>, ws: Seq<Seq<char>>)
    requires
        vocab.len() <= 0x1_0000_0000,
        forall|i: int| 0 <= i < ws.len() ==> vocab.contains(#[trigger] ws[i]),
    ensures
        token_words(vocab, known_tokens(vocab, ws)) == ws,
    decreases ws.len(),
{
    if ws.len() == 0 {
        assert(token_words(vocab, known_tokens(vocab, ws)) =~= ws);
    } else {
        let init = ws.drop_last();
        assert forall|i: int| 0 <= i < init.len() implies vocab.contains(#[trigger] init[i]) by {
            assert(init[i] == ws[i]);
        }
        lemma_tokens_back(vocab, init);
        assert(vocab.contains(ws[ws.len() - 1]));
        let id = vocab.index_of(ws.last());
        assert(vocab[id] == ws.last());
        assert(known_tokens(vocab, ws).drop_last() =~= known_tokens(vocab, init));
        assert(token_words(vocab, known_tokens(vocab, ws)) =~= ws);
    }
}

/// Tokens that there are come back when their text is turned into tokens, where every
/// word of the vocabulary is one.
pub proof fn law_tokens_round_trip(t: WhitespaceTokenizer, tokens: Seq<u32>)
    requires
        t.wf(),
        t@.len() <= 0x1_0000_0000,
        forall|i: int| 0 <= i < t@.len() ==> text::is_word(#[trigger] t@[i]),
        forall|i: int| 0 <= i < tokens.len() ==> #[trigger] tokens[i] < t@.len(),
    ensures
        t.encoded(t.decoded(tokens)) == tokens,
{
    lemma_words_back(t@, tokens);
    text::law_words_of_joined(token_words(t@, tokens));
}

proof fn lemma_words_back(vocab: Seq<Seq<char>>, tokens: Seq<u32>)
    requires
        vocab.no_duplicates(),
        vocab.len() <= 0x1_0000_0000,
        forall|i: int| 0 <= i < vocab.len() ==> text::is_word(#[trigger] vocab[i]),
        forall|i: int| 0 <= i < tokens.len() ==> #[trigger] tokens[i] < vocab.len(),
    ensures
        known_tokens(vocab, token_words(vocab, tokens)) == tokens,
        forall|i: int|
            0 <= i < token_words(vocab, tokens).len() ==> text::is_word(
                #[trigger] token_words(vocab, tokens)[i],
            ),
    decreases tokens.len(),
{
    let ws = token_words(vocab, tokens);
    if tokens.len() == 0 {
        assert(known_tokens(vocab, ws) =~= tokens);
    } else {
        let init = tokens.drop_last();
        assert forall|i: int| 0 <= i < init.len() implies #[trigger] init[i] < vocab.len() by {
            assert(init[i] == tokens[i]);
        }
        lemma_words_back(vocab, init);
        let before = token_words(vocab, init);
        let id = tokens[tokens.len() - 1];
        let w = vocab[id as int];
        assert(ws == before.push(w));
        assert(ws.drop_last() =~= before);
        assert(vocab.contains(w));
        assert(vocab.index_of(w) == id);
        assert(known_tokens(vocab, ws) =~= tokens);
        assert forall|i: int| 0 <= i < ws.len() implies text::is_word(#[trigger] ws[i]) by {
            if i < before.len() {
                assert(ws[i] == before[i]);
            }
        }
    }
}

/// A tokenizer that was given words turns every text of them into tokens and back, and
/// every one of its tokens into text and back.
pub proof fn law_given_words_round_trip(
    t: WhitespaceTokenizer,
    given: Seq<Seq<char>>,
    text: Seq<char>,
    tokens: Seq<u32>,
)
    requires
        t.wf(),
        t@ == interned(given),
        t@.len() <= 0x1_0000_0000,
        forall|i: int| 0 <= i < given.len() ==> text::is_word(#[trigger] given[i]),
        forall|i: int|
            0 <= i < text::words(text).len() ==> given.contains(#[trigger] text::words(text)[i]),
        forall|i: int| 0 <= i < tokens.len() ==> #[trigger] tokens[i] < t.size(),
    ensures
        t.decoded(t.encoded(text)) == text::join(text::words(text), " "@),
        t.encoded(t.decoded(tokens)) == tokens,
{
    law_interned_once(given);
    assert forall|i: int| 0 <= i < text::words(text).len() implies t@.contains(
        #[trigger] text::words(text)[i],
    ) by {
        assert(given.contains(text::words(text)[i]));
    }
    assert forall|i: int| 0 <= i < t@.len() implies text::is_word(#[trigger] t@[i]) by {
        assert(interned(given).contains(t@[i]));
        let j = given.index_of(t@[i]);
        assert(given[j] == t@[i]);
    }
    law_round_trip(t, text);
    law_tokens_round_trip(t, tokens);
}

/// A token that there is not leaves no trace, wherever it stands.
pub proof fn law_missing_dropped(
    vocab: Seq<Seq<char>>,
    before: Seq<u32>,
    token: u32,
    after: Seq<u32>,
)
    requires
        token >= vocab.len(),
    ensures
        token_words(vocab, before.push(token) + after) == token_words(vocab, before + after),
    decreases after.len(),
{
    if after.len() == 0 {
        assert((before.push(token) + after).drop_last() =~= before);
        assert((before.push(token) + after).last() == token);
        assert(before + after =~= before);
    } else {
        law_missing_dropped(vocab, before, token, after.drop_last());
        assert((before.push(token) + after).drop_last() =~= before.push(token) + after.drop_last());
        assert((before + after).drop_last() =~= before + after.drop_last());
    }
}

/// A word that is not known leaves no trace, wherever it stands.
pub proof fn law_unknown_dropped(
    vocab: Seq<Seq<char>>,
    before: Seq<Seq<char>>,
    w: Seq<char>,
    after: Seq<Seq<char>>,
)
    requires
        !vocab.contains(w),
    ensures
        known_tokens(vocab, before.push(w) + after) == known_tokens(vocab, before + after),
    decreases after.len(),
{
    if after.len() == 0 {
        assert((before.push(w) + after).drop_last() =~= before);
        assert((before.push(w) + after).last() == w);
        assert(before + after =~= before);
    } else {
        law_unknown_dropped(vocab, before, w, after.drop_last());
        assert((before.push(w) + after).drop_last() =~= before.push(w) + after.drop_last());
        assert((before + after).drop_last() =~= before + after.drop_last());
    }
}

/// Making a word known again changes nothing, and no word is known twice.
pub proof fn law_interned_once(ws: Seq<Seq<char>>)
    ensures
        interned(ws).no_duplicates(),
        forall|w: Seq<char>| #[trigger] interned(ws).contains(w) <==> ws.contains(w),
    decreases ws.len(),
{
    if ws.len() > 0 {
        let init = ws.drop_last();
        law_interned_once(init);
        let now = interned(ws);
        let before = interned(init);
        assert forall|w: Seq<char>| #[trigger] now.contains(w) <==> ws.contains(w) by {
            if ws.contains(w) {
                let j = ws.index_of(w);
                assert(ws[j] == w);
                if j < init.len() {
                    assert(init[j] == w);
                    assert(before.contains(w));
                    let k = before.index_of(w);
                    assert(now[k] == w);
                } else if !before.contains(w) {
                    assert(now[before.len() as int] == w);
                }
            }
            if now.contains(w) {
                let k = now.index_of(w);
                assert(now[k] == w);
                if k < before.len() {
                    assert(before[k] == w);
                    assert(before.contains(w));
                    let j = init.index_of(w);
                    assert(ws[j] == w);
                } else {
                    assert(ws[ws.len() - 1] == w);
                }
            }
        }
    }
}

/// The tokens of words are the places in the vocabulary of those words that it holds, in
/// the order of the words.
pub proof fn law_known_tokens(vocab: Seq<Seq<char>>, ws: Seq<Seq<char>>)
    ensures
        known_tokens(vocab, ws) == ws.filter(|w: Seq<char>| vocab.contains(w)).map_values(
            |w: Seq<char>| vocab.index_of(w) as u32,
        ),
    decreases ws.len(),
{
    reveal(Seq::filter);
    let held = |w: Seq<char>| vocab.contains(w);
    let place = |w: Seq<char>| vocab.index_of(w) as u32;
    if ws.len() > 0 {
        law_known_tokens(vocab, ws.drop_last());
        let before = ws.drop_last().filter(held);
        assert(before.push(ws.last()).map_values(place) =~= before.map_values(place).push(
            place(ws.last()),
        ));
    }
    assert(known_tokens(vocab, ws) =~= ws.filter(held).map_values(place));
}

/// The words of tokens are what the vocabulary holds at those tokens that are places in it,
/// in the order of the tokens.
pub proof fn law_token_words(vocab: Seq<Seq<char>>, tokens: Seq<u32>)
    ensures
        token_words(vocab, tokens) == tokens.filter(|t: u32| t < vocab.len()).map_values(
            |t: u32| vocab[t as int],
        ),
    decreases tokens.len(),
{
    reveal(Seq::filter);
    let held = |t: u32| t < vocab.len();
    let word = |t: u32| vocab[t as int];
    if tokens.len() > 0 {
        law_token_words(vocab, tokens.drop_last());
        let before = tokens.drop_last().filter(held);
        assert(before.push(tokens.last()).map_values(word) =~= before.map_values(word).push(
            word(tokens.last()),
        ));
    }
    assert(token_words(vocab, tokens) =~= tokens.filter(held).map_values(word));
}

/// Words are numbered in the order in which they come first: each occurs before any with a
/// greater number does.
pub proof fn law_interned_in_order(ws: Seq<Seq<char>>, i: int, j: int)
    requires
        0 <= i < j < interned(ws).len(),
    ensures
        exists|p: int|
            0 <= p < ws.len() && ws[p] == interned(ws)[i] && !(#[trigger] ws.take(p + 1)).contains(
                interned(ws)[j],
            ),
    decreases ws.len(),
{
    let init = ws.drop_last();
    let before = interned(init);
    law_interned_once(init);
    if j < before.len() {
        law_interned_in_order(init, i, j);
        let p = choose|p: int|
            0 <= p < init.len() && init[p] == before[i] && !(#[trigger] init.take(p + 1)).contains(
                before[j],
            );
        assert(init.take(p + 1) =~= ws.take(p + 1));
        assert(ws[p] == before[i]);
    } else {
        let w = ws.last();
        assert(!before.contains(w));
        assert(before.contains(before[i]));
        assert(init.contains(before[i]));
        let p = init.index_of(before[i]);
        assert(ws[p] == before[i]);
        if ws.take(p + 1).contains(w) {
            let q = ws.take(p + 1).index_of(w);
            assert(init[q] == w);
            assert(init.contains(w));
        }
    }
}

/// A text is turned into the tokens of those of its words that are known, and tokens are
/// turned into their words, with a space between them.
pub proof fn law_encoded(t: WhitespaceTokenizer, text: Seq<char>, tokens: Seq<u32>)
    ensures
        t.encoded(text) == text::words(text).filter(|w: Seq<char>| t@.contains(w)).map_values(
            |w: Seq<char>| t@.index_of(w) as u32,
        ),
        t.decoded(tokens) == text::join(
            tokens.filter(|i: u32| i < t@.len()).map_values(|i: u32| t@[i as int]),
            " "@,
        ),
        t.size() == t@.len(),
{
    let vocab = t@;
    law_known_tokens(vocab, text::words(text));
    law_token_words(vocab, tokens);
    assert(tokens.filter(|i: u32| i < t@.len()).map_values(|i: u32| t@[i as int])
        == token_words(vocab, tokens));
}

} // verus!
