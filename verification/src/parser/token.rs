//! Token interning: each distinct chunk string is mapped to a small
//! integer, with encode and decode staying a bijection.
use vstd::prelude::*;

use crate::outside::chunk_map_get;
use crate::outside::chunk_map_insert;
use crate::outside::chunk_map_new;
use crate::outside::chunk_token_map;
use crate::parser::spec_chunkify;
use dashmap::DashMap;

use super::matrix::TokenMatrix;

verus! {

/// The integer width of a token value.
pub type TknSize = u16;

/// An interned identifier for one chunk string.
#[derive(Hash, Clone, Copy, Debug, PartialEq, Eq, PartialOrd, Ord, Structural)]
pub struct Token(pub TknSize);

impl View for Token {
    type V = u16;

    open spec fn view(&self) -> u16 {
        self.0
    }
}

/// One tokenized dictionary word: the tokens of its chunks in order.
#[derive(Hash, Clone, Debug, PartialEq, Eq)]
pub struct TokenWord(pub Vec<Token>);

impl View for TokenWord {
    type V = Seq<u16>;

    open spec fn view(&self) -> Seq<u16> {
        self.0@.map_values(|t: Token| t.0)
    }
}

impl DeepView for TokenWord {
    type V = Seq<u16>;

    open spec fn deep_view(&self) -> Seq<u16> {
        self.view()
    }
}

impl TokenWord {
    /// An empty token word.
    pub fn new() -> (r: TokenWord)
        ensures
            r@ == Seq::<u16>::empty(),
    {
        let r = TokenWord(vec![]);
        proof {
            assert(r@ =~= Seq::<u16>::empty());
        }
        r
    }

    /// An empty token word with room reserved for `capacity` tokens.
    pub fn with_capacity(capacity: usize) -> (r: TokenWord)
        ensures
            r@ == Seq::<u16>::empty(),
    {
        let r = TokenWord(Vec::with_capacity(capacity));
        proof {
            assert(r@ =~= Seq::<u16>::empty());
        }
        r
    }

    /// Appends one token.
    pub fn push(&mut self, tkn: Token)
        ensures
            final(self)@ == old(self)@.push(tkn.0),
    {
        self.0.push(tkn);
        proof {
            assert(self@ =~= old(self)@.push(tkn.0));
        }
    }

    /// The number of tokens.
    pub fn len(&self) -> (r: usize)
        ensures
            r == self@.len(),
    {
        self.0.len()
    }

    /// The token at position `i`.
    pub fn get(&self, i: usize) -> (r: Token)
        requires
            i < self@.len(),
        ensures
            r.0 == self@[i as int],
    {
        self.0[i]
    }

    /// The same word as a plain vector of token values.
    pub fn to_raw(&self) -> (r: Vec<u16>)
        ensures
            r@ == self@,
    {
        let mut r: Vec<u16> = Vec::with_capacity(self.0.len());
        let mut i: usize = 0;
        while i < self.0.len()
            invariant
                i <= self.0@.len(),
                r@ == self@.take(i as int),
            decreases self.0@.len() - i,
        {
            r.push(self.0[i].0);
            proof {
                assert(r@ =~= self@.take(i + 1));
            }
            i = i + 1;
        }
        proof {
            assert(self@.take(self.0@.len() as int) =~= self@);
        }
        r
    }

    /// A token word made from a plain vector of token values.
    pub fn from_raw(v: Vec<u16>) -> (r: TokenWord)
        ensures
            r@ == v@,
    {
        let mut r = TokenWord::new();
        let mut i: usize = 0;
        while i < v.len()
            invariant
                i <= v@.len(),
                r@ == v@.take(i as int),
            decreases v@.len() - i,
        {
            r.push(Token(v[i]));
            proof {
                assert(v@.take(i as int).push(v@[i as int]) =~= v@.take(i + 1));
            }
            i = i + 1;
        }
        proof {
            assert(v@.take(v@.len() as int) =~= v@);
        }
        r
    }
}

/// The interner: a bijection between the chunk strings seen so far and the
/// token values `0 .. token_count`.
pub struct Tokens {
    encode: DashMap<String, u16>,
    decode: Vec<String>,
}

impl Tokens {
    /// The chunk-to-token map.
    pub closed spec fn enc_map(self) -> Map<Seq<char>, u16> {
        chunk_token_map(self.encode)
    }

    /// The chunk of each token, in token order.
    pub closed spec fn chunks(self) -> Seq<Seq<char>> {
        self.decode.deep_view()
    }

    /// How many tokens have been handed out.
    pub closed spec fn token_count(self) -> nat {
        self.decode.len() as nat
    }

    /// Encode and decode agree and are mutually inverse: every mapped chunk
    /// decodes back to itself, and every token value below the count is the
    /// image of exactly the chunk it decodes to.
    pub open spec fn wf(self) -> bool {
        &&& self.token_count() <= 0xffff
        &&& self.enc_map().dom().finite()
        &&& self.enc_map().dom().len() == self.token_count()
        &&& forall|c: Seq<char>| #[trigger]
            self.enc_map().contains_key(c) ==> self.enc_map()[c] < self.token_count()
                && self.chunks()[self.enc_map()[c] as int] == c
        &&& forall|i: int|
            0 <= i < self.token_count() ==> self.enc_map().contains_key(
                #[trigger] self.chunks()[i],
            ) && self.enc_map()[self.chunks()[i]] == i
    }

    /// A fresh interner with no tokens.
    pub fn new() -> (r: Tokens)
        ensures
            r.wf(),
            r.token_count() == 0,
            forall|c: Seq<char>| !r.enc_map().contains_key(c),
    {
        let r = Tokens { encode: chunk_map_new(), decode: Vec::new() };
        proof {
            assert(r.chunks() =~= Seq::<Seq<char>>::empty());
            assert(r.enc_map().dom() =~= Set::<Seq<char>>::empty());
        }
        r
    }

    /// Hands back the token of `s`, allocating the next unused value when
    /// `s` has not been seen before.
    pub fn insert(&mut self, s: String) -> (t: Token)
        requires
            old(self).wf(),
            old(self).token_count() < 0xffff || old(self).enc_map().contains_key(s@),
        ensures
            final(self).wf(),
            final(self).enc_map().contains_key(s@),
            t.0 == final(self).enc_map()[s@],
            t.0 < final(self).token_count(),
            final(self).chunks()[t.0 as int] == s@,
            old(self).enc_map().contains_key(s@) ==> *final(self) == *old(self) && t.0 == old(
                self,
            ).enc_map()[s@],
            !old(self).enc_map().contains_key(s@) ==> {
                &&& t.0 == old(self).token_count()
                &&& final(self).enc_map() == old(self).enc_map().insert(s@, t.0)
                &&& final(self).chunks() == old(self).chunks().push(s@)
                &&& final(self).token_count() == old(self).token_count() + 1
            },
    {
        match chunk_map_get(&self.encode, s.as_str()) {
            Some(t) => Token(t),
            None => {
                let new_tkn: u16 = self.decode.len() as u16;
                chunk_map_insert(&mut self.encode, s.clone(), new_tkn);
                self.decode.push(s);
                proof {
                    assert(self.chunks() =~= old(self).chunks().push(s@));
                    assert(self.enc_map().dom() =~= old(self).enc_map().dom().insert(s@));
                    let oldm = old(self).enc_map();
                    let newm = self.enc_map();
                    let n = old(self).token_count();
                    assert forall|c: Seq<char>| #[trigger]
                        newm.contains_key(c) implies newm[c] < self.token_count()
                        && self.chunks()[newm[c] as int] == c by {
                        if c != s@ {
                            assert(oldm.contains_key(c));
                            assert(newm[c] == oldm[c]);
                        }
                    }
                    assert forall|i: int|
                        0 <= i < self.token_count() implies newm.contains_key(
                        #[trigger] self.chunks()[i],
                    ) && newm[self.chunks()[i]] == i by {
                        if i < n {
                            assert(self.chunks()[i] == old(self).chunks()[i]);
                            assert(oldm.contains_key(old(self).chunks()[i]));
                            assert(old(self).chunks()[i] != s@);
                        } else {
                            assert(self.chunks()[i] == s@);
                        }
                    }
                }
                Token(new_tkn)
            },
        }
    }

    /// The number of tokens handed out so far.
    pub fn len(&self) -> (r: TknSize)
        requires
            self.wf(),
        ensures
            r == self.token_count(),
    {
        self.decode.len() as u16
    }

    /// Every token of `w` was handed out by this interner.
    pub open spec fn word_valid(self, w: Seq<u16>) -> bool {
        forall|i: int| 0 <= i < w.len() ==> w[i] < self.token_count()
    }

    /// The interner knows every chunk in `chunks`.
    pub open spec fn covers(self, chunks: Seq<Seq<char>>) -> bool {
        forall|i: int| 0 <= i < chunks.len() ==> self.enc_map().contains_key(#[trigger] chunks[i])
    }

    /// The token of each chunk in `chunks`, in order.
    pub open spec fn tok_seq(self, chunks: Seq<Seq<char>>) -> Seq<u16> {
        chunks.map_values(|c: Seq<char>| self.enc_map()[c])
    }

    /// The characters a token word stands for: each token's chunk,
    /// concatenated in order.
    pub open spec fn spec_stringify_word(self, w: Seq<u16>) -> Seq<char> {
        w.map_values(|t: u16| self.chunks()[t as int]).flatten()
    }

    /// The line a grid stands for: each row's chunks concatenated, rows
    /// separated by one space.
    pub open spec fn spec_stringify_rows(self, rows: Seq<Seq<u16>>) -> Seq<char>
        decreases rows.len(),
    {
        if rows.len() == 0 {
            Seq::empty()
        } else if rows.len() == 1 {
            self.spec_stringify_word(rows[0])
        } else {
            self.spec_stringify_rows(rows.drop_last()) + seq![' '] + self.spec_stringify_word(
                rows.last(),
            )
        }
    }

    /// The chunk string a token stands for; nothing when the token was
    /// never handed out by this interner.
    pub fn stringify_token(&self, tkn: Token) -> (r: Option<String>)
        ensures
            r matches Some(s) ==> tkn.0 < self.token_count() && s@ == self.chunks()[tkn.0 as int],
            r is None <==> tkn.0 >= self.token_count(),
    {
        if (tkn.0 as usize) < self.decode.len() {
            Some(self.decode[tkn.0 as usize].clone())
        } else {
            None
        }
    }

    /// Convert a token word into a string: each token's chunk, in order.
    pub fn stringify_token_word(&self, tkn_word: &[Token]) -> (r: String)
        requires
            self.word_valid(tkn_word@.map_values(|t: Token| t.0)),
        ensures
            r@ == self.spec_stringify_word(tkn_word@.map_values(|t: Token| t.0)),
    {
        let ghost w = tkn_word@.map_values(|t: Token| t.0);
        let ghost pieces = w.map_values(|t: u16| self.chunks()[t as int]);
        let mut stringified = String::new();
        let mut i: usize = 0;
        proof {
            assert(pieces.take(0).flatten() =~= Seq::<char>::empty());
        }
        while i < tkn_word.len()
            invariant
                i <= tkn_word@.len(),
                w == tkn_word@.map_values(|t: Token| t.0),
                pieces == w.map_values(|t: u16| self.chunks()[t as int]),
                self.word_valid(w),
                stringified@ == pieces.take(i as int).flatten(),
            decreases tkn_word@.len() - i,
        {
            let tkn = *vstd::slice::slice_index_get(tkn_word, i);
            let word_chunk = match self.stringify_token(tkn) {
                Some(c) => c,
                None => {
                    proof {
                        assert(false);
                    }
                    String::new()
                },
            };
            stringified.append(word_chunk.as_str());
            proof {
                assert(pieces.take(i + 1) =~= pieces.take(i as int) + seq![pieces[i as int]]);
                crate::parser::lemma_flatten_add(pieces.take(i as int), seq![pieces[i as int]]);
                seq![pieces[i as int]].lemma_flatten_one_element();
            }
            i = i + 1;
        }
        proof {
            assert(pieces.take(pieces.len() as int) =~= pieces);
        }
        stringified
    }

    /// Convert a token matrix into one line: each row's chunks
    /// concatenated, rows separated by one space.
    pub fn stringify_token_matrix(&self, tkn_matrix: TokenMatrix, chunk_size: usize) -> (r: String)
        requires
            tkn_matrix.wf(),
            tkn_matrix.filled() >= 1,
            forall|i: int|
                0 <= i < tkn_matrix.filled() ==> self.word_valid(#[trigger] tkn_matrix.row(i)),
        ensures
            r@ == self.spec_stringify_rows(tkn_matrix.rows_model()),
    {
        let _ = chunk_size;
        let ghost rows_m = tkn_matrix.rows_model();
        let word_rows = tkn_matrix.rows();
        proof {
            assert(word_rows@.len() == rows_m.len());
            assert(word_rows@[0].deep_view() == rows_m[0]);
            assert(rows_m[0] == tkn_matrix.row(0));
        }
        let mut output = self.stringify_token_word(word_rows[0].0.as_slice());
        proof {
            assert(word_rows[0].0@.map_values(|t: Token| t.0) == rows_m[0]);
            assert(rows_m.take(1).drop_last() =~= Seq::<Seq<u16>>::empty());
            assert(rows_m.take(1)[0] == rows_m[0]);
            assert(output@ == self.spec_stringify_rows(rows_m.take(1)));
        }
        let mut i: usize = 1;
        while i < word_rows.len()
            invariant
                1 <= i <= word_rows@.len(),
                word_rows.deep_view() == rows_m,
                rows_m == tkn_matrix.rows_model(),
                forall|k: int| 0 <= k < rows_m.len() ==> self.word_valid(#[trigger] rows_m[k]),
                output@ == self.spec_stringify_rows(rows_m.take(i as int)),
            decreases word_rows@.len() - i,
        {
            output.append(" ");
            proof {
                reveal_strlit(" ");
                assert(word_rows@[i as int].deep_view() == rows_m[i as int]);
                assert(word_rows[i as int].0@.map_values(|t: Token| t.0) == rows_m[i as int]);
            }
            let word_str = self.stringify_token_word(word_rows[i].0.as_slice());
            output.append(word_str.as_str());
            proof {
                assert(rows_m.take(i + 1).drop_last() =~= rows_m.take(i as int));
                assert(rows_m.take(i + 1).last() == rows_m[i as int]);
                assert(" "@ =~= seq![' ']);
                assert(output@ == self.spec_stringify_rows(rows_m.take(i + 1)));
            }
            i = i + 1;
        }
        proof {
            assert(rows_m.take(rows_m.len() as int) =~= rows_m);
        }
        output
    }

    /// Tokenize a string: its chunks looked up in order; nothing when some
    /// chunk is not in the vocabulary.
    pub fn tokenize_str(&self, s: &str, chunk_size: usize) -> (r: Option<TokenWord>)
        requires
            self.wf(),
            chunk_size >= 1,
        ensures
            r is Some <==> self.covers(spec_chunkify(s@, chunk_size as nat)),
            r matches Some(tw) ==> tw@ == self.tok_seq(spec_chunkify(s@, chunk_size as nat)),
    {
        let chunks = crate::parser::chunkify(s, chunk_size);
        let ghost cv = spec_chunkify(s@, chunk_size as nat);
        let mut tkn_word = TokenWord::with_capacity(chunks.len());
        let mut i: usize = 0;
        while i < chunks.len()
            invariant
                self.wf(),
                i <= chunks@.len(),
                cv == spec_chunkify(s@, chunk_size as nat),
                chunks.deep_view() == cv,
                forall|k: int| 0 <= k < i ==> self.enc_map().contains_key(#[trigger] cv[k]),
                tkn_word@ == self.tok_seq(cv.take(i as int)),
            decreases chunks@.len() - i,
        {
            let got = chunk_map_get(&self.encode, chunks[i].as_str());
            proof {
                assert(chunks.deep_view()[i as int] == cv[i as int]);
            }
            let tkn = match got {
                Some(t) => Token(t),
                None => {
                    proof {
                        assert(!self.enc_map().contains_key(cv[i as int]));
                        assert(0 <= i < cv.len());
                        assert(!self.covers(cv));
                    }
                    return None;
                },
            };
            tkn_word.push(tkn);
            proof {
                assert(tkn_word@ =~= self.tok_seq(cv.take(i + 1)));
            }
            i = i + 1;
        }
        proof {
            assert(cv.take(cv.len() as int) =~= cv);
        }
        Some(tkn_word)
    }
}

/// The interner stays a bijection: two chunks with the same token are the
/// same chunk, and every known chunk decodes back to itself.
pub proof fn lemma_token_bijection(t: Tokens)
    requires
        t.wf(),
    ensures
        forall|c1: Seq<char>, c2: Seq<char>|
            t.enc_map().contains_key(c1) && t.enc_map().contains_key(c2)
                && #[trigger] t.enc_map()[c1] == #[trigger] t.enc_map()[c2] ==> c1 == c2,
        forall|c: Seq<char>| #[trigger]
            t.enc_map().contains_key(c) ==> t.chunks()[t.enc_map()[c] as int] == c,
{
}

} // verus!
