//! The prefix index over the tokenized dictionary, its cache, and the
//! backtracking search for symmetric grids.
use vstd::prelude::*;

use crate::outside::prefix_table;
use crate::outside::table_get;
use crate::outside::table_insert;
use crate::outside::table_new;
use crate::outside::trie_descendant_keys;
use crate::outside::trie_insert;
use crate::outside::trie_new;
use crate::outside::trie_words;
use dashmap::DashMap;
use radix_trie::Trie;

use super::chunkify_dict;
use super::matrix::TokenMatrix;
use super::spec_chunkify_dict;
use super::token::TokenWord;
use super::token::Tokens;
use super::ChunkyWordDict;
use super::WordDict;

verus! {

/// A chunk appearing anywhere in a sequence of sequences appears in the
/// flattened sequence.
pub proof fn lemma_flatten_member<A>(ss: Seq<Seq<A>>, i: int, j: int)
    requires
        0 <= i < ss.len(),
        0 <= j < ss[i].len(),
    ensures
        ss.flatten().contains(ss[i][j]),
    decreases ss.len(),
{
    if i == 0 {
        assert(ss.flatten() == ss[0] + ss.drop_first().flatten());
        assert(ss.flatten()[j] == ss[0][j]);
    } else {
        lemma_flatten_member(ss.drop_first(), i - 1, j);
        let rest = ss.drop_first().flatten();
        let x = choose|x: int| 0 <= x < rest.len() && rest[x] == ss[i][j];
        assert(ss.flatten() == ss[0] + rest);
        assert(ss.flatten()[ss[0].len() + x] == ss[i][j]);
    }
}

/// A grown interner that kept every earlier chunk keeps every earlier
/// token word unchanged.
proof fn lemma_tok_seq_stable(t1: Tokens, t2: Tokens, chunks: Seq<Seq<char>>)
    requires
        t1.covers(chunks),
        forall|c: Seq<char>| #[trigger]
            t1.enc_map().contains_key(c) ==> t2.enc_map().contains_key(c) && t2.enc_map()[c]
                == t1.enc_map()[c],
    ensures
        t2.covers(chunks),
        t2.tok_seq(chunks) == t1.tok_seq(chunks),
{
    assert(t2.tok_seq(chunks) =~= t1.tok_seq(chunks));
}

/// The prefix index: the tokenized dictionary held in a trie for
/// "all words extending this prefix" queries, beside the interner that
/// assigned the tokens.
pub struct PrefixMap {
    tokens: Tokens,
    trie: Trie<Vec<u16>, ()>,
    grid_size: usize,
    chunk_size: usize,
    use_table: bool,
}

impl PrefixMap {
    /// The set of tokenized dictionary words held by the index.
    pub closed spec fn words(self) -> Set<Seq<u16>> {
        trie_words(self.trie)
    }

    /// The interner the index was built with.
    pub closed spec fn interner(self) -> Tokens {
        self.tokens
    }

    /// The grid side length.
    pub closed spec fn g(self) -> nat {
        self.grid_size as nat
    }

    /// The chunk length in characters.
    pub closed spec fn k(self) -> nat {
        self.chunk_size as nat
    }

    /// Whether queries go through the cache table.
    pub closed spec fn cached(self) -> bool {
        self.use_table
    }

    /// The interner is a bijection, every indexed word has exactly one
    /// token per grid row and only known tokens, and a grid of tokens
    /// fits a flat buffer.
    pub open spec fn wf(self) -> bool {
        &&& self.interner().wf()
        &&& self.k() >= 1
        &&& self.g() * self.g() <= usize::MAX
        &&& forall|w: Seq<u16>| #[trigger]
            self.words().contains(w) ==> w.len() == self.g() && self.interner().word_valid(w)
    }
}

impl PrefixMap {
    /// Builds the index: chunks the dictionary, keeps the words of exactly
    /// `grid_size` chunks, interns every chunk, and stores each tokenized
    /// word in the trie. The interner afterwards knows exactly the chunks
    /// of the kept words, and the index holds exactly their token words.
    pub fn new(dict: &WordDict, grid_size: usize, chunk_size: usize, use_table: bool) -> (r:
        PrefixMap)
        requires
            chunk_size >= 1,
            grid_size * grid_size <= usize::MAX,
            spec_chunkify_dict(
                dict.deep_view(),
                grid_size as nat,
                chunk_size as nat,
            ).flatten().to_set().len() <= 0xffff,
        ensures
            r.wf(),
            r.g() == grid_size as nat,
            r.k() == chunk_size as nat,
            r.cached() == use_table,
            forall|x: int|
                0 <= x < spec_chunkify_dict(
                    dict.deep_view(),
                    grid_size as nat,
                    chunk_size as nat,
                ).len() ==> r.interner().covers(
                    #[trigger] spec_chunkify_dict(
                        dict.deep_view(),
                        grid_size as nat,
                        chunk_size as nat,
                    )[x],
                ),
            forall|w: Seq<u16>| #[trigger]
                r.words().contains(w) <==> exists|x: int|
                    0 <= x < spec_chunkify_dict(
                        dict.deep_view(),
                        grid_size as nat,
                        chunk_size as nat,
                    ).len() && w == r.interner().tok_seq(
                        spec_chunkify_dict(
                            dict.deep_view(),
                            grid_size as nat,
                            chunk_size as nat,
                        )[x],
                    ),
            forall|c: Seq<char>| #[trigger]
                r.interner().enc_map().contains_key(c) ==> spec_chunkify_dict(
                    dict.deep_view(),
                    grid_size as nat,
                    chunk_size as nat,
                ).flatten().to_set().contains(c),
    {
        let ghost g = grid_size as nat;
        let ghost k = chunk_size as nat;
        let ghost cd = spec_chunkify_dict(dict.deep_view(), g, k);
        let ghost vocab = cd.flatten().to_set();
        let mut tokens = Tokens::new();
        let chunky_dict: ChunkyWordDict = chunkify_dict(dict, grid_size, chunk_size);
        let mut trie = trie_new();
        let mut i: usize = 0;
        while i < chunky_dict.len()
            invariant
                chunk_size >= 1,
                g == grid_size as nat,
                k == chunk_size as nat,
                cd == spec_chunkify_dict(dict.deep_view(), g, k),
                cd == chunky_dict.deep_view(),
                vocab == cd.flatten().to_set(),
                vocab.len() <= 0xffff,
                i <= cd.len(),
                tokens.wf(),
                forall|c: Seq<char>| #[trigger]
                    tokens.enc_map().contains_key(c) ==> vocab.contains(c),
                forall|x: int| 0 <= x < i ==> tokens.covers(#[trigger] cd[x]),
                forall|w: Seq<u16>| #[trigger]
                    trie_words(trie).contains(w) <==> exists|x: int|
                        0 <= x < i && w == tokens.tok_seq(#[trigger] cd[x]),
            decreases cd.len() - i,
        {
            let cw = &chunky_dict[i];
            proof {
                assert(chunky_dict@[i as int].deep_view() == cd[i as int]);
            }
            let mut tw: Vec<u16> = Vec::new();
            let mut j: usize = 0;
            proof {
                assert(tw@ =~= tokens.tok_seq(cd[i as int].take(0)));
            }
            while j < cw.len()
                invariant
                    g == grid_size as nat,
                    k == chunk_size as nat,
                    cd == spec_chunkify_dict(dict.deep_view(), g, k),
                    vocab == cd.flatten().to_set(),
                    vocab.len() <= 0xffff,
                    i < cd.len(),
                    cw.deep_view() == cd[i as int],
                    j <= cd[i as int].len(),
                    tokens.wf(),
                    forall|c: Seq<char>| #[trigger]
                        tokens.enc_map().contains_key(c) ==> vocab.contains(c),
                    forall|x: int| 0 <= x < i ==> tokens.covers(#[trigger] cd[x]),
                    forall|w: Seq<u16>| #[trigger]
                        trie_words(trie).contains(w) <==> exists|x: int|
                            0 <= x < i && w == tokens.tok_seq(#[trigger] cd[x]),
                    tokens.covers(cd[i as int].take(j as int)),
                    tw@ == tokens.tok_seq(cd[i as int].take(j as int)),
                decreases cd[i as int].len() - j,
            {
                let ghost before = tokens;
                let ghost c = cd[i as int][j as int];
                proof {
                    assert(cw@[j as int]@ == c);
                    if !tokens.enc_map().contains_key(c) {
                        lemma_flatten_member(cd, i as int, j as int);
                        assert(vocab.contains(c));
                        assert(tokens.enc_map().dom().insert(c).subset_of(vocab));
                        vstd::set_lib::lemma_len_subset(tokens.enc_map().dom().insert(c), vocab);
                        assert(tokens.token_count() < 0xffff);
                    }
                }
                let t = tokens.insert(cw[j].clone());
                tw.push(t.0);
                proof {
                    assert forall|c2: Seq<char>| #[trigger]
                        before.enc_map().contains_key(c2) implies tokens.enc_map().contains_key(c2)
                        && tokens.enc_map()[c2] == before.enc_map()[c2] by {}
                    assert forall|x: int| 0 <= x < i implies tokens.covers(#[trigger] cd[x]) by {
                        lemma_tok_seq_stable(before, tokens, cd[x]);
                    }
                    assert forall|w: Seq<u16>| #[trigger]
                        trie_words(trie).contains(w) <==> exists|x: int|
                            0 <= x < i && w == tokens.tok_seq(#[trigger] cd[x]) by {
                        assert forall|x: int| 0 <= x < i implies tokens.tok_seq(cd[x])
                            == before.tok_seq(cd[x]) by {
                            lemma_tok_seq_stable(before, tokens, cd[x]);
                        }
                    }
                    lemma_tok_seq_stable(before, tokens, cd[i as int].take(j as int));
                    assert(cd[i as int].take(j + 1) =~= cd[i as int].take(j as int).push(c));
                    assert(tw@ =~= tokens.tok_seq(cd[i as int].take(j + 1)));
                }
                j = j + 1;
            }
            proof {
                assert(cd[i as int].take(cd[i as int].len() as int) =~= cd[i as int]);
            }
            let ghost trie_before = trie_words(trie);
            let ghost new_word = tw@;
            trie_insert(&mut trie, tw);
            proof {
                assert(new_word == tokens.tok_seq(cd[i as int]));
                assert forall|w: Seq<u16>| #[trigger]
                    trie_words(trie).contains(w) <==> exists|x: int|
                        0 <= x < i + 1 && w == tokens.tok_seq(#[trigger] cd[x]) by {
                    if trie_words(trie).contains(w) {
                        if w == new_word {
                            assert(w == tokens.tok_seq(cd[i as int]));
                        } else {
                            assert(trie_before.contains(w));
                        }
                    }
                    if exists|x: int| 0 <= x < i + 1 && w == tokens.tok_seq(#[trigger] cd[x]) {
                        let x = choose|x: int|
                            0 <= x < i + 1 && w == tokens.tok_seq(#[trigger] cd[x]);
                        if x == i {
                            assert(trie_words(trie).contains(new_word));
                        } else {
                            assert(trie_before.contains(w));
                        }
                    }
                }
            }
            i = i + 1;
        }
        let r = PrefixMap { tokens, trie, grid_size, chunk_size, use_table };
        proof {
            assert(cd.take(cd.len() as int) =~= cd);
            assert forall|w: Seq<u16>| #[trigger]
                r.words().contains(w) implies w.len() == r.g() && r.interner().word_valid(w) by {
                let x = choose|x: int| 0 <= x < cd.len() && w == r.interner().tok_seq(cd[x]);
                vstd::prelude::Seq::lemma_filter_pred(
                    dict.deep_view().map_values(|w0: Seq<char>| crate::parser::spec_chunkify(w0, k)),
                    |cw0: Seq<Seq<char>>| cw0.len() == g,
                    x,
                );
                assert(cd[x].len() == g);
            }
        }
        r
    }
}

/// The memoized descendant queries: a map from a prefix to the words that
/// extend it, filled on the first miss.
pub struct PrefixCache {
    table: DashMap<Vec<u16>, Vec<Vec<u16>>>,
}

impl PrefixCache {
    /// The cached queries.
    pub closed spec fn entries(self) -> Map<Seq<u16>, Seq<Seq<u16>>> {
        prefix_table(self.table)
    }

    /// Every entry holds exactly the index's answer for its prefix: the
    /// indexed words that the prefix is a prefix of.
    pub open spec fn wf(self, pm: PrefixMap) -> bool {
        forall|p: Seq<u16>| #[trigger]
            self.entries().contains_key(p) ==> forall|w: Seq<u16>| #[trigger]
                self.entries()[p].contains(w) <==> (pm.words().contains(w) && p.is_prefix_of(w))
    }

    /// A fresh, empty cache.
    pub fn new() -> (r: PrefixCache)
        ensures
            forall|pm: PrefixMap| r.wf(pm),
            forall|p: Seq<u16>| !r.entries().contains_key(p),
    {
        PrefixCache { table: table_new() }
    }

    /// The cached answer for a prefix, when one is stored.
    pub fn get(&self, key: &TokenWord) -> (r: Option<Vec<TokenWord>>)
        ensures
            r matches Some(v) ==> self.entries().contains_key(key@) && v.deep_view()
                == self.entries()[key@],
            r is None <==> !self.entries().contains_key(key@),
    {
        let raw = key.to_raw();
        match table_get(&self.table, &raw) {
            Some(v) => Some(raw_to_words(v)),
            None => None,
        }
    }
}

/// Plain token vectors wrapped as token words, views kept.
fn raw_to_words(v: Vec<Vec<u16>>) -> (r: Vec<TokenWord>)
    ensures
        r.deep_view() == v.deep_view(),
{
    let mut r: Vec<TokenWord> = Vec::new();
    let mut i: usize = 0;
    proof {
        assert(r.deep_view() =~= v.deep_view().take(0));
    }
    while i < v.len()
        invariant
            i <= v@.len(),
            r.deep_view() == v.deep_view().take(i as int),
        decreases v@.len() - i,
    {
        let ghost prev = r.deep_view();
        proof {
            assert(v@[i as int]@ == v.deep_view()[i as int]);
        }
        let cl = v[i].clone();
        proof {
            assert(cl@ =~= v@[i as int]@);
            assert(v.deep_view()[i as int] =~= v@[i as int]@);
        }
        r.push(TokenWord::from_raw(cl));
        proof {
            assert(r.deep_view() =~~= prev.push(v.deep_view()[i as int]));
            assert(prev.push(v.deep_view()[i as int]) =~= v.deep_view().take(i + 1));
        }
        i = i + 1;
    }
    proof {
        assert(v.deep_view().take(v@.len() as int) =~= v.deep_view());
    }
    r
}

/// Token words unwrapped to plain token vectors, views kept.
fn words_to_raw(v: &Vec<TokenWord>) -> (r: Vec<Vec<u16>>)
    ensures
        r.deep_view() == v.deep_view(),
{
    let mut r: Vec<Vec<u16>> = Vec::new();
    let mut i: usize = 0;
    proof {
        assert(r.deep_view() =~= v.deep_view().take(0));
    }
    while i < v.len()
        invariant
            i <= v@.len(),
            r.deep_view() == v.deep_view().take(i as int),
        decreases v@.len() - i,
    {
        let ghost prev = r.deep_view();
        proof {
            assert(v@[i as int].deep_view() == v.deep_view()[i as int]);
        }
        r.push(v[i].to_raw());
        proof {
            assert(r.deep_view() =~~= prev.push(v.deep_view()[i as int]));
            assert(prev.push(v.deep_view()[i as int]) =~= v.deep_view().take(i + 1));
        }
        i = i + 1;
    }
    proof {
        assert(v.deep_view().take(v@.len() as int) =~= v.deep_view());
    }
    r
}

impl PrefixMap {
    /// All indexed words that the given prefix is a prefix of, straight
    /// from the trie.
    pub fn get_prefix_words(&self, prefix: &TokenWord) -> (r: Vec<TokenWord>)
        requires
            self.wf(),
        ensures
            forall|w: Seq<u16>| #[trigger]
                r.deep_view().contains(w) <==> (self.words().contains(w) && prefix@.is_prefix_of(
                    w,
                )),
    {
        let raw = prefix.to_raw();
        let keys = trie_descendant_keys(&self.trie, &raw);
        let r = raw_to_words(keys);
        proof {
            assert forall|w: Seq<u16>| #[trigger]
                r.deep_view().contains(w) <==> (self.words().contains(w) && prefix@.is_prefix_of(
                    w,
                )) by {
                assert(r.deep_view() == keys.deep_view());
            }
        }
        r
    }

    /// The cached answer for a prefix, when the cache stores one.
    pub fn get(&self, cache: &PrefixCache, key: &TokenWord) -> (r: Option<Vec<TokenWord>>)
        ensures
            r matches Some(v) ==> cache.entries().contains_key(key@) && v.deep_view()
                == cache.entries()[key@],
            r is None <==> !cache.entries().contains_key(key@),
    {
        cache.get(key)
    }

    /// All indexed words that the given prefix is a prefix of, answered
    /// from the cache when the same prefix was asked before, and stored
    /// there after a miss: the same set as an uncached query.
    pub fn get_prefix_words_table(&self, cache: &mut PrefixCache, prefix: &TokenWord) -> (r: Vec<
        TokenWord,
    >)
        requires
            self.wf(),
            old(cache).wf(*self),
        ensures
            final(cache).wf(*self),
            forall|w: Seq<u16>| #[trigger]
                r.deep_view().contains(w) <==> (self.words().contains(w) && prefix@.is_prefix_of(
                    w,
                )),
    {
        match cache.get(prefix) {
            Some(chunky_words) => {
                proof {
                    assert(cache.entries().contains_key(prefix@));
                }
                chunky_words
            },
            None => {
                let prefixes = self.get_prefix_words(prefix);
                let ghost before = cache.entries();
                table_insert(&mut cache.table, prefix.to_raw(), words_to_raw(&prefixes));
                proof {
                    assert(cache.entries() =~= before.insert(prefix@, prefixes.deep_view()));
                    assert forall|p: Seq<u16>| #[trigger]
                        cache.entries().contains_key(p) implies forall|w: Seq<u16>| #[trigger]
                        cache.entries()[p].contains(w) <==> (self.words().contains(w)
                            && p.is_prefix_of(w)) by {
                        if p != prefix@ {
                            assert(before.contains_key(p));
                        }
                    }
                }
                prefixes
            },
        }
    }
}

/// Every cell below the diagonal equals its mirror above it.
pub open spec fn grid_symmetric(m: Seq<Seq<u16>>) -> bool {
    forall|i: int, j: int| 0 <= j < i < m.len() ==> m[i][j] == m[j][i]
}

/// A full symmetric grid extending the partial grid `p`: as many rows as
/// `g`, each of `g` tokens, agreeing with `p` on its rows, every later row
/// an indexed word, and symmetric.
pub open spec fn is_completion(
    words: Set<Seq<u16>>,
    g: nat,
    p: Seq<Seq<u16>>,
    m: Seq<Seq<u16>>,
) -> bool {
    &&& m.len() == g
    &&& forall|i: int| 0 <= i < g ==> (#[trigger] m[i]).len() == g
    &&& p.len() <= g
    &&& forall|i: int| 0 <= i < p.len() ==> m[i] == p[i]
    &&& forall|i: int| p.len() <= i < g ==> words.contains(#[trigger] m[i])
    &&& grid_symmetric(m)
}

/// A full symmetric grid with `first` as its first row and an indexed
/// word in every later row.
pub open spec fn is_solution(
    words: Set<Seq<u16>>,
    first: Seq<u16>,
    g: nat,
    m: Seq<Seq<u16>>,
) -> bool {
    &&& g >= 1
    &&& m.len() == g
    &&& forall|i: int| 0 <= i < g ==> (#[trigger] m[i]).len() == g
    &&& m[0] == first
    &&& forall|i: int| 1 <= i < g ==> words.contains(#[trigger] m[i])
    &&& grid_symmetric(m)
}

/// A full symmetric grid every one of whose rows is an indexed word.
pub open spec fn all_rows_solution(words: Set<Seq<u16>>, g: nat, m: Seq<Seq<u16>>) -> bool {
    &&& m.len() == g
    &&& forall|i: int| 0 <= i < g ==> (#[trigger] m[i]).len() == g
    &&& forall|i: int| 0 <= i < g ==> words.contains(#[trigger] m[i])
    &&& grid_symmetric(m)
}

/// Growing a partial grid by one row keeps exactly the same completions:
/// a grid completes `p` exactly when its next row is an indexed word
/// starting with the prefix that `p`'s columns force, and the grid
/// completes `p` extended by that row.
pub proof fn lemma_completion_step(
    words: Set<Seq<u16>>,
    g: nat,
    p: Seq<Seq<u16>>,
    prefix: Seq<u16>,
    m: Seq<Seq<u16>>,
)
    requires
        p.len() < g,
        forall|i: int| 0 <= i < p.len() ==> (#[trigger] p[i]).len() == g,
        prefix == Seq::new(p.len(), |i: int| p[i][p.len() as int]),
    ensures
        is_completion(words, g, p, m) <==> (exists|w: Seq<u16>|
            (#[trigger] words.contains(w)) && prefix.is_prefix_of(w) && is_completion(
                words,
                g,
                p.push(w),
                m,
            )),
{
    let r = p.len() as int;
    if is_completion(words, g, p, m) {
        let w = m[r];
        assert(words.contains(w));
        assert forall|i: int| 0 <= i < r implies prefix[i] == w[i] by {
            assert(m[r][i] == m[i][r]);
            assert(m[i] == p[i]);
        }
        assert(prefix =~= w.subrange(0, r));
        assert(prefix.is_prefix_of(w));
        assert forall|i: int| 0 <= i < p.push(w).len() implies m[i] == p.push(w)[i] by {}
        assert(is_completion(words, g, p.push(w), m));
    }
    if exists|w: Seq<u16>|
        (#[trigger] words.contains(w)) && prefix.is_prefix_of(w) && is_completion(
            words,
            g,
            p.push(w),
            m,
        ) {
        let w = choose|w: Seq<u16>|
            (#[trigger] words.contains(w)) && prefix.is_prefix_of(w) && is_completion(
                words,
                g,
                p.push(w),
                m,
            );
        assert(m[r] == p.push(w)[r]);
        assert forall|i: int| r <= i < g implies words.contains(#[trigger] m[i]) by {
            if i == r {
                assert(m[r] == w);
            }
        }
        assert(is_completion(words, g, p, m));
    }
}

/// A full well-formed matrix passes the cell-level symmetry test exactly
/// when its rows form a symmetric grid: the matrix is square by
/// construction, and each stored cell mirrors its transpose.
pub proof fn lemma_full_matrix_symmetry(m: TokenMatrix)
    requires
        m.wf(),
        m.filled() == m.cap(),
    ensures
        m.spec_symmetric() <==> grid_symmetric(m.rows_model()),
{
    crate::parser::matrix::lemma_wf_matrix_cells(m);
    let p = m.rows_model();
    if m.spec_symmetric() {
        assert forall|i: int, j: int| 0 <= j < i < p.len() implies p[i][j] == p[j][i] by {
            assert(m.opt_cell(i, j) == m.opt_cell(j, i));
            assert(m.opt_cell(i, j) == Some(p[i][j]));
            assert(m.opt_cell(j, i) == Some(p[j][i]));
        }
    }
    if grid_symmetric(p) {
        assert forall|i: int, j: int|
            0 <= j < i < m.cap() implies m.opt_cell(i, j) == m.opt_cell(j, i) by {
            assert(p[i][j] == p[j][i]);
            assert(m.opt_cell(i, j) == Some(p[i][j]));
            assert(m.opt_cell(j, i) == Some(p[j][i]));
        }
    }
}

/// One backtracking step: with at least the first row placed, appends to
/// `solution_set` exactly the symmetric completions of the rows placed so
/// far, and leaves the matrix as it found it.
fn backtrack(
    pm: &PrefixMap,
    cache: &mut PrefixCache,
    solution_matrix: &mut TokenMatrix,
    solution_set: &mut Vec<TokenMatrix>,
)
    requires
        pm.wf(),
        old(cache).wf(*pm),
        old(solution_matrix).wf(),
        old(solution_matrix).cap() == pm.g(),
        1 <= old(solution_matrix).filled(),
    ensures
        final(cache).wf(*pm),
        final(solution_matrix).flat() == old(solution_matrix).flat(),
        final(solution_matrix).cap() == old(solution_matrix).cap(),
        forall|m: Seq<Seq<u16>>| #[trigger]
            final(solution_set).deep_view().contains(m) <==> (old(
                solution_set,
            ).deep_view().contains(m) || is_completion(
                pm.words(),
                pm.g(),
                old(solution_matrix).rows_model(),
                m,
            )),
        forall|x: int|
            0 <= x < old(solution_set)@.len() ==> final(solution_set)@[x] == old(solution_set)@[x],
        old(solution_set)@.len() <= final(solution_set)@.len(),
        forall|x: int|
            old(solution_set)@.len() <= x < final(solution_set)@.len()
                ==> (#[trigger] final(solution_set)@[x]).wf()
                && final(solution_set)@[x].cap() == pm.g()
                && final(solution_set)@[x].filled() == pm.g(),
    decreases pm.g() - solution_matrix.filled(),
{
    let ghost words = pm.words();
    let ghost g = pm.g();
    let ghost p = solution_matrix.rows_model();
    proof {
        crate::parser::matrix::lemma_wf_matrix_cells(*solution_matrix);
    }
    if solution_matrix.is_full() {
        let is_sym = solution_matrix.is_symmetric();
        proof {
            assert(p.len() == g);
            lemma_full_matrix_symmetry(*solution_matrix);
            assert(is_sym == grid_symmetric(p));
        }
        if is_sym {
            let copy = solution_matrix.clone();
            let ghost before = solution_set.deep_view();
            proof {
                assert(copy.rows_model() =~= p);
            }
            solution_set.push(copy);
            proof {
                assert(solution_set.deep_view() =~= before.push(p));
                assert forall|m: Seq<Seq<u16>>| #[trigger]
                    solution_set.deep_view().contains(m) <==> (before.contains(m)
                        || is_completion(words, g, p, m)) by {
                    if solution_set.deep_view().contains(m) {
                        let x = choose|x: int|
                            0 <= x < solution_set.deep_view().len() && solution_set.deep_view()[x]
                                == m;
                        if x < before.len() {
                            assert(before.contains(m));
                        } else {
                            assert(m == p);
                            assert(is_completion(words, g, p, p));
                        }
                    }
                    if before.contains(m) {
                        let x = choose|x: int| 0 <= x < before.len() && before[x] == m;
                        assert(solution_set.deep_view()[x] == m);
                        assert(solution_set.deep_view().contains(m));
                    }
                    if is_completion(words, g, p, m) {
                        assert(m =~= p);
                        assert(solution_set.deep_view()[before.len() as int] == p);
                        assert(solution_set.deep_view().contains(m));
                    }
                }
            }
        } else {
            proof {
                assert forall|m: Seq<Seq<u16>>| !is_completion(words, g, p, m) by {
                    if is_completion(words, g, p, m) {
                        assert(m =~= p);
                        assert(grid_symmetric(p));
                    }
                }
            }
        }
        return ;
    }
    proof {
        assert(solution_matrix.filled() < g);
    }
    let prefix = crate::parser::next_prefix(solution_matrix);
    let ghost pr = prefix@;
    proof {
        assert(pr =~= Seq::new(p.len(), |i: int| p[i][p.len() as int]));
    }
    let prefixed_words = if pm.use_table {
        pm.get_prefix_words_table(cache, &prefix)
    } else {
        pm.get_prefix_words(&prefix)
    };
    let ghost cands = prefixed_words.deep_view();
    let ghost entry_flat = solution_matrix.flat();
    let mut i: usize = 0;
    while i < prefixed_words.len()
        invariant
            pm.wf(),
            cache.wf(*pm),
            words == pm.words(),
            g == pm.g(),
            solution_matrix.wf(),
            solution_matrix.cap() == pm.g(),
            1 <= solution_matrix.filled() < pm.g(),
            solution_matrix.flat() == entry_flat,
            entry_flat == old(solution_matrix).flat(),
            p == solution_matrix.rows_model(),
            p == old(solution_matrix).rows_model(),
            p.len() == solution_matrix.filled(),
            forall|x: int| 0 <= x < p.len() ==> (#[trigger] p[x]).len() == g,
            pr == Seq::new(p.len(), |x: int| p[x][p.len() as int]),
            cands == prefixed_words.deep_view(),
            forall|w: Seq<u16>| #[trigger]
                cands.contains(w) <==> (words.contains(w) && pr.is_prefix_of(w)),
            i <= cands.len(),
            forall|m: Seq<Seq<u16>>| #[trigger]
                solution_set.deep_view().contains(m) <==> (old(
                    solution_set,
                ).deep_view().contains(m) || exists|x: int|
                    0 <= x < i && is_completion(words, g, p.push(#[trigger] cands[x]), m)),
            forall|x: int|
                0 <= x < old(solution_set)@.len() ==> solution_set@[x] == old(solution_set)@[x],
            old(solution_set)@.len() <= solution_set@.len(),
            forall|x: int|
                old(solution_set)@.len() <= x < solution_set@.len()
                    ==> (#[trigger] solution_set@[x]).wf() && solution_set@[x].cap() == pm.g()
                    && solution_set@[x].filled() == pm.g(),
        decreases cands.len() - i,
    {
        let cand = TokenWord::from_raw(prefixed_words[i].to_raw());
        proof {
            assert(prefixed_words@[i as int].deep_view() == cands[i as int]);
            assert(cand@ == cands[i as int]);
            assert(cands.contains(cands[i as int]));
            assert(cand@.len() == g);
        }
        let ghost flat_before = solution_matrix.flat();
        let ghost set_before = solution_set.deep_view();
        match solution_matrix.push(cand) {
            Ok(()) => {},
            Err(_) => {
                proof {
                    assert(false);
                }
            },
        }
        proof {
            let f = p.len() as int;
            let cap = g as int;
            assert((f + 1) * cap == f * cap + cap && 0 <= f * cap) by (nonlinear_arith)
                requires
                    0 <= f && cap >= 1,
            ;
            assert(solution_matrix.flat().len() == (f + 1) * cap);
            vstd::arithmetic::div_mod::lemma_div_multiples_vanish(f + 1, cap);
            assert(cap * (f + 1) == (f + 1) * cap) by (nonlinear_arith);
            assert(solution_matrix.filled() == f + 1);
            assert(solution_matrix.wf());
            assert forall|x: int|
                0 <= x < f + 1 implies solution_matrix.row(x) == p.push(cands[i as int])[x] by {
                assert((x + 1) * cap == x * cap + cap && 0 <= x * cap && (x + 1) * cap <= (f + 1)
                    * cap) by (nonlinear_arith)
                    requires
                        0 <= x < f + 1 && cap >= 1,
                ;
                if x < f {
                    assert((x + 1) * cap <= f * cap) by (nonlinear_arith)
                        requires
                            0 <= x < f && cap >= 1,
                    ;
                    assert(p[x] == flat_before.subrange(x * cap, x * cap + cap));
                    assert(solution_matrix.row(x) =~= p[x]);
                } else {
                    assert(solution_matrix.row(f) =~= cands[i as int]);
                }
            }
            assert(solution_matrix.rows_model() =~= p.push(cands[i as int]));
        }
        backtrack(pm, cache, solution_matrix, solution_set);
        let popped = solution_matrix.pop();
        proof {
            assert(popped is Some);
            assert(solution_matrix.flat() =~= flat_before);
            assert(solution_matrix.rows_model() =~= p);
            assert forall|m: Seq<Seq<u16>>| #[trigger]
                solution_set.deep_view().contains(m) <==> (old(
                    solution_set,
                ).deep_view().contains(m) || exists|x: int|
                    0 <= x < i + 1 && is_completion(words, g, p.push(#[trigger] cands[x]), m)) by {
                if solution_set.deep_view().contains(m) {
                    if set_before.contains(m) {
                    } else {
                        assert(is_completion(words, g, p.push(cands[i as int]), m));
                    }
                }
                if exists|x: int|
                    0 <= x < i + 1 && is_completion(words, g, p.push(#[trigger] cands[x]), m) {
                    let x = choose|x: int|
                        0 <= x < i + 1 && is_completion(words, g, p.push(#[trigger] cands[x]), m);
                    if x < i {
                        assert(set_before.contains(m));
                    }
                }
            }
        }
        i = i + 1;
    }
    proof {
        assert forall|m: Seq<Seq<u16>>| #[trigger]
            solution_set.deep_view().contains(m) <==> (old(solution_set).deep_view().contains(m)
                || is_completion(words, g, p, m)) by {
            lemma_completion_step(words, g, p, pr, m);
            if solution_set.deep_view().contains(m) && !old(solution_set).deep_view().contains(m) {
                let x = choose|x: int|
                    0 <= x < cands.len() && is_completion(words, g, p.push(#[trigger] cands[x]), m);
                assert(cands.contains(cands[x]));
                assert(words.contains(cands[x]) && pr.is_prefix_of(cands[x]) && is_completion(
                    words,
                    g,
                    p.push(cands[x]),
                    m,
                ));
            }
            if is_completion(words, g, p, m) {
                let w = choose|w: Seq<u16>|
                    (#[trigger] words.contains(w)) && pr.is_prefix_of(w) && is_completion(
                        words,
                        g,
                        p.push(w),
                        m,
                    );
                assert(cands.contains(w));
                let x = choose|x: int| 0 <= x < cands.len() && cands[x] == w;
                assert(is_completion(words, g, p.push(cands[x]), m));
            }
        }
    }
}

impl PrefixMap {
    /// All solutions with the given word as the first row: every full
    /// symmetric grid whose remaining rows are indexed words, each found
    /// exactly as far as it exists, and none else.
    pub fn symmetric_words_single(&self, word: TokenWord) -> (r: Vec<TokenMatrix>)
        requires
            self.wf(),
            word@.len() == self.g(),
        ensures
            self.g() == 0 ==> r@.len() == 0,
            self.g() >= 1 ==> forall|m: Seq<Seq<u16>>| #[trigger]
                r.deep_view().contains(m) <==> is_solution(self.words(), word@, self.g(), m),
            forall|x: int|
                0 <= x < r@.len() ==> (#[trigger] r@[x]).wf() && r@[x].cap() == self.g()
                    && r@[x].filled() == self.g(),
    {
        let ghost w0 = word@;
        let mut solution_set: Vec<TokenMatrix> = Vec::new();
        if self.grid_size == 0 {
            return solution_set;
        }
        let mut solution_matrix = TokenMatrix::new(self.grid_size);
        let mut cache = PrefixCache::new();
        match solution_matrix.push(word) {
            Ok(()) => {},
            Err(_) => {
                proof {
                    assert(false);
                }
            },
        }
        proof {
            let cap = self.g() as int;
            assert(solution_matrix.flat() =~= w0);
            vstd::arithmetic::div_mod::lemma_div_multiples_vanish(1, cap);
            assert(cap * 1 == 1 * cap) by (nonlinear_arith);
            assert(solution_matrix.filled() == 1);
            assert(solution_matrix.wf());
            assert(solution_matrix.row(0) =~= w0);
            assert(solution_matrix.rows_model() =~= seq![w0]);
            assert(solution_set.deep_view() =~= Seq::<Seq<Seq<u16>>>::empty());
        }
        backtrack(self, &mut cache, &mut solution_matrix, &mut solution_set);
        proof {
            assert forall|m: Seq<Seq<u16>>| #[trigger]
                solution_set.deep_view().contains(m) <==> is_solution(
                    self.words(),
                    w0,
                    self.g(),
                    m,
                ) by {
                assert(!Seq::<Seq<Seq<u16>>>::empty().contains(m));
                if is_completion(self.words(), self.g(), seq![w0], m) {
                    assert(m[0] == seq![w0][0]);
                    assert(is_solution(self.words(), w0, self.g(), m));
                }
                if is_solution(self.words(), w0, self.g(), m) {
                    assert(is_completion(self.words(), self.g(), seq![w0], m));
                }
            }
        }
        solution_set
    }
}

impl PrefixMap {
    /// The line of text a solution matrix stands for, each row's chunks
    /// concatenated and rows separated by one space.
    pub fn stringify_token_matrix(&self, tkn_matrix: TokenMatrix) -> (r: String)
        requires
            self.wf(),
            tkn_matrix.wf(),
            tkn_matrix.filled() >= 1,
            forall|i: int|
                0 <= i < tkn_matrix.filled() ==> self.interner().word_valid(
                    #[trigger] tkn_matrix.row(i),
                ),
        ensures
            r@ == self.interner().spec_stringify_rows(tkn_matrix.rows_model()),
    {
        self.tokens.stringify_token_matrix(tkn_matrix, self.chunk_size)
    }

    /// The tokenized form of a word: its chunks looked up in the
    /// vocabulary; nothing when some chunk is unknown.
    pub fn tokenize_word(&self, word: &str) -> (r: Option<TokenWord>)
        requires
            self.wf(),
        ensures
            r is Some <==> self.interner().covers(
                crate::parser::spec_chunkify(word@, self.k()),
            ),
            r matches Some(tw) ==> tw@ == self.interner().tok_seq(
                crate::parser::spec_chunkify(word@, self.k()),
            ),
    {
        self.tokens.tokenize_str(word, self.chunk_size)
    }
}

/// What a grid of chunk rows reads as: each row's chunks concatenated,
/// rows separated by one space.
pub open spec fn grid_text(ws: Seq<Seq<Seq<char>>>) -> Seq<char>
    decreases ws.len(),
{
    if ws.len() == 0 {
        Seq::empty()
    } else if ws.len() == 1 {
        ws[0].flatten()
    } else {
        grid_text(ws.drop_last()) + seq![' '] + ws.last().flatten()
    }
}

/// Stringifying token rows through the interner reads the same as the
/// chunk rows they were tokenized from.
pub proof fn lemma_stringify_bridge(t: Tokens, ws: Seq<Seq<Seq<char>>>, m: Seq<Seq<u16>>)
    requires
        t.wf(),
        m.len() == ws.len(),
        forall|i: int| 0 <= i < ws.len() ==> t.covers(#[trigger] ws[i]),
        forall|i: int| 0 <= i < ws.len() ==> m[i] == t.tok_seq(#[trigger] ws[i]),
    ensures
        t.spec_stringify_rows(m) == grid_text(ws),
    decreases ws.len(),
{
    if ws.len() == 0 {
    } else {
        assert(t.spec_stringify_word(m[ws.len() - 1]) == ws[ws.len() - 1].flatten()) by {
            let cw = ws[ws.len() - 1];
            let pieces = t.tok_seq(cw).map_values(|tk: u16| t.chunks()[tk as int]);
            assert forall|j: int| 0 <= j < cw.len() implies pieces[j] == cw[j] by {
                assert(t.tok_seq(cw)[j] == t.enc_map()[cw[j]]);
                assert(t.chunks()[t.enc_map()[cw[j]] as int] == cw[j]);
            }
            assert(pieces =~= cw);
        }
        if ws.len() == 1 {
            assert(t.spec_stringify_rows(m) == t.spec_stringify_word(m[0]));
        } else {
            lemma_stringify_bridge(t, ws.drop_last(), m.drop_last());
            assert(m.drop_last().len() == ws.drop_last().len());
            assert(t.spec_stringify_rows(m) == t.spec_stringify_rows(m.drop_last()) + seq![' ']
                + t.spec_stringify_word(m.last()));
        }
    }
}

} // verus!
