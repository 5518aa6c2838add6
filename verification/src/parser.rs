//! Turning dictionary words into chunked form: a word is cut into
//! consecutive pieces of `chunk_size` characters, the last piece shorter
//! when the length is not a multiple.
use vstd::prelude::*;

use self::matrix::TokenMatrix;
use self::token::TokenWord;

pub mod matrix;
pub mod prefix;
pub mod token;
pub mod wordfilter;

verus! {

/// One dictionary word split into chunk strings.
pub type ChunkyWord = Vec<String>;

/// A plain word list.
pub type WordDict = Vec<String>;

/// A chunked word list.
pub type ChunkyWordDict = Vec<ChunkyWord>;

/// The chunks of `s`: consecutive pieces of `k` characters, the last piece
/// shorter when `s` does not divide evenly. Empty when `k == 0`.
pub open spec fn spec_chunkify(s: Seq<char>, k: nat) -> Seq<Seq<char>>
    decreases s.len(),
{
    if k == 0 || s.len() == 0 {
        Seq::empty()
    } else if s.len() <= k {
        seq![s]
    } else {
        seq![s.take(k as int)] + spec_chunkify(s.skip(k as int), k)
    }
}

/// Concatenating the chunks of any string gives the string back; in
/// particular so for strings whose length is a multiple of the chunk size.
pub proof fn lemma_chunkify_round_trip(s: Seq<char>, k: nat)
    requires
        k >= 1,
    ensures
        spec_chunkify(s, k).flatten() == s,
    decreases s.len(),
{
    if s.len() == 0 {
        assert(spec_chunkify(s, k).flatten() =~= s);
    } else if s.len() <= k {
        spec_chunkify(s, k).lemma_flatten_one_element();
        assert(spec_chunkify(s, k).flatten() =~= s);
    } else {
        let head = s.take(k as int);
        let tail = s.skip(k as int);
        lemma_chunkify_round_trip(tail, k);
        assert(spec_chunkify(s, k) == seq![head] + spec_chunkify(tail, k));
        lemma_flatten_add(seq![head], spec_chunkify(tail, k));
        seq![head].lemma_flatten_one_element();
        assert(spec_chunkify(s, k).flatten() =~= s);
    }
}

/// Flattening distributes over concatenation.
pub proof fn lemma_flatten_add(a: Seq<Seq<char>>, b: Seq<Seq<char>>)
    ensures
        (a + b).flatten() == a.flatten() + b.flatten(),
    decreases a.len(),
{
    if a.len() == 0 {
        assert(a + b =~= b);
        assert(a.flatten() + b.flatten() =~= b.flatten());
    } else {
        lemma_flatten_add(a.drop_first(), b);
        assert((a + b).drop_first() =~= a.drop_first() + b);
        assert((a + b).flatten() =~= a.flatten() + b.flatten());
    }
}

/// When the word's length is exactly `g * k`, it falls into exactly `g`
/// chunks of exactly `k` characters each.
pub proof fn lemma_chunkify_exact(s: Seq<char>, g: nat, k: nat)
    requires
        k >= 1,
        s.len() == g * k,
    ensures
        spec_chunkify(s, k).len() == g,
        forall|i: int|
            0 <= i < g ==> (#[trigger] spec_chunkify(s, k)[i]) == s.subrange(i * k, i * k + k),
    decreases g,
{
    if g == 0 {
        assert(s.len() == 0) by (nonlinear_arith)
            requires
                s.len() == g * k && g == 0,
        ;
    } else {
        assert(s.len() == g * k);
        assert(g * k >= 1 * k) by (nonlinear_arith)
            requires
                g >= 1 && k >= 1,
        ;
        if g == 1 {
            assert(s.len() == k) by (nonlinear_arith)
                requires
                    s.len() == g * k && g == 1,
            ;
            assert(spec_chunkify(s, k) == seq![s]);
            assert(s == s.subrange(0, k as int));
        } else {
            assert(s.len() > k) by (nonlinear_arith)
                requires
                    s.len() == g * k && g >= 2 && k >= 1,
            ;
            let tail = s.skip(k as int);
            assert(tail.len() == (g - 1) * k) by (nonlinear_arith)
                requires
                    tail.len() == s.len() - k && s.len() == g * k && g >= 1,
            ;
            lemma_chunkify_exact(tail, (g - 1) as nat, k);
            assert forall|i: int| 0 <= i < g implies (#[trigger] spec_chunkify(s, k)[i])
                == s.subrange(i * k, i * k + k) by {
                if i == 0 {
                    assert(s.take(k as int) =~= s.subrange(0 * (k as int), 0 * (k as int) + k));
                } else {
                    assert(spec_chunkify(s, k)[i] == spec_chunkify(tail, k)[i - 1]);
                    assert(spec_chunkify(tail, k)[i - 1] == tail.subrange(
                        (i - 1) * k,
                        (i - 1) * k + k,
                    ));
                    assert((i - 1) * k == i * k - k) by (nonlinear_arith);
                    assert(1 * k <= i * k && i * k <= (g - 1) * k) by (nonlinear_arith)
                        requires
                            1 <= i && i <= g - 1 && k >= 1,
                    ;
                    assert(tail.subrange(i * k - k, i * k) =~= s.subrange(i * k, i * k + k));
                }
            }
        }
    }
}

/// Chunking one word with chunk size `k`, as a function value.
pub open spec fn chunkify_fn(k: nat) -> spec_fn(Seq<char>) -> Seq<Seq<char>> {
    |w: Seq<char>| spec_chunkify(w, k)
}

/// Falling into exactly `g` chunks, as a predicate value.
pub open spec fn chunks_pred(g: nat) -> spec_fn(Seq<Seq<char>>) -> bool {
    |cw: Seq<Seq<char>>| cw.len() == g
}

/// The chunked dictionary: every word chunked, keeping exactly those that
/// fall into `g` chunks.
pub open spec fn spec_chunkify_dict(dict: Seq<Seq<char>>, g: nat, k: nat) -> Seq<Seq<Seq<char>>> {
    dict.map_values(chunkify_fn(k)).filter(chunks_pred(g))
}

/// Cuts `word` into consecutive chunks of `chunk_size` characters; the last
/// chunk is shorter when the length is not a multiple of `chunk_size`.
pub fn chunkify(word: &str, chunk_size: usize) -> (r: ChunkyWord)
    requires
        chunk_size >= 1,
    ensures
        r.deep_view() == spec_chunkify(word@, chunk_size as nat),
{
    let n = word.unicode_len();
    let mut chunks: ChunkyWord = Vec::new();
    let mut i: usize = 0;
    proof {
        assert(word@.skip(0) =~= word@);
        assert(chunks.deep_view() =~= Seq::<Seq<char>>::empty());
        assert(Seq::<Seq<char>>::empty() + spec_chunkify(word@, chunk_size as nat)
            =~= spec_chunkify(word@, chunk_size as nat));
    }
    while i < n
        invariant
            chunk_size >= 1,
            i <= n,
            n == word@.len(),
            chunks.deep_view() + spec_chunkify(word@.skip(i as int), chunk_size as nat)
                == spec_chunkify(word@, chunk_size as nat),
        decreases n - i,
    {
        let ghost prev = chunks.deep_view();
        let ghost rest = word@.skip(i as int);
        let end: usize = if n - i < chunk_size {
            n
        } else {
            i + chunk_size
        };
        let piece = word.substring_char(i, end);
        chunks.push(piece.to_owned());
        proof {
            assert(chunks.deep_view() =~= prev.push(piece@));
            if rest.len() <= chunk_size {
                assert(rest =~= word@.subrange(i as int, n as int));
                assert(spec_chunkify(rest, chunk_size as nat) == seq![rest]);
                assert(piece@ == rest);
                assert(word@.skip(end as int).len() == 0);
                assert(prev.push(piece@) + spec_chunkify(
                    word@.skip(end as int),
                    chunk_size as nat,
                ) =~= prev + seq![rest]);
                assert(prev + seq![rest] =~= prev + spec_chunkify(rest, chunk_size as nat));
            } else {
                assert(spec_chunkify(rest, chunk_size as nat) == seq![
                    rest.take(chunk_size as int),
                ] + spec_chunkify(rest.skip(chunk_size as int), chunk_size as nat));
                assert(piece@ == word@.subrange(i as int, end as int));
                assert(rest.take(chunk_size as int) =~= piece@);
                assert(rest.skip(chunk_size as int) =~= word@.skip(end as int));
                assert(prev.push(piece@) + spec_chunkify(word@.skip(end as int), chunk_size as nat)
                    =~= prev + spec_chunkify(rest, chunk_size as nat));
            }
        }
        i = end;
    }
    proof {
        assert(word@.skip(n as int).len() == 0);
        assert(spec_chunkify(word@.skip(n as int), chunk_size as nat) =~= Seq::empty());
        assert(chunks.deep_view() + Seq::<Seq<char>>::empty() =~= chunks.deep_view());
    }
    chunks
}

/// Chunks every dictionary word and keeps exactly those words that fall
/// into `grid_size` chunks.
pub fn chunkify_dict(word_dictionary: &WordDict, grid_size: usize, chunk_size: usize) -> (r:
    ChunkyWordDict)
    requires
        chunk_size >= 1,
    ensures
        r.deep_view() == spec_chunkify_dict(
            word_dictionary.deep_view(),
            grid_size as nat,
            chunk_size as nat,
        ),
{
    let ghost dv = word_dictionary.deep_view();
    let ghost g = grid_size as nat;
    let ghost k = chunk_size as nat;
    let mut r: ChunkyWordDict = Vec::new();
    let mut i: usize = 0;
    proof {
        assert(dv.take(0) =~= Seq::<Seq<char>>::empty());
        assert(spec_chunkify_dict(dv.take(0), g, k) =~= Seq::<Seq<Seq<char>>>::empty());
        assert(r.deep_view() =~= Seq::<Seq<Seq<char>>>::empty());
    }
    while i < word_dictionary.len()
        invariant
            chunk_size >= 1,
            g == grid_size as nat,
            k == chunk_size as nat,
            i <= dv.len(),
            dv == word_dictionary.deep_view(),
            r.deep_view() == spec_chunkify_dict(dv.take(i as int), g, k),
        decreases dv.len() - i,
    {
        let ghost prev = r.deep_view();
        let word = &word_dictionary[i];
        let chunky_word = chunkify(word.as_str(), chunk_size);
        proof {
            broadcast use vstd::prelude::Seq::lemma_filter_push, vstd::prelude::Seq::lemma_push_map_commute;

            assert(word@ == dv[i as int]);
            assert(chunky_word.deep_view() == spec_chunkify(dv[i as int], k));
            assert(dv.take(i + 1) =~= dv.take(i as int).push(dv[i as int]));
            if spec_chunkify(dv[i as int], k).len() == g {
                assert(spec_chunkify_dict(dv.take(i + 1), g, k) == spec_chunkify_dict(
                    dv.take(i as int),
                    g,
                    k,
                ).push(spec_chunkify(dv[i as int], k)));
            } else {
                assert(spec_chunkify_dict(dv.take(i + 1), g, k) == spec_chunkify_dict(
                    dv.take(i as int),
                    g,
                    k,
                ));
            }
        }
        if chunky_word.len() == grid_size {
            r.push(chunky_word);
            proof {
                assert(r.deep_view() =~= prev.push(spec_chunkify(dv[i as int], k)));
            }
        }
        i = i + 1;
    }
    proof {
        assert(dv.take(dv.len() as int) =~= dv);
    }
    r
}

/// Keeps only the words of exactly `grid` characters and reorders the
/// list: what stays is exactly the words of that length.
pub fn len_filter(word_dictionary: &mut WordDict, grid: usize)
    ensures
        final(word_dictionary).deep_view().to_multiset() == old(
            word_dictionary,
        ).deep_view().filter(|w: Seq<char>| w.len() == grid).to_multiset(),
{
    let ghost dv = old(word_dictionary).deep_view();
    let mut kept: WordDict = Vec::new();
    let mut i: usize = 0;
    proof {
        assert(dv.take(0) =~= Seq::<Seq<char>>::empty());
        assert(dv.take(0).filter(|w: Seq<char>| w.len() == grid) =~= Seq::<Seq<char>>::empty());
        assert(kept.deep_view() =~= Seq::<Seq<char>>::empty());
    }
    while i < word_dictionary.len()
        invariant
            i <= dv.len(),
            dv == word_dictionary.deep_view(),
            kept.deep_view() == dv.take(i as int).filter(|w: Seq<char>| w.len() == grid),
        decreases dv.len() - i,
    {
        let ghost prev = kept.deep_view();
        let word = &word_dictionary[i];
        proof {
            broadcast use vstd::prelude::Seq::lemma_filter_push;

            assert(word@ == dv[i as int]);
            assert(dv.take(i + 1) =~= dv.take(i as int).push(dv[i as int]));
        }
        if word.as_str().unicode_len() == grid {
            kept.push(word.clone());
            proof {
                assert(kept.deep_view() =~= prev.push(dv[i as int]));
            }
        }
        i = i + 1;
    }
    proof {
        assert(dv.take(dv.len() as int) =~= dv);
    }
    *word_dictionary = kept;
    crate::outside::sort_strings(word_dictionary);
}

/// The prefix that the next row of a partially filled matrix must start
/// with: from every filled row, the token standing in the column of the
/// row about to be placed. Empty when the matrix has no room for another
/// row.
pub fn next_prefix(solution_matrix: &TokenMatrix) -> (r: TokenWord)
    requires
        solution_matrix.wf(),
        solution_matrix.filled() >= 1,
    ensures
        solution_matrix.cap() <= solution_matrix.filled() ==> r@ == Seq::<u16>::empty(),
        solution_matrix.filled() < solution_matrix.cap() ==> r@ == Seq::new(
            solution_matrix.filled(),
            |i: int| solution_matrix.row(i)[solution_matrix.filled() as int],
        ),
{
    let mut prefix = TokenWord::new();
    let words = solution_matrix.len();
    proof {
        assert(1 * solution_matrix.cap() <= solution_matrix.filled() * solution_matrix.cap())
            by (nonlinear_arith)
            requires
                1 <= solution_matrix.filled() && solution_matrix.cap() >= 1,
        ;
    }
    let first_row = solution_matrix.get_row(0);
    proof {
        assert(solution_matrix.row(0).len() == solution_matrix.cap());
        assert(first_row@.len() == solution_matrix.cap());
    }
    if first_row.len() <= words {
        return prefix;
    }
    let rows = solution_matrix.rows();
    let mut i: usize = 0;
    while i < rows.len()
        invariant
            solution_matrix.wf(),
            words == solution_matrix.filled(),
            words < solution_matrix.cap(),
            rows.deep_view() == solution_matrix.rows_model(),
            i <= rows@.len(),
            prefix@.len() == i,
            forall|j: int|
                0 <= j < i ==> prefix@[j] == solution_matrix.row(j)[words as int],
        decreases rows@.len() - i,
    {
        proof {
            assert(rows@.len() == rows.deep_view().len());
            assert(rows@.len() == solution_matrix.filled());
            assert(rows@[i as int].deep_view() == solution_matrix.rows_model()[i as int]);
            assert(rows@[i as int]@ == solution_matrix.row(i as int));
            assert((i + 1) * solution_matrix.cap() <= solution_matrix.filled()
                * solution_matrix.cap()) by (nonlinear_arith)
                requires
                    i + 1 <= solution_matrix.filled() && solution_matrix.cap() >= 1,
            ;
            assert((i + 1) * solution_matrix.cap() == i * solution_matrix.cap()
                + solution_matrix.cap() && 0 <= i * solution_matrix.cap()) by (nonlinear_arith)
                requires
                    0 <= i,
            ;
            assert(solution_matrix.row(i as int).len() == solution_matrix.cap());
        }
        let prefix_piece = rows[i].get(words);
        prefix.push(prefix_piece);
        i = i + 1;
    }
    proof {
        assert(rows@.len() == rows.deep_view().len());
        assert(rows@.len() == solution_matrix.filled());
        assert(prefix@ =~= Seq::new(
            solution_matrix.filled(),
            |i: int| solution_matrix.row(i)[solution_matrix.filled() as int],
        ));
    }
    prefix
}

} // verus!
