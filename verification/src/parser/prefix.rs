//! The prefix computation on chunked words kept as strings, before
//! tokenization.
use vstd::prelude::*;

use super::ChunkyWord;

verus! {

/// Takes the chunkified words up to some row of the grid and returns the
/// prefix string that the word in the next row must start with: from every
/// given word, the chunk standing in the column of the row about to be
/// placed, concatenated. Empty when the words have no chunk in that column.
pub fn next_prefix(chunky_word_vec: &[ChunkyWord]) -> (r: String)
    requires
        ({
            let dv = chunky_word_vec.deep_view();
            (dv.len() > 0 && dv[0].len() > dv.len()) ==> forall|i: int|
                0 <= i < dv.len() ==> (#[trigger] dv[i]).len() > dv.len()
        }),
    ensures
        ({
            let dv = chunky_word_vec.deep_view();
            let n = dv.len() as int;
            if n == 0 || dv[0].len() <= n {
                r@ == Seq::<char>::empty()
            } else {
                r@ == Seq::new(n as nat, |i: int| dv[i][n]).flatten()
            }
        }),
{
    let ghost dv = chunky_word_vec.deep_view();
    let ghost n = dv.len() as int;
    let mut prefix = String::new();
    let words = chunky_word_vec.len();
    proof {
        assert(dv.len() == chunky_word_vec@.len());
    }
    if words == 0 {
        return prefix;
    }
    proof {
        assert(chunky_word_vec@[0].deep_view() == dv[0]);
    }
    if vstd::slice::slice_index_get(chunky_word_vec, 0).len() <= words {
        return prefix;
    }
    let ghost pieces = Seq::new(n as nat, |i: int| dv[i][n]);
    let mut i: usize = 0;
    proof {
        assert(pieces.take(0).flatten() =~= Seq::<char>::empty());
    }
    while i < words
        invariant
            dv == chunky_word_vec.deep_view(),
            n == dv.len(),
            words == n,
            n > 0,
            forall|k: int| 0 <= k < n ==> (#[trigger] dv[k]).len() > n,
            pieces == Seq::new(n as nat, |j: int| dv[j][n]),
            i <= words,
            prefix@ == pieces.take(i as int).flatten(),
        decreases words - i,
    {
        let word = vstd::slice::slice_index_get(chunky_word_vec, i);
        proof {
            assert(chunky_word_vec@[i as int].deep_view() == dv[i as int]);
            assert(word@[words as int]@ == dv[i as int][n]);
        }
        prefix.append(word[words].as_str());
        proof {
            assert(pieces.take(i + 1) =~= pieces.take(i as int) + seq![pieces[i as int]]);
            crate::parser::lemma_flatten_add(pieces.take(i as int), seq![pieces[i as int]]);
            seq![pieces[i as int]].lemma_flatten_one_element();
        }
        i = i + 1;
    }
    proof {
        assert(pieces.take(n) =~= pieces);
    }
    prefix
}

} // verus!
