//! Search for square grids of dictionary words that are symmetric under
//! transposition when each word is split into fixed-size character chunks:
//! a grid of `grid_size` words is a solution when the chunk at row `i`,
//! column `j` equals the chunk at row `j`, column `i` for every pair.
use vstd::prelude::*;

pub mod matrix;
pub mod outside;
pub mod parser;

use parser::matrix::TokenMatrix;
use parser::spec_chunkify;
use parser::spec_chunkify_dict;
use parser::token::TokenWord;
use parser::wordfilter::all_rows_solution;
use parser::wordfilter::grid_text;
use parser::wordfilter::is_solution;
use parser::wordfilter::lemma_stringify_bridge;
use parser::wordfilter::PrefixMap;
use rayon::prelude::IntoParallelRefIterator;
use rayon::prelude::ParallelIterator;

verus! {

/// Why a single-word query cannot run.
#[derive(Clone, Copy, Debug, PartialEq, Eq, Structural)]
pub enum SearchError {
    /// The query word holds a chunk that the dictionary never uses.
    UnknownChunk,
    /// The query word does not fall into exactly one chunk per grid row.
    WrongLength,
}

impl SearchError {
    /// A short description of the error.
    pub fn message(&self) -> (r: &'static str)
        ensures
            *self == SearchError::UnknownChunk ==> r@ == "a chunk of the word is not in the dictionary's vocabulary"@,
            *self == SearchError::WrongLength ==> r@ == "the word does not have one chunk per grid row"@,
    {
        match self {
            SearchError::UnknownChunk => "a chunk of the word is not in the dictionary's vocabulary",
            SearchError::WrongLength => "the word does not have one chunk per grid row",
        }
    }
}

/// Having exactly `n` characters.
pub open spec fn len_pred(n: nat) -> spec_fn(Seq<char>) -> bool {
    |w: Seq<char>| w.len() == n
}

/// A chunk row drawn from the dictionary: the chunks of some dictionary
/// word of exactly `g * k` characters.
pub open spec fn dict_row(dict: Seq<Seq<char>>, g: nat, k: nat, cw: Seq<Seq<char>>) -> bool {
    exists|x: int|
        0 <= x < dict.len() && (#[trigger] dict[x]).len() == g * k && cw == spec_chunkify(
            dict[x],
            k,
        )
}

/// The chunks that the search's vocabulary holds: every chunk of every
/// dictionary word of exactly `g * k` characters.
pub open spec fn search_vocab(dict: Seq<Seq<char>>, g: nat, k: nat) -> Set<Seq<char>> {
    spec_chunkify_dict(dict.filter(len_pred(g * k)), g, k).flatten().to_set()
}

/// Every chunk of `word` is in the search's vocabulary.
pub open spec fn word_known(dict: Seq<Seq<char>>, g: nat, k: nat, word: Seq<char>) -> bool {
    forall|j: int|
        0 <= j < spec_chunkify(word, k).len() ==> search_vocab(dict, g, k).contains(
            #[trigger] spec_chunkify(word, k)[j],
        )
}

/// The line `s` reads as a symmetric grid of dictionary words: `g` chunk
/// rows, each the chunks of a dictionary word of `g * k` characters, the
/// chunk at row `i`, column `j` equal to the one at row `j`, column `i`,
/// and `s` their text with one space between rows.
pub open spec fn is_string_solution(dict: Seq<Seq<char>>, g: nat, k: nat, s: Seq<char>) -> bool {
    exists|ws: Seq<Seq<Seq<char>>>|
        #![auto]
        {
            &&& ws.len() == g
            &&& (forall|i: int| 0 <= i < g ==> dict_row(dict, g, k, ws[i]))
            &&& (forall|i: int, j: int| 0 <= j < i < g ==> ws[i][j] == ws[j][i])
            &&& s == grid_text(ws)
        }
}

/// The line `s` reads as a symmetric grid whose first row is the chunks
/// of `first` and whose later rows are dictionary words.
pub open spec fn is_first_row_solution(
    dict: Seq<Seq<char>>,
    g: nat,
    k: nat,
    first: Seq<char>,
    s: Seq<char>,
) -> bool {
    exists|ws: Seq<Seq<Seq<char>>>|
        #![auto]
        {
            &&& ws.len() == g
            &&& g >= 1
            &&& ws[0] == spec_chunkify(first, k)
            &&& (forall|i: int| 1 <= i < g ==> dict_row(dict, g, k, ws[i]))
            &&& (forall|i: int, j: int| 0 <= j < i < g ==> ws[i][j] == ws[j][i])
            &&& s == grid_text(ws)
        }
}

/// The chunked form of the length-filtered dictionary holds exactly the
/// chunk rows drawn from the dictionary's words of full length.
proof fn lemma_dict_row_bridge(dv: Seq<Seq<char>>, g: nat, k: nat, cw: Seq<Seq<char>>)
    requires
        k >= 1,
    ensures
        spec_chunkify_dict(dv.filter(len_pred(g * k)), g, k).contains(cw) <==> dict_row(
            dv,
            g,
            k,
            cw,
        ),
{
    let fdv = dv.filter(len_pred(g * k));
    let mapped = fdv.map_values(parser::chunkify_fn(k));
    let cd = spec_chunkify_dict(fdv, g, k);
    if cd.contains(cw) {
        mapped.lemma_filter_contains_rev(parser::chunks_pred(g), cw);
        let y = choose|y: int| 0 <= y < mapped.len() && mapped[y] == cw;
        assert(cw == spec_chunkify(fdv[y], k));
        dv.lemma_filter_pred(len_pred(g * k), y);
        assert(fdv.contains(fdv[y]));
        dv.lemma_filter_contains_rev(len_pred(g * k), fdv[y]);
        let x = choose|x: int| 0 <= x < dv.len() && dv[x] == fdv[y];
        assert(len_pred(g * k)(dv[x]));
        assert(dict_row(dv, g, k, cw));
    }
    if dict_row(dv, g, k, cw) {
        let x = choose|x: int|
            0 <= x < dv.len() && (#[trigger] dv[x]).len() == g * k && cw == spec_chunkify(
                dv[x],
                k,
            );
        assert(len_pred(g * k)(dv[x]));
        dv.lemma_filter_contains(len_pred(g * k), x);
        assert(fdv.contains(dv[x]));
        let y = choose|y: int| 0 <= y < fdv.len() && fdv[y] == dv[x];
        assert(mapped[y] == cw);
        crate::parser::lemma_chunkify_exact(dv[x], g, k);
        assert(parser::chunks_pred(g)(mapped[y]));
        mapped.lemma_filter_contains(parser::chunks_pred(g), y);
        assert(cd.contains(mapped[y]));
    }
}

/// Every element of a flattened sequence of sequences comes from one of
/// the inner sequences.
proof fn lemma_flatten_member_inv<A>(ss: Seq<Seq<A>>, e: A)
    requires
        ss.flatten().contains(e),
    ensures
        exists|x: int, j: int| 0 <= x < ss.len() && 0 <= j < ss[x].len() && ss[x][j] == e,
    decreases ss.len(),
{
    assert(ss.len() > 0);
    assert(ss.flatten() == ss[0] + ss.drop_first().flatten());
    let y = choose|y: int| 0 <= y < ss.flatten().len() && ss.flatten()[y] == e;
    if y < ss[0].len() {
        assert(ss[0][y] == e);
    } else {
        assert(ss.drop_first().flatten()[y - ss[0].len()] == e);
        lemma_flatten_member_inv(ss.drop_first(), e);
        let (x, j) = choose|x: int, j: int|
            0 <= x < ss.drop_first().len() && 0 <= j < ss.drop_first()[x].len()
                && ss.drop_first()[x][j] == e;
        assert(ss[x + 1][j] == e);
    }
}

/// Token solutions and string solutions line up: a line is the
/// stringification of some full symmetric grid of indexed token words
/// exactly when it reads as a symmetric grid of dictionary words.
proof fn lemma_token_string_solutions(pm: PrefixMap, dv: Seq<Seq<char>>, s: Seq<char>)
    requires
        pm.wf(),
        pm.g() >= 1,
        forall|x: int|
            0 <= x < spec_chunkify_dict(dv.filter(len_pred(pm.g() * pm.k())), pm.g(), pm.k()).len()
                ==> pm.interner().covers(
                #[trigger] spec_chunkify_dict(
                    dv.filter(len_pred(pm.g() * pm.k())),
                    pm.g(),
                    pm.k(),
                )[x],
            ),
        forall|w: Seq<u16>| #[trigger]
            pm.words().contains(w) <==> exists|x: int|
                0 <= x < spec_chunkify_dict(
                    dv.filter(len_pred(pm.g() * pm.k())),
                    pm.g(),
                    pm.k(),
                ).len() && w == pm.interner().tok_seq(
                    #[trigger] spec_chunkify_dict(
                        dv.filter(len_pred(pm.g() * pm.k())),
                        pm.g(),
                        pm.k(),
                    )[x],
                ),
    ensures
        (exists|m: Seq<Seq<u16>>|
            #![auto]
            all_rows_solution(pm.words(), pm.g(), m) && s == pm.interner().spec_stringify_rows(m))
            <==> is_string_solution(dv, pm.g(), pm.k(), s),
{
    let g = pm.g();
    let k = pm.k();
    let t = pm.interner();
    let cd = spec_chunkify_dict(dv.filter(len_pred(g * k)), g, k);
    let mapped = dv.filter(len_pred(g * k)).map_values(parser::chunkify_fn(k));
    if exists|m: Seq<Seq<u16>>|
        #![auto]
        all_rows_solution(pm.words(), g, m) && s == t.spec_stringify_rows(m) {
        let m = choose|m: Seq<Seq<u16>>|
            #![auto]
            all_rows_solution(pm.words(), g, m) && s == t.spec_stringify_rows(m);
        let ws = Seq::new(
            g,
            |i: int|
                choose|cw: Seq<Seq<char>>| #[trigger]
                    cd.contains(cw) && m[i] == t.tok_seq(cw),
        );
        assert forall|i: int|
            0 <= i < g implies cd.contains(#[trigger] ws[i]) && m[i] == t.tok_seq(ws[i])
            && t.covers(ws[i]) && ws[i].len() == g by {
            assert(pm.words().contains(m[i]));
            let x = choose|x: int| 0 <= x < cd.len() && m[i] == t.tok_seq(cd[x]);
            assert(cd.contains(cd[x]));
            assert(cd.contains(ws[i]) && m[i] == t.tok_seq(ws[i]));
            let x2 = choose|x2: int| 0 <= x2 < cd.len() && cd[x2] == ws[i];
            assert(t.covers(cd[x2]));
            mapped.lemma_filter_pred(parser::chunks_pred(g), x2);
        }
        assert forall|i: int, j: int| 0 <= j < i < g implies ws[i][j] == ws[j][i] by {
            let a = ws[i][j];
            let b = ws[j][i];
            assert(t.tok_seq(ws[i])[j] == t.enc_map()[a]);
            assert(t.tok_seq(ws[j])[i] == t.enc_map()[b]);
            assert(m[i][j] == m[j][i]);
            assert(t.enc_map().contains_key(a) && t.enc_map().contains_key(b));
            assert(t.chunks()[t.enc_map()[a] as int] == a);
            assert(t.chunks()[t.enc_map()[b] as int] == b);
        }
        assert forall|i: int| 0 <= i < g implies dict_row(dv, g, k, #[trigger] ws[i]) by {
            lemma_dict_row_bridge(dv, g, k, ws[i]);
        }
        lemma_stringify_bridge(t, ws, m);
        assert(s == grid_text(ws));
        assert(is_string_solution(dv, g, k, s));
    }
    if is_string_solution(dv, g, k, s) {
        let ws = choose|ws: Seq<Seq<Seq<char>>>|
            #![auto]
            {
                &&& ws.len() == g
                &&& (forall|i: int| 0 <= i < g ==> dict_row(dv, g, k, ws[i]))
                &&& (forall|i: int, j: int| 0 <= j < i < g ==> ws[i][j] == ws[j][i])
                &&& s == grid_text(ws)
            };
        let m = Seq::new(g, |i: int| t.tok_seq(ws[i]));
        assert forall|i: int|
            0 <= i < g implies t.covers(#[trigger] ws[i]) && pm.words().contains(m[i]) && ws[i].len()
            == g by {
            lemma_dict_row_bridge(dv, g, k, ws[i]);
            assert(cd.contains(ws[i]));
            let x = choose|x: int| 0 <= x < cd.len() && cd[x] == ws[i];
            assert(t.covers(cd[x]));
            assert(m[i] == t.tok_seq(cd[x]));
            mapped.lemma_filter_pred(parser::chunks_pred(g), x);
        }
        assert forall|i: int, j: int| 0 <= j < i < g implies m[i][j] == m[j][i] by {
            assert(m[i][j] == t.enc_map()[ws[i][j]]);
            assert(m[j][i] == t.enc_map()[ws[j][i]]);
        }
        assert forall|i: int| 0 <= i < g implies (#[trigger] m[i]).len() == g by {
            assert(m[i] == t.tok_seq(ws[i]));
        }
        assert(all_rows_solution(pm.words(), g, m));
        lemma_stringify_bridge(t, ws, m);
        assert(s == t.spec_stringify_rows(m));
    }
}

/// The words of exactly `len` characters, in order.
fn filter_words(dictionary: &Vec<String>, len: usize) -> (r: Vec<String>)
    ensures
        r.deep_view() == dictionary.deep_view().filter(len_pred(len as nat)),
{
    let ghost dv = dictionary.deep_view();
    let mut kept: Vec<String> = Vec::new();
    let mut i: usize = 0;
    proof {
        assert(dv.take(0) =~= Seq::<Seq<char>>::empty());
        assert(dv.take(0).filter(len_pred(len as nat)) =~= Seq::<Seq<char>>::empty());
        assert(kept.deep_view() =~= Seq::<Seq<char>>::empty());
    }
    while i < dictionary.len()
        invariant
            i <= dv.len(),
            dv == dictionary.deep_view(),
            kept.deep_view() == dv.take(i as int).filter(len_pred(len as nat)),
        decreases dv.len() - i,
    {
        let ghost prev = kept.deep_view();
        let word = &dictionary[i];
        proof {
            broadcast use vstd::prelude::Seq::lemma_filter_push;

            assert(word@ == dv[i as int]);
            assert(dv.take(i + 1) =~= dv.take(i as int).push(dv[i as int]));
        }
        if word.as_str().unicode_len() == len {
            kept.push(word.clone());
            proof {
                assert(len_pred(len as nat)(dv[i as int]));
                assert(kept.deep_view() =~= prev.push(dv[i as int]));
            }
        } else {
            proof {
                assert(!len_pred(len as nat)(dv[i as int]));
            }
        }
        i = i + 1;
    }
    proof {
        assert(dv.take(dv.len() as int) =~= dv);
    }
    kept
}

/// Runs the single-word solver once for each first-row candidate, in
/// order, and concatenates the solution lists.
fn solve_each(pm: &PrefixMap, first_rows: &Vec<TokenWord>) -> (r: Vec<TokenMatrix>)
    requires
        pm.wf(),
        pm.g() >= 1,
        forall|x: int| 0 <= x < first_rows@.len() ==> (#[trigger] first_rows@[x])@.len() == pm.g(),
    ensures
        forall|m: Seq<Seq<u16>>| #[trigger]
            r.deep_view().contains(m) <==> exists|x: int|
                0 <= x < first_rows@.len() && is_solution(
                    pm.words(),
                    first_rows@[x]@,
                    pm.g(),
                    m,
                ),
        forall|x: int|
            0 <= x < r@.len() ==> (#[trigger] r@[x]).wf() && r@[x].cap() == pm.g()
                && r@[x].filled() == pm.g(),
{
    let mut out: Vec<TokenMatrix> = Vec::new();
    let mut i: usize = 0;
    proof {
        assert(out.deep_view() =~= Seq::<Seq<Seq<u16>>>::empty());
    }
    while i < first_rows.len()
        invariant
            pm.wf(),
            pm.g() >= 1,
            forall|x: int|
                0 <= x < first_rows@.len() ==> (#[trigger] first_rows@[x])@.len() == pm.g(),
            i <= first_rows@.len(),
            forall|m: Seq<Seq<u16>>| #[trigger]
                out.deep_view().contains(m) <==> exists|x: int|
                    0 <= x < i && is_solution(pm.words(), first_rows@[x]@, pm.g(), m),
            forall|x: int|
                0 <= x < out@.len() ==> (#[trigger] out@[x]).wf() && out@[x].cap() == pm.g()
                    && out@[x].filled() == pm.g(),
        decreases first_rows@.len() - i,
    {
        let word = TokenWord::from_raw(first_rows[i].to_raw());
        proof {
            assert(word@ == first_rows@[i as int]@);
        }
        let sols = pm.symmetric_words_single(word);
        let ghost before = out.deep_view();
        let ghost sdv = sols.deep_view();
        let mut j: usize = 0;
        proof {
            assert(before + sdv.take(0) =~= before);
        }
        while j < sols.len()
            invariant
                pm.wf(),
                pm.g() >= 1,
                j <= sols@.len(),
                sdv == sols.deep_view(),
                forall|m: Seq<Seq<u16>>| #[trigger]
                    sdv.contains(m) <==> is_solution(
                        pm.words(),
                        first_rows@[i as int]@,
                        pm.g(),
                        m,
                    ),
                forall|x: int|
                    0 <= x < sols@.len() ==> (#[trigger] sols@[x]).wf() && sols@[x].cap() == pm.g()
                        && sols@[x].filled() == pm.g(),
                out.deep_view() == before + sdv.take(j as int),
                forall|x: int|
                    0 <= x < out@.len() ==> (#[trigger] out@[x]).wf() && out@[x].cap() == pm.g()
                        && out@[x].filled() == pm.g(),
            decreases sols@.len() - j,
        {
            let copy = sols[j].clone();
            proof {
                assert(copy.rows_model() =~= sols@[j as int].rows_model());
                assert(copy.deep_view() == sdv[j as int]);
            }
            let ghost out_prev = out.deep_view();
            out.push(copy);
            proof {
                assert(out.deep_view() =~= out_prev.push(sdv[j as int]));
                assert(out_prev.push(sdv[j as int]) =~= before + sdv.take(j + 1));
            }
            j = j + 1;
        }
        proof {
            assert(sdv.take(sdv.len() as int) =~= sdv);
            assert(out.deep_view() == before + sdv);
            assert forall|m: Seq<Seq<u16>>| #[trigger]
                out.deep_view().contains(m) <==> exists|x: int|
                    0 <= x < i + 1 && is_solution(pm.words(), first_rows@[x]@, pm.g(), m) by {
                if out.deep_view().contains(m) {
                    let y = choose|y: int|
                        0 <= y < out.deep_view().len() && out.deep_view()[y] == m;
                    if y < before.len() {
                        assert(before.contains(m));
                    } else {
                        assert(sdv[y - before.len()] == m);
                        assert(sdv.contains(m));
                        assert(is_solution(pm.words(), first_rows@[i as int]@, pm.g(), m));
                    }
                }
                if exists|x: int| 0 <= x < i + 1 && is_solution(pm.words(), first_rows@[x]@, pm.g(), m) {
                    let x = choose|x: int|
                        0 <= x < i + 1 && is_solution(pm.words(), first_rows@[x]@, pm.g(), m);
                    if x < i {
                        assert(before.contains(m));
                        let y = choose|y: int| 0 <= y < before.len() && before[y] == m;
                        assert(out.deep_view()[y] == m);
                    } else {
                        assert(sdv.contains(m));
                        let y = choose|y: int| 0 <= y < sdv.len() && sdv[y] == m;
                        assert(out.deep_view()[before.len() + y] == m);
                    }
                    assert(out.deep_view().contains(m));
                }
            }
        }
        i = i + 1;
    }
    out
}

/// Relies on rayon's par_iter, flat_map_iter and collect: the collected
/// vector holds the elements of the solver's result for every first-row
/// candidate, and nothing else; what each such result holds is given by
/// the solver's own contract.
#[verifier::external_body]
fn par_solve(pm: &PrefixMap, first_rows: &Vec<TokenWord>) -> (r: Vec<TokenMatrix>)
    requires
        pm.wf(),
        pm.g() >= 1,
        forall|x: int| 0 <= x < first_rows@.len() ==> (#[trigger] first_rows@[x])@.len() == pm.g(),
    ensures
        forall|m: Seq<Seq<u16>>|
            (#[trigger] r.deep_view().contains(m)) <==> (exists|x: int| 0 <= x < first_rows@.len() && is_solution(pm.words(), first_rows@[x]@, pm.g(), m)),
        forall|x: int|
            0 <= x < r@.len() ==> (#[trigger] r@[x]).wf() && r@[x].cap() == pm.g()
                && r@[x].filled() == pm.g(),
{
    first_rows.par_iter().flat_map_iter(
        |word: &TokenWord| pm.symmetric_words_single(TokenWord::from_raw(word.to_raw())),
    ).collect()
}

/// The line of text of every solution matrix, in order.
fn stringify_all(pm: &PrefixMap, sols: &Vec<TokenMatrix>) -> (r: Vec<String>)
    requires
        pm.wf(),
        pm.g() >= 1,
        forall|x: int|
            0 <= x < sols@.len() ==> (#[trigger] sols@[x]).wf() && sols@[x].cap() == pm.g()
                && sols@[x].filled() == pm.g(),
        forall|x: int, i: int|
            0 <= x < sols@.len() && 0 <= i < pm.g() ==> pm.interner().word_valid(
                #[trigger] sols@[x].row(i),
            ),
    ensures
        r.deep_view() == sols@.map_values(
            |t: TokenMatrix| pm.interner().spec_stringify_rows(t.rows_model()),
        ),
{
    let ghost target = sols@.map_values(
        |t: TokenMatrix| pm.interner().spec_stringify_rows(t.rows_model()),
    );
    let mut r: Vec<String> = Vec::new();
    let mut x: usize = 0;
    proof {
        assert(r.deep_view() =~= target.take(0));
    }
    while x < sols.len()
        invariant
            pm.wf(),
            pm.g() >= 1,
            forall|y: int|
                0 <= y < sols@.len() ==> (#[trigger] sols@[y]).wf() && sols@[y].cap() == pm.g()
                    && sols@[y].filled() == pm.g(),
            forall|y: int, i: int|
                0 <= y < sols@.len() && 0 <= i < pm.g() ==> pm.interner().word_valid(
                    #[trigger] sols@[y].row(i),
                ),
            target == sols@.map_values(
                |t: TokenMatrix| pm.interner().spec_stringify_rows(t.rows_model()),
            ),
            x <= sols@.len(),
            r.deep_view() == target.take(x as int),
        decreases sols@.len() - x,
    {
        let copy = sols[x].clone();
        proof {
            assert(copy.rows_model() =~= sols@[x as int].rows_model());
            assert forall|i: int|
                0 <= i < copy.filled() implies pm.interner().word_valid(#[trigger] copy.row(i)) by {
                assert(copy.row(i) =~= sols@[x as int].row(i));
            }
        }
        let line = pm.stringify_token_matrix(copy);
        let ghost prev = r.deep_view();
        r.push(line);
        proof {
            assert(r.deep_view() =~= prev.push(target[x as int]));
            assert(prev.push(target[x as int]) =~= target.take(x + 1));
        }
        x = x + 1;
    }
    proof {
        assert(target.take(target.len() as int) =~= target);
    }
    r
}

/// The full search: every line that reads as a symmetric grid of
/// dictionary words, one line per solution, found serially or fanned out
/// over parallel workers with the same resulting set either way. A grid
/// size of zero yields no solutions at once.
pub fn find_symmetric_grids(
    dictionary: &Vec<String>,
    grid_size: usize,
    chunk_size: usize,
    parallel: bool,
) -> (r: Vec<String>)
    requires
        chunk_size >= 1,
        grid_size * grid_size <= usize::MAX,
        grid_size * chunk_size <= usize::MAX,
        search_vocab(
            dictionary.deep_view(),
            grid_size as nat,
            chunk_size as nat,
        ).len() <= 0xffff,
    ensures
        grid_size == 0 ==> r@.len() == 0,
        grid_size >= 1 ==> forall|s: Seq<char>| #[trigger]
            r.deep_view().contains(s) <==> is_string_solution(
                dictionary.deep_view(),
                grid_size as nat,
                chunk_size as nat,
                s,
            ),
{
    let ghost dv = dictionary.deep_view();
    let ghost g = grid_size as nat;
    let ghost k = chunk_size as nat;
    if grid_size == 0 {
        return Vec::new();
    }
    let word_dictionary = filter_words(dictionary, grid_size * chunk_size);
    proof {
        assert(word_dictionary.deep_view() == dv.filter(len_pred(g * k)));
    }
    let use_table = grid_size > 2;
    let prefix_map = PrefixMap::new(&word_dictionary, grid_size, chunk_size, use_table);
    let empty_prefix = TokenWord::new();
    let first_rows = prefix_map.get_prefix_words(&empty_prefix);
    proof {
        assert forall|w: Seq<u16>| #[trigger]
            first_rows.deep_view().contains(w) <==> prefix_map.words().contains(w) by {
            assert(Seq::<u16>::empty() =~= w.subrange(0, 0));
            assert(empty_prefix@.is_prefix_of(w));
        }
        assert forall|x: int|
            0 <= x < first_rows@.len() implies (#[trigger] first_rows@[x])@.len()
            == prefix_map.g() by {
            assert(first_rows.deep_view()[x] == first_rows@[x]@);
            assert(first_rows.deep_view().contains(first_rows@[x]@));
        }
    }
    let solutions = if parallel {
        par_solve(&prefix_map, &first_rows)
    } else {
        solve_each(&prefix_map, &first_rows)
    };
    proof {
        assert forall|m: Seq<Seq<u16>>| #[trigger]
            solutions.deep_view().contains(m) <==> all_rows_solution(
                prefix_map.words(),
                g,
                m,
            ) by {
            if solutions.deep_view().contains(m) {
                let x = choose|x: int|
                    0 <= x < first_rows@.len() && is_solution(
                        prefix_map.words(),
                        first_rows@[x]@,
                        g,
                        m,
                    );
                assert(first_rows.deep_view()[x] == first_rows@[x]@);
                assert(first_rows.deep_view().contains(first_rows@[x]@));
                assert(prefix_map.words().contains(m[0]));
                assert forall|i: int|
                    0 <= i < g implies prefix_map.words().contains(#[trigger] m[i]) by {
                    if i >= 1 {
                        assert(is_solution(prefix_map.words(), first_rows@[x]@, g, m));
                    }
                }
            }
            if all_rows_solution(prefix_map.words(), g, m) {
                assert(prefix_map.words().contains(m[0]));
                assert(first_rows.deep_view().contains(m[0]));
                let x = choose|x: int|
                    0 <= x < first_rows.deep_view().len() && first_rows.deep_view()[x] == m[0];
                assert(first_rows@[x]@ == m[0]);
                assert(is_solution(prefix_map.words(), first_rows@[x]@, g, m));
            }
        }
        assert forall|x: int, i: int|
            0 <= x < solutions@.len() && 0 <= i < g implies prefix_map.interner().word_valid(
            #[trigger] solutions@[x].row(i),
        ) by {
            let m = solutions@[x].rows_model();
            assert(solutions.deep_view()[x] == m);
            assert(solutions.deep_view().contains(m));
            assert(all_rows_solution(prefix_map.words(), g, m));
            assert(m[i] == solutions@[x].row(i));
            assert(prefix_map.words().contains(m[i]));
        }
    }
    let result = stringify_all(&prefix_map, &solutions);
    proof {
        let target = solutions@.map_values(
            |t: TokenMatrix| prefix_map.interner().spec_stringify_rows(t.rows_model()),
        );
        assert forall|s: Seq<char>| #[trigger]
            result.deep_view().contains(s) <==> is_string_solution(dv, g, k, s) by {
            lemma_token_string_solutions(prefix_map, dv, s);
            if result.deep_view().contains(s) {
                let x = choose|x: int| 0 <= x < target.len() && target[x] == s;
                let m = solutions@[x].rows_model();
                assert(solutions.deep_view()[x] == m);
                assert(solutions.deep_view().contains(m));
                assert(all_rows_solution(prefix_map.words(), g, m));
                assert(s == prefix_map.interner().spec_stringify_rows(m));
            }
            if is_string_solution(dv, g, k, s) {
                let m = choose|m: Seq<Seq<u16>>|
                    #![auto]
                    all_rows_solution(prefix_map.words(), g, m) && s
                        == prefix_map.interner().spec_stringify_rows(m);
                assert(solutions.deep_view().contains(m));
                let x = choose|x: int|
                    0 <= x < solutions.deep_view().len() && solutions.deep_view()[x] == m;
                assert(target[x] == s);
                assert(result.deep_view()[x] == s);
                assert(result.deep_view().contains(s));
            }
        }
    }
    result
}

/// Token solutions with a fixed first row and first-row string solutions
/// line up, when the first row's chunks are all in the vocabulary and
/// number one per grid row.
proof fn lemma_token_first_row_solutions(
    pm: PrefixMap,
    dv: Seq<Seq<char>>,
    word: Seq<char>,
    tw: Seq<u16>,
    s: Seq<char>,
)
    requires
        pm.wf(),
        pm.g() >= 1,
        forall|x: int|
            0 <= x < spec_chunkify_dict(dv.filter(len_pred(pm.g() * pm.k())), pm.g(), pm.k()).len()
                ==> pm.interner().covers(
                #[trigger] spec_chunkify_dict(
                    dv.filter(len_pred(pm.g() * pm.k())),
                    pm.g(),
                    pm.k(),
                )[x],
            ),
        forall|w: Seq<u16>| #[trigger]
            pm.words().contains(w) <==> exists|x: int|
                0 <= x < spec_chunkify_dict(
                    dv.filter(len_pred(pm.g() * pm.k())),
                    pm.g(),
                    pm.k(),
                ).len() && w == pm.interner().tok_seq(
                    #[trigger] spec_chunkify_dict(
                        dv.filter(len_pred(pm.g() * pm.k())),
                        pm.g(),
                        pm.k(),
                    )[x],
                ),
        pm.interner().covers(spec_chunkify(word, pm.k())),
        tw == pm.interner().tok_seq(spec_chunkify(word, pm.k())),
        spec_chunkify(word, pm.k()).len() == pm.g(),
    ensures
        (exists|m: Seq<Seq<u16>>|
            #![auto]
            is_solution(pm.words(), tw, pm.g(), m) && s == pm.interner().spec_stringify_rows(m))
            <==> is_first_row_solution(dv, pm.g(), pm.k(), word, s),
{
    let g = pm.g();
    let k = pm.k();
    let t = pm.interner();
    let cw = spec_chunkify(word, k);
    let cd = spec_chunkify_dict(dv.filter(len_pred(g * k)), g, k);
    let mapped = dv.filter(len_pred(g * k)).map_values(parser::chunkify_fn(k));
    if exists|m: Seq<Seq<u16>>|
        #![auto]
        is_solution(pm.words(), tw, g, m) && s == t.spec_stringify_rows(m) {
        let m = choose|m: Seq<Seq<u16>>|
            #![auto]
            is_solution(pm.words(), tw, g, m) && s == t.spec_stringify_rows(m);
        let ws = Seq::new(
            g,
            |i: int|
                if i == 0 {
                    cw
                } else {
                    choose|cw2: Seq<Seq<char>>| #[trigger]
                        cd.contains(cw2) && m[i] == t.tok_seq(cw2)
                },
        );
        assert forall|i: int|
            0 <= i < g implies m[i] == t.tok_seq(#[trigger] ws[i]) && t.covers(ws[i]) && ws[i].len()
            == g by {
            if i == 0 {
                assert(ws[0] == cw);
                assert(m[0] == tw);
            } else {
                assert(pm.words().contains(m[i]));
                let x = choose|x: int| 0 <= x < cd.len() && m[i] == t.tok_seq(cd[x]);
                assert(cd.contains(cd[x]));
                assert(cd.contains(ws[i]) && m[i] == t.tok_seq(ws[i]));
                let x2 = choose|x2: int| 0 <= x2 < cd.len() && cd[x2] == ws[i];
                assert(t.covers(cd[x2]));
                mapped.lemma_filter_pred(parser::chunks_pred(g), x2);
            }
        }
        assert forall|i: int, j: int| 0 <= j < i < g implies ws[i][j] == ws[j][i] by {
            let a = ws[i][j];
            let b = ws[j][i];
            assert(t.tok_seq(ws[i])[j] == t.enc_map()[a]);
            assert(t.tok_seq(ws[j])[i] == t.enc_map()[b]);
            assert(m[i][j] == m[j][i]);
            assert(t.enc_map().contains_key(a) && t.enc_map().contains_key(b));
            assert(t.chunks()[t.enc_map()[a] as int] == a);
            assert(t.chunks()[t.enc_map()[b] as int] == b);
        }
        assert forall|i: int| 1 <= i < g implies dict_row(dv, g, k, #[trigger] ws[i]) by {
            assert(pm.words().contains(m[i]));
            let x = choose|x: int| 0 <= x < cd.len() && m[i] == t.tok_seq(cd[x]);
            assert(cd.contains(cd[x]));
            assert(cd.contains(ws[i]));
            lemma_dict_row_bridge(dv, g, k, ws[i]);
        }
        lemma_stringify_bridge(t, ws, m);
        assert(ws[0] == cw);
        assert(is_first_row_solution(dv, g, k, word, s));
    }
    if is_first_row_solution(dv, g, k, word, s) {
        let ws = choose|ws: Seq<Seq<Seq<char>>>|
            #![auto]
            {
                &&& ws.len() == g
                &&& g >= 1
                &&& ws[0] == spec_chunkify(word, k)
                &&& (forall|i: int| 1 <= i < g ==> dict_row(dv, g, k, ws[i]))
                &&& (forall|i: int, j: int| 0 <= j < i < g ==> ws[i][j] == ws[j][i])
                &&& s == grid_text(ws)
            };
        let m = Seq::new(g, |i: int| t.tok_seq(ws[i]));
        assert forall|i: int|
            0 <= i < g implies t.covers(#[trigger] ws[i]) && ws[i].len() == g && (i >= 1
            ==> pm.words().contains(m[i])) by {
            if i == 0 {
                assert(ws[0] == cw);
            } else {
                lemma_dict_row_bridge(dv, g, k, ws[i]);
                assert(cd.contains(ws[i]));
                let x = choose|x: int| 0 <= x < cd.len() && cd[x] == ws[i];
                assert(t.covers(cd[x]));
                assert(m[i] == t.tok_seq(cd[x]));
                mapped.lemma_filter_pred(parser::chunks_pred(g), x);
            }
        }
        assert forall|i: int, j: int| 0 <= j < i < g implies m[i][j] == m[j][i] by {
            assert(m[i][j] == t.enc_map()[ws[i][j]]);
            assert(m[j][i] == t.enc_map()[ws[j][i]]);
        }
        assert forall|i: int| 0 <= i < g implies (#[trigger] m[i]).len() == g by {
            assert(m[i] == t.tok_seq(ws[i]));
        }
        assert(m[0] == tw);
        assert(is_solution(pm.words(), tw, g, m));
        lemma_stringify_bridge(t, ws, m);
        assert(s == t.spec_stringify_rows(m));
    }
}

/// The search restricted to one first-row word: every line that reads as
/// a symmetric grid whose first row is that word and whose later rows are
/// dictionary words. Refused when a chunk of the word is outside the
/// dictionary's vocabulary, or when the word does not fall into one chunk
/// per grid row.
pub fn find_symmetric_grids_for_word(
    dictionary: &Vec<String>,
    word: &str,
    grid_size: usize,
    chunk_size: usize,
) -> (r: Result<Vec<String>, SearchError>)
    requires
        chunk_size >= 1,
        grid_size * grid_size <= usize::MAX,
        grid_size * chunk_size <= usize::MAX,
        search_vocab(
            dictionary.deep_view(),
            grid_size as nat,
            chunk_size as nat,
        ).len() <= 0xffff,
    ensures
        grid_size == 0 ==> (r matches Ok(v) && v@.len() == 0),
        grid_size >= 1 ==> {
            &&& (r is Err <==> (!word_known(
                dictionary.deep_view(),
                grid_size as nat,
                chunk_size as nat,
                word@,
            ) || spec_chunkify(word@, chunk_size as nat).len() != grid_size))
            &&& (r matches Err(e) ==> ((e == SearchError::UnknownChunk) <==> !word_known(
                dictionary.deep_view(),
                grid_size as nat,
                chunk_size as nat,
                word@,
            )))
            &&& (r matches Ok(v) ==> forall|s: Seq<char>| #[trigger]
                v.deep_view().contains(s) <==> is_first_row_solution(
                    dictionary.deep_view(),
                    grid_size as nat,
                    chunk_size as nat,
                    word@,
                    s,
                ))
        },
{
    let ghost dv = dictionary.deep_view();
    let ghost g = grid_size as nat;
    let ghost k = chunk_size as nat;
    if grid_size == 0 {
        return Ok(Vec::new());
    }
    let word_dictionary = filter_words(dictionary, grid_size * chunk_size);
    proof {
        assert(word_dictionary.deep_view() == dv.filter(len_pred(g * k)));
    }
    let use_table = grid_size > 4;
    let prefix_map = PrefixMap::new(&word_dictionary, grid_size, chunk_size, use_table);
    proof {
        let cw = spec_chunkify(word@, k);
        let cd = spec_chunkify_dict(dv.filter(len_pred(g * k)), g, k);
        assert forall|j: int|
            0 <= j < cw.len() implies (prefix_map.interner().enc_map().contains_key(
            #[trigger] cw[j],
        ) <==> search_vocab(dv, g, k).contains(cw[j])) by {
            if search_vocab(dv, g, k).contains(cw[j]) {
                assert(cd.flatten().contains(cw[j]));
                lemma_flatten_member_inv(cd, cw[j]);
                let (x, j2) = choose|x: int, j2: int|
                    0 <= x < cd.len() && 0 <= j2 < cd[x].len() && cd[x][j2] == cw[j];
                assert(prefix_map.interner().covers(cd[x]));
            }
        }
        assert(prefix_map.interner().covers(cw) <==> word_known(dv, g, k, word@));
    }
    let tw = match prefix_map.tokenize_word(word) {
        Some(t) => t,
        None => {
            return Err(SearchError::UnknownChunk);
        },
    };
    let ghost tw_view = tw@;
    if tw.len() != grid_size {
        return Err(SearchError::WrongLength);
    }
    proof {
        assert(spec_chunkify(word@, k).len() == g);
    }
    let sols = prefix_map.symmetric_words_single(tw);
    proof {
        assert forall|x: int, i: int|
            0 <= x < sols@.len() && 0 <= i < g implies prefix_map.interner().word_valid(
            #[trigger] sols@[x].row(i),
        ) by {
            let m = sols@[x].rows_model();
            assert(sols.deep_view()[x] == m);
            assert(sols.deep_view().contains(m));
            assert(is_solution(prefix_map.words(), tw_view, g, m));
            assert(m[i] == sols@[x].row(i));
            if i == 0 {
                let cw = spec_chunkify(word@, k);
                assert forall|j: int|
                    0 <= j < tw_view.len() implies tw_view[j]
                        < prefix_map.interner().token_count() by {
                    assert(tw_view[j] == prefix_map.interner().enc_map()[cw[j]]);
                    assert(prefix_map.interner().enc_map().contains_key(cw[j]));
                }
                assert(prefix_map.interner().word_valid(m[0]));
            } else {
                assert(prefix_map.words().contains(m[i]));
            }
        }
    }
    let result = stringify_all(&prefix_map, &sols);
    proof {
        let target = sols@.map_values(
            |t: TokenMatrix| prefix_map.interner().spec_stringify_rows(t.rows_model()),
        );
        assert forall|s: Seq<char>| #[trigger]
            result.deep_view().contains(s) <==> is_first_row_solution(dv, g, k, word@, s) by {
            lemma_token_first_row_solutions(prefix_map, dv, word@, tw_view, s);
            if result.deep_view().contains(s) {
                let x = choose|x: int| 0 <= x < target.len() && target[x] == s;
                let m = sols@[x].rows_model();
                assert(sols.deep_view()[x] == m);
                assert(sols.deep_view().contains(m));
                assert(is_solution(prefix_map.words(), tw_view, g, m));
                assert(s == prefix_map.interner().spec_stringify_rows(m));
            }
            if is_first_row_solution(dv, g, k, word@, s) {
                let m = choose|m: Seq<Seq<u16>>|
                    #![auto]
                    is_solution(prefix_map.words(), tw_view, g, m) && s
                        == prefix_map.interner().spec_stringify_rows(m);
                assert(sols.deep_view().contains(m));
                let x = choose|x: int| 0 <= x < sols.deep_view().len() && sols.deep_view()[x] == m;
                assert(target[x] == s);
                assert(result.deep_view()[x] == s);
                assert(result.deep_view().contains(s));
            }
        }
    }
    Ok(result)
}

/// Parallel and serial runs agree: any two results that each hold
/// exactly the lines reading as symmetric grids of dictionary words, as
/// both modes of the search do, hold the same lines.
pub proof fn lemma_parallel_serial_equivalence(
    dict: Seq<Seq<char>>,
    g: nat,
    k: nat,
    r1: Seq<Seq<char>>,
    r2: Seq<Seq<char>>,
)
    requires
        forall|s: Seq<char>| #[trigger] r1.contains(s) <==> is_string_solution(dict, g, k, s),
        forall|s: Seq<char>| #[trigger] r2.contains(s) <==> is_string_solution(dict, g, k, s),
    ensures
        forall|s: Seq<char>| #[trigger] r1.contains(s) <==> #[trigger] r2.contains(s),
{
}

/// The text of a grid starts with its first row's text.
proof fn lemma_grid_text_prefix(ws: Seq<Seq<Seq<char>>>)
    requires
        ws.len() >= 1,
    ensures
        grid_text(ws).len() >= ws[0].flatten().len(),
        grid_text(ws).take(ws[0].flatten().len() as int) == ws[0].flatten(),
    decreases ws.len(),
{
    if ws.len() == 1 {
        assert(grid_text(ws).take(ws[0].flatten().len() as int) =~= ws[0].flatten());
    } else {
        lemma_grid_text_prefix(ws.drop_last());
        assert(ws.drop_last()[0] == ws[0]);
        let a = grid_text(ws.drop_last());
        let n = ws[0].flatten().len() as int;
        assert(grid_text(ws) == a + seq![' '] + ws.last().flatten());
        assert(grid_text(ws).take(n) =~= a.take(n));
    }
}

/// The single-word query returns exactly the full search's solutions
/// whose first row is the given word: when the word is itself a
/// dictionary word of full length, a line is a first-row solution for it
/// exactly when the line is a solution of the full search that starts
/// with the word.
pub proof fn lemma_single_word_solutions(
    dict: Seq<Seq<char>>,
    g: nat,
    k: nat,
    word: Seq<char>,
    s: Seq<char>,
)
    requires
        g >= 1,
        k >= 1,
        dict.contains(word),
        word.len() == g * k,
    ensures
        is_first_row_solution(dict, g, k, word, s) <==> (is_string_solution(dict, g, k, s)
            && s.take(word.len() as int) == word),
{
    parser::lemma_chunkify_round_trip(word, k);
    if is_first_row_solution(dict, g, k, word, s) {
        let ws = choose|ws: Seq<Seq<Seq<char>>>|
            #![auto]
            {
                &&& ws.len() == g
                &&& g >= 1
                &&& ws[0] == spec_chunkify(word, k)
                &&& (forall|i: int| 1 <= i < g ==> dict_row(dict, g, k, ws[i]))
                &&& (forall|i: int, j: int| 0 <= j < i < g ==> ws[i][j] == ws[j][i])
                &&& s == grid_text(ws)
            };
        let x = choose|x: int| 0 <= x < dict.len() && dict[x] == word;
        assert(dict_row(dict, g, k, ws[0]));
        assert(is_string_solution(dict, g, k, s));
        lemma_grid_text_prefix(ws);
        assert(ws[0].flatten() == word);
        assert(s.take(word.len() as int) == word);
    }
    if is_string_solution(dict, g, k, s) && s.take(word.len() as int) == word {
        let ws = choose|ws: Seq<Seq<Seq<char>>>|
            #![auto]
            {
                &&& ws.len() == g
                &&& (forall|i: int| 0 <= i < g ==> dict_row(dict, g, k, ws[i]))
                &&& (forall|i: int, j: int| 0 <= j < i < g ==> ws[i][j] == ws[j][i])
                &&& s == grid_text(ws)
            };
        assert(dict_row(dict, g, k, ws[0]));
        let x = choose|x: int|
            0 <= x < dict.len() && (#[trigger] dict[x]).len() == g * k && ws[0] == spec_chunkify(
                dict[x],
                k,
            );
        parser::lemma_chunkify_round_trip(dict[x], k);
        assert(ws[0].flatten() == dict[x]);
        lemma_grid_text_prefix(ws);
        assert(s.take(dict[x].len() as int) == dict[x]);
        assert(dict[x] == word);
        assert(ws[0] == spec_chunkify(word, k));
        assert(is_first_row_solution(dict, g, k, word, s));
    }
}

} // verus!
