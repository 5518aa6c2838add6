use symmetric_word_triples::find_symmetric_grids;
use symmetric_word_triples::find_symmetric_grids_for_word;
use symmetric_word_triples::parser::chunkify;
use symmetric_word_triples::parser::next_prefix;
use symmetric_word_triples::parser::prefix::next_prefix as next_prefix_chunky;
use symmetric_word_triples::parser::chunkify_dict;
use symmetric_word_triples::parser::len_filter;
use symmetric_word_triples::parser::token::Token;
use symmetric_word_triples::parser::token::TokenWord;
use symmetric_word_triples::parser::token::Tokens;
use symmetric_word_triples::parser::wordfilter::PrefixCache;
use symmetric_word_triples::parser::wordfilter::PrefixMap;
use symmetric_word_triples::SearchError;

fn sorted(mut v: Vec<String>) -> Vec<String> {
    v.sort();
    v
}

fn dict(words: &[&str]) -> Vec<String> {
    words.iter().map(|w| w.to_string()).collect()
}

#[test]
fn chunkify_even_split() {
    assert_eq!(chunkify("abcdef", 2), vec!["ab", "cd", "ef"]);
    assert_eq!(chunkify("abc", 3), vec!["abc"]);
}

#[test]
fn chunkify_uneven_last_chunk_shorter() {
    assert_eq!(chunkify("abcde", 2), vec!["ab", "cd", "e"]);
    assert_eq!(chunkify("", 2), Vec::<String>::new());
}

#[test]
fn chunkify_round_trip() {
    // Concatenating the chunks reproduces the string exactly.
    for word in ["abcdef", "spine", "x", ""] {
        for chunk_size in 1..4usize {
            let joined: String = chunkify(word, chunk_size).concat();
            assert_eq!(joined, word);
        }
    }
}

#[test]
fn chunkify_dict_keeps_exact_chunk_counts() {
    // Words are kept by chunk count, so "abc" stays with a short last
    // chunk while "ab" falls out with only one chunk.
    let words = dict(&["abcd", "abc", "ab", "wxyz"]);
    let chunky = chunkify_dict(&words, 2, 2);
    assert_eq!(
        chunky,
        vec![vec!["ab", "cd"], vec!["ab", "c"], vec!["wx", "yz"]]
    );
}

#[test]
fn len_filter_keeps_and_sorts() {
    let mut words = dict(&["bb", "aa", "a", "ccc", "cc"]);
    len_filter(&mut words, 2);
    assert_eq!(words, dict(&["aa", "bb", "cc"]));
}

#[test]
fn token_word_basics() {
    let mut w = TokenWord::new();
    assert_eq!(w.len(), 0);
    w.push(Token(3));
    assert_eq!(w.len(), 1);
    assert_eq!(w.get(0), Token(3));
    let w2 = TokenWord::with_capacity(4);
    assert_eq!(w2.len(), 0);
}

#[test]
fn interner_bijection() {
    // Re-inserting an already-seen chunk returns the same token, and
    // decoding any returned token gives the chunk back.
    let mut tokens = Tokens::new();
    let a = tokens.insert("ab".to_string());
    let b = tokens.insert("ba".to_string());
    let a2 = tokens.insert("ab".to_string());
    assert_eq!(a, a2);
    assert_ne!(a, b);
    assert_eq!(tokens.len(), 2);
    assert_eq!(tokens.stringify_token(a), Some("ab".to_string()));
    assert_eq!(tokens.stringify_token(b), Some("ba".to_string()));
    assert_eq!(tokens.stringify_token(Token(7)), None);
}

#[test]
fn interner_tokenize_and_stringify() {
    let mut tokens = Tokens::new();
    let ab = tokens.insert("ab".to_string());
    let cd = tokens.insert("cd".to_string());
    let word = tokens.tokenize_str("abcdab", 2).unwrap();
    assert_eq!(word.0, vec![ab, cd, ab]);
    assert_eq!(tokens.stringify_token_word(&word.0), "abcdab");
    // A chunk outside the vocabulary is reported as absent.
    assert!(tokens.tokenize_str("abzz", 2).is_none());
}

#[test]
fn next_prefix_from_matrix() {
    // Dictionary words of two chunks; after one row the next row must
    // start with that row's second token.
    let mut tokens = Tokens::new();
    let ab = tokens.insert("ab".to_string());
    let ba = tokens.insert("ba".to_string());
    let mut matrix = symmetric_word_triples::parser::matrix::TokenMatrix::new(2);
    matrix.push(TokenWord(vec![ab, ba])).unwrap();
    let prefix = next_prefix(&matrix);
    assert_eq!(prefix.0, vec![ba]);
}

#[test]
fn next_prefix_chunky_words() {
    let rows: Vec<Vec<String>> = vec![vec!["ab".to_string(), "cd".to_string(), "ef".to_string()]];
    // One row placed: the next row must start with that row's second chunk.
    assert_eq!(next_prefix_chunky(&rows), "cd");
    // A full set of rows forces no further prefix.
    let full: Vec<Vec<String>> = vec![
        vec!["ab".to_string(), "cd".to_string()],
        vec!["cd".to_string(), "xx".to_string()],
    ];
    assert_eq!(next_prefix_chunky(&full), "");
    assert_eq!(next_prefix_chunky(&Vec::<Vec<String>>::new()), "");
}

#[test]
fn prefix_queries_and_cache_transparency() {
    let words = dict(&["abcd", "cdcd", "cdab", "abab"]);
    let pm = PrefixMap::new(&words, 2, 2, true);
    let ab = pm.tokenize_word("ab").unwrap();

    let direct = pm.get_prefix_words(&ab);
    let mut cache = PrefixCache::new();
    // First call computes and stores, second call answers from the cache.
    let first = pm.get_prefix_words_table(&mut cache, &ab);
    assert!(cache.get(&ab).is_some());
    let second = pm.get_prefix_words_table(&mut cache, &ab);

    let to_set = |v: &Vec<TokenWord>| {
        let mut s: Vec<Vec<Token>> = v.iter().map(|w| w.0.clone()).collect();
        s.sort();
        s
    };
    assert_eq!(to_set(&direct), to_set(&first));
    assert_eq!(to_set(&direct), to_set(&second));
    assert_eq!(to_set(&direct).len(), 2);
}

#[test]
fn single_word_solver_enumerates_solutions() {
    let words = dict(&["ab", "ba", "aa", "bb"]);
    let pm = PrefixMap::new(&words, 2, 1, false);
    let first = pm.tokenize_word("ab").unwrap();
    let sols = pm.symmetric_words_single(first);
    let mut lines: Vec<String> = sols
        .into_iter()
        .map(|m| pm.stringify_token_matrix(m))
        .collect();
    lines.sort();
    assert_eq!(lines, vec!["ab ba".to_string(), "ab bb".to_string()]);
}

#[test]
fn end_to_end_small_grid() {
    // dictionary {"ab","ba","aa","bb"}, grid_size 2, chunk_size 1.
    let words = dict(&["ab", "ba", "aa", "bb"]);
    let solutions = sorted(find_symmetric_grids(&words, 2, 1, false));
    assert!(solutions.contains(&"ab ba".to_string()));
    assert!(solutions.contains(&"aa aa".to_string()));
    assert!(solutions.contains(&"bb bb".to_string()));
    assert!(!solutions.contains(&"aa bb".to_string()));
}

#[test]
fn parallel_and_serial_agree() {
    let words = dict(&[
        "ab", "ba", "aa", "bb", "cc", "ac", "ca", "bc", "cb", "zz", "abc",
    ]);
    let serial = sorted(find_symmetric_grids(&words, 2, 1, false));
    let parallel = sorted(find_symmetric_grids(&words, 2, 1, true));
    assert_eq!(serial, parallel);
    assert!(!serial.is_empty());
}

#[test]
fn degenerate_grid_size_zero() {
    let words = dict(&["ab", "ba", "aa", "bb"]);
    assert_eq!(find_symmetric_grids(&words, 0, 1, false), Vec::<String>::new());
    assert_eq!(
        find_symmetric_grids_for_word(&words, "ab", 0, 1),
        Ok(Vec::new())
    );
}

#[test]
fn single_word_query_matches_full_search() {
    let words = dict(&["ab", "ba", "aa", "bb"]);
    let full = sorted(find_symmetric_grids(&words, 2, 1, false));
    let single = sorted(find_symmetric_grids_for_word(&words, "ab", 2, 1).unwrap());
    // Exactly the full search's solutions whose first row is "ab".
    let expected: Vec<String> = full
        .iter()
        .filter(|s| s.starts_with("ab "))
        .cloned()
        .collect();
    assert_eq!(single, expected);
    assert!(!single.is_empty());
}

#[test]
fn single_word_query_errors() {
    let words = dict(&["ab", "ba", "aa", "bb"]);
    // A chunk outside the vocabulary.
    assert_eq!(
        find_symmetric_grids_for_word(&words, "zz", 2, 1),
        Err(SearchError::UnknownChunk)
    );
    // Known chunks, but not one chunk per grid row.
    assert_eq!(
        find_symmetric_grids_for_word(&words, "abab", 2, 1),
        Err(SearchError::WrongLength)
    );
}

#[test]
fn larger_chunks_three_by_three() {
    // Three rows of three two-character chunks each; the grid built from
    // rotations of the same chunks is symmetric.
    let words = dict(&["aabbcc", "bbddee", "cceeff"]);
    let solutions = sorted(find_symmetric_grids(&words, 3, 2, false));
    assert_eq!(solutions, vec!["aabbcc bbddee cceeff".to_string()]);
}
