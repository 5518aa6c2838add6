use symmetric_word_triples::matrix::matrix_is_symmetric;
use symmetric_word_triples::parser::matrix::TokenMatrix;
use symmetric_word_triples::parser::token::Token;
use symmetric_word_triples::parser::token::TokenWord;

#[test]
fn get_matrix_inbound_unset() {
    let tkn_matrix = TokenMatrix::new(3);
    assert_eq!(tkn_matrix.get(0, 0), None);
}

#[test]
fn matrix_insert_and_get_inbound() {
    let mut tkn_matrix = TokenMatrix::new(2);
    tkn_matrix.insert(0, 0, Token(0));
    tkn_matrix.insert(0, 1, Token(1));
    tkn_matrix.insert(1, 0, Token(2));
    tkn_matrix.insert(1, 1, Token(3));

    assert_eq!(tkn_matrix.get(0, 0), Some(Token(0)));
    assert_eq!(tkn_matrix.get(0, 1), Some(Token(1)));
    assert_eq!(tkn_matrix.get(1, 0), Some(Token(2)));
    assert_eq!(tkn_matrix.get(1, 1), Some(Token(3)));
}

#[test]
fn matrix_get_row_inbound() {
    let mut tkn_matrix = TokenMatrix::new(2);
    tkn_matrix.insert(0, 0, Token(0));
    tkn_matrix.insert(0, 1, Token(1));
    tkn_matrix.insert(1, 0, Token(2));
    tkn_matrix.insert(1, 1, Token(3));

    let row = tkn_matrix.get_row(1);
    assert_eq!((row[0], row[1]), (Token(2), Token(3)));
}

#[test]
fn matrix_not_symmetric() {
    let mut tkn_matrix = TokenMatrix::new(2);
    tkn_matrix.insert(0, 0, Token(0));
    tkn_matrix.insert(0, 1, Token(1));
    tkn_matrix.insert(1, 0, Token(2));
    tkn_matrix.insert(1, 1, Token(3));

    assert_eq!(tkn_matrix.is_symmetric(), false);
}

#[test]
fn matrix_symmetric() {
    let mut tkn_matrix = TokenMatrix::new(2);
    tkn_matrix.insert(0, 0, Token(0));
    tkn_matrix.insert(0, 1, Token(1));
    tkn_matrix.insert(1, 0, Token(1));
    tkn_matrix.insert(1, 1, Token(0));

    assert_eq!(tkn_matrix.is_symmetric(), true);
}

#[test]
fn matrix_push_pop_round_trip() {
    let mut tkn_matrix = TokenMatrix::new(2);
    assert_eq!(tkn_matrix.len(), 0);
    assert!(tkn_matrix.push(TokenWord(vec![Token(4), Token(5)])).is_ok());
    assert_eq!(tkn_matrix.len(), 1);
    assert!(!tkn_matrix.is_full());
    let popped = tkn_matrix.pop();
    assert_eq!(popped, Some(vec![Token(4), Token(5)]));
    assert_eq!(tkn_matrix.len(), 0);
    assert_eq!(tkn_matrix.pop(), None);
}

#[test]
fn matrix_push_rejects_long_word() {
    let mut tkn_matrix = TokenMatrix::new(1);
    let too_long = TokenWord(vec![Token(0), Token(1)]);
    assert!(tkn_matrix.push(too_long).is_err());
    assert_eq!(tkn_matrix.len(), 0);
}

#[test]
fn matrix_capacity_and_rows() {
    let mut m = TokenMatrix::new(2);
    assert_eq!(m.capacity(), 2);
    m.push(TokenWord(vec![Token(1), Token(2)])).unwrap();
    m.push(TokenWord(vec![Token(2), Token(1)])).unwrap();
    assert!(m.is_full());
    let rows = m.rows();
    assert_eq!(rows.len(), 2);
    assert_eq!(rows[0].0, vec![Token(1), Token(2)]);
    assert_eq!(rows[1].0, vec![Token(2), Token(1)]);
}

#[test]
fn matrix_is_symmetric_standalone() {
    // Symmetric square matrix.
    assert!(matrix_is_symmetric(&vec![vec![1u16, 2], vec![2, 9]]));
    // Square but not symmetric.
    assert!(!matrix_is_symmetric(&vec![vec![1u16, 2], vec![3, 9]]));
    // Not square: two rows of three columns.
    assert!(!matrix_is_symmetric(&vec![vec![1u16, 2, 3], vec![4, 5, 6]]));
    // The empty matrix is rejected.
    assert!(!matrix_is_symmetric(&Vec::new()));
}
