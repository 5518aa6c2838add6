//! The flat square matrix of tokens that a search grows row by row.
use vstd::prelude::*;

use super::token::Token;
use super::token::TokenWord;
use vstd::slice::slice_subrange;
use vstd::slice::slice_to_vec;

verus! {

/// Why a row cannot be placed into the matrix.
#[derive(Clone, Copy, Debug, PartialEq, Eq, Structural)]
pub enum MatrixError {
    /// The row holds more tokens than one side of the matrix.
    WordTooLong,
}

impl MatrixError {
    /// A short description of the error.
    pub fn message(&self) -> (r: &'static str)
        ensures
            r@ == "the word has more tokens than the matrix allows in one row"@,
    {
        "the word has more tokens than the matrix allows in one row"
    }
}

/// A square grid of tokens stored contiguously, at most `capacity` rows of
/// `capacity` tokens each, filled and emptied a whole row at a time.
#[derive(Hash, Debug, PartialEq, Eq)]
pub struct TokenMatrix {
    matrix: Vec<Token>,
    capacity: usize,
}

impl TokenMatrix {
    /// The declared side length.
    pub closed spec fn cap(self) -> nat {
        self.capacity as nat
    }

    /// The flat buffer of token values, row-major.
    pub closed spec fn flat(self) -> Seq<u16> {
        self.matrix@.map_values(|t: Token| t.0)
    }

    /// How many whole rows stand in the buffer.
    pub open spec fn filled(self) -> nat {
        self.flat().len() / self.cap()
    }

    /// The side length is small enough that every flat index fits a usize.
    pub open spec fn inv(self) -> bool {
        self.cap() * self.cap() <= usize::MAX
    }

    /// The buffer holds whole rows only, and no more than capacity of them.
    pub open spec fn wf(self) -> bool {
        &&& self.inv()
        &&& self.cap() >= 1
        &&& self.flat().len() == self.filled() * self.cap()
        &&& self.filled() <= self.cap()
    }

    /// The token value at `row` and `col`, or nothing where the buffer ends
    /// before that cell.
    pub open spec fn opt_cell(self, row: int, col: int) -> Option<u16> {
        if row * self.cap() + col < self.flat().len() {
            Some(self.flat()[row * self.cap() + col])
        } else {
            None
        }
    }

    /// Row `i` of the matrix.
    pub open spec fn row(self, i: int) -> Seq<u16> {
        self.flat().subrange(i * self.cap(), i * self.cap() + self.cap())
    }

    /// All whole rows, in order.
    pub open spec fn rows_model(self) -> Seq<Seq<u16>> {
        Seq::new(self.filled(), |i: int| self.row(i))
    }

    /// Every ordered pair of cells mirrored across the diagonal agrees.
    pub open spec fn spec_symmetric(self) -> bool {
        forall|i: int, j: int|
            0 <= j < i < self.cap() ==> self.opt_cell(i, j) == self.opt_cell(j, i)
    }

    /// Creates an empty matrix of `tkns` x `tkns` tokens.
    pub fn new(tkns: usize) -> (r: TokenMatrix)
        requires
            tkns * tkns <= usize::MAX,
        ensures
            r.cap() == tkns,
            r.flat() == Seq::<u16>::empty(),
            r.inv(),
    {
        let matrix_flat: Vec<Token> = Vec::with_capacity(tkns * tkns);
        let r = TokenMatrix { matrix: matrix_flat, capacity: tkns };
        proof {
            assert(r.flat() =~= Seq::<u16>::empty());
        }
        r
    }

    /// Get the length/size of the matrix.
    pub fn capacity(&self) -> (r: usize)
        ensures
            r == self.cap(),
    {
        self.capacity
    }

    /// Get the number of filled rows in the matrix.
    pub fn len(&self) -> (r: usize)
        requires
            self.cap() >= 1,
        ensures
            r == self.filled(),
    {
        self.matrix.len() / self.capacity
    }

    /// Checks if the matrix is full.
    pub fn is_full(&self) -> (r: bool)
        requires
            self.cap() >= 1,
        ensures
            r == (self.filled() == self.cap()),
    {
        self.len() == self.capacity
    }

    /// The flat position of `row` and `col`, or an error naming the side
    /// that lies outside the matrix.
    fn to_flat_index(&self, row: usize, col: usize) -> (r: Result<usize, &'static str>)
        requires
            self.inv(),
        ensures
            r matches Ok(i) ==> row < self.cap() && col < self.cap() && i == row * self.cap()
                + col,
            r is Err <==> !(row < self.cap() && col < self.cap()),
    {
        let size = self.capacity;
        match (row >= size, col >= size) {
            (true, true) => Err("row and column out of bounds"),
            (true, false) => Err("row out of bounds"),
            (false, true) => Err("column out of bounds"),
            (false, false) => {
                proof {
                    lemma_flat_index_in_range(row as int, col as int, size as int);
                }
                Ok(row * size + col)
            },
        }
    }

    /// Insert a token into the matrix at the specified row and column,
    /// shifting everything from that flat position onward.
    pub fn insert(&mut self, row: usize, col: usize, tkn: Token)
        requires
            old(self).inv(),
            row < old(self).cap(),
            col < old(self).cap(),
            row * old(self).cap() + col <= old(self).flat().len(),
        ensures
            final(self).cap() == old(self).cap(),
            final(self).inv(),
            final(self).flat() == old(self).flat().insert(
                row * old(self).cap() + col,
                tkn.0,
            ),
    {
        let flat_i = match self.to_flat_index(row, col) {
            Ok(i) => i,
            Err(_) => {
                proof {
                    assert(false);
                }
                0
            },
        };
        self.matrix.insert(flat_i, tkn);
        proof {
            assert(self.flat() =~= old(self).flat().insert(
                row as int * old(self).cap() + col,
                tkn.0,
            ));
        }
    }

    /// Push a token word into the matrix as the tokens after the current
    /// buffer; refused when the word is longer than one side.
    pub fn push(&mut self, word: TokenWord) -> (r: Result<(), MatrixError>)
        ensures
            final(self).cap() == old(self).cap(),
            final(self).inv() == old(self).inv(),
            r is Err <==> word@.len() > old(self).cap(),
            r is Err ==> *final(self) == *old(self),
            r is Ok ==> final(self).flat() == old(self).flat() + word@,
    {
        let word_len = word.len();
        let matrix_len = self.capacity();
        if word_len > matrix_len {
            return Err(MatrixError::WordTooLong);
        }
        self.try_extend(word)
    }

    /// Appends the word's tokens to the buffer; refused when the word is
    /// longer than one side.
    fn try_extend(&mut self, word: TokenWord) -> (r: Result<(), MatrixError>)
        ensures
            final(self).cap() == old(self).cap(),
            final(self).inv() == old(self).inv(),
            r is Err <==> word@.len() > old(self).cap(),
            r is Err ==> *final(self) == *old(self),
            r is Ok ==> final(self).flat() == old(self).flat() + word@,
    {
        let word_len = word.len();
        let matrix_size = self.capacity();
        if word_len > matrix_size {
            return Err(MatrixError::WordTooLong);
        }
        let raw = word.to_raw();
        let mut i: usize = 0;
        proof {
            assert(old(self).flat() + raw@.take(0) =~= old(self).flat());
        }
        while i < raw.len()
            invariant
                i <= raw@.len(),
                self.capacity == old(self).capacity,
                self.flat() == old(self).flat() + raw@.take(i as int),
            decreases raw@.len() - i,
        {
            let ghost pre = self.flat();
            self.matrix.push(Token(raw[i]));
            proof {
                assert(self.flat() =~= pre.push(raw@[i as int]));
                assert(pre.push(raw@[i as int]) =~= old(self).flat() + raw@.take(i + 1));
            }
            i = i + 1;
        }
        proof {
            assert(raw@.take(raw@.len() as int) =~= raw@);
        }
        Ok(())
    }

    /// Pop a row from the matrix: hands back the last whole row and drops
    /// one row's worth of tokens from the end of the buffer; nothing when
    /// no whole row is filled.
    pub fn pop(&mut self) -> (r: Option<Vec<Token>>)
        requires
            old(self).cap() >= 1,
            old(self).inv(),
            old(self).filled() <= old(self).cap(),
        ensures
            final(self).cap() == old(self).cap(),
            final(self).inv(),
            old(self).filled() == 0 ==> r is None && *final(self) == *old(self),
            old(self).filled() >= 1 ==> {
                &&& r matches Some(row)
                &&& row@.map_values(|t: Token| t.0) == old(self).row(old(self).filled() - 1)
                &&& final(self).flat() == old(self).flat().take(
                    old(self).flat().len() - old(self).cap(),
                )
            },
    {
        let filled_rows = self.len();
        if filled_rows == 0 {
            return None;
        }
        proof {
            lemma_row_in_buffer(self.filled() as int, self.cap() as int, self.flat().len() as int);
            assert(1 * self.cap() <= self.filled() * self.cap()) by (nonlinear_arith)
                requires
                    1 <= self.filled() && self.cap() >= 1,
            ;
        }
        let popped_row = slice_to_vec(self.get_row(filled_rows - 1));
        let new_len = self.matrix.len() - self.capacity;
        self.matrix.truncate(new_len);
        proof {
            assert(self.flat() =~= old(self).flat().take(
                old(self).flat().len() - old(self).cap(),
            ));
        }
        Some(popped_row)
    }

    /// Returns the token in the specified row and column, or nothing where
    /// the buffer ends before that cell.
    pub fn get(&self, row: usize, col: usize) -> (r: Option<Token>)
        requires
            self.inv(),
            row < self.cap(),
            col < self.cap(),
        ensures
            r matches Some(t) ==> self.opt_cell(row as int, col as int) == Some(t.0),
            r is None <==> self.opt_cell(row as int, col as int) is None,
    {
        let flat_i = match self.to_flat_index(row, col) {
            Ok(i) => i,
            Err(_) => {
                proof {
                    assert(false);
                }
                0
            },
        };
        if flat_i < self.matrix.len() {
            Some(self.matrix[flat_i])
        } else {
            None
        }
    }

    /// Get a slice of the specified row of the matrix given the row index.
    pub fn get_row(&self, row: usize) -> (r: &[Token])
        requires
            self.inv(),
            row < self.cap(),
            (row + 1) * self.cap() <= self.flat().len(),
        ensures
            r@.map_values(|t: Token| t.0) == self.row(row as int),
    {
        let size = self.capacity;
        proof {
            lemma_flat_index_in_range(row as int, 0, size as int);
            assert((row + 1) * size as int == row * size as int + size) by (nonlinear_arith);
        }
        let row_begin = row * size;
        let row_end = row_begin + size;
        let r = slice_subrange(self.matrix.as_slice(), row_begin, row_end);
        proof {
            assert(r@.map_values(|t: Token| t.0) =~= self.row(row as int));
        }
        r
    }

    /// Checks if the token matrix is symmetric: every cell agrees with its
    /// mirror across the diagonal, absent cells agreeing with absent cells.
    pub fn is_symmetric(&self) -> (r: bool)
        requires
            self.inv(),
        ensures
            r == self.spec_symmetric(),
    {
        let size = self.capacity;
        let mut row_i: usize = 0;
        while row_i < size
            invariant
                self.inv(),
                size == self.cap(),
                row_i <= size,
                forall|i: int, j: int|
                    0 <= j < i < row_i ==> self.opt_cell(i, j) == self.opt_cell(j, i),
            decreases size - row_i,
        {
            let mut col_i: usize = 0;
            while col_i < row_i
                invariant
                    self.inv(),
                    size == self.cap(),
                    row_i < size,
                    col_i <= row_i,
                    forall|i: int, j: int|
                        0 <= j < i < row_i ==> self.opt_cell(i, j) == self.opt_cell(j, i),
                    forall|j: int|
                        0 <= j < col_i ==> self.opt_cell(row_i as int, j) == self.opt_cell(
                            j,
                            row_i as int,
                        ),
                decreases row_i - col_i,
            {
                let a = self.get(row_i, col_i);
                let b = self.get(col_i, row_i);
                let same = match (a, b) {
                    (Some(x), Some(y)) => x.0 == y.0,
                    (None, None) => true,
                    _ => false,
                };
                if !same {
                    return false;
                }
                col_i = col_i + 1;
            }
            row_i = row_i + 1;
        }
        true
    }

    /// The whole rows of the matrix, in order.
    pub fn rows(&self) -> (r: Vec<TokenWord>)
        requires
            self.wf(),
        ensures
            r.deep_view() == self.rows_model(),
    {
        let filled = self.len();
        let mut r: Vec<TokenWord> = Vec::new();
        let mut i: usize = 0;
        proof {
            assert(r.deep_view() =~= self.rows_model().take(0));
        }
        while i < filled
            invariant
                self.wf(),
                filled == self.filled(),
                i <= filled,
                r.deep_view() == self.rows_model().take(i as int),
            decreases filled - i,
        {
            proof {
                lemma_row_in_buffer(i as int + 1, self.cap() as int, self.flat().len() as int);
                assert(self.filled() * self.cap() <= self.cap() * self.cap()) by (nonlinear_arith)
                    requires
                        self.filled() <= self.cap(),
                ;
            }
            let row_slice = self.get_row(i);
            let ghost m = row_slice@.map_values(|t: Token| t.0);
            let mut word = TokenWord::with_capacity(self.capacity);
            let mut j: usize = 0;
            proof {
                assert(word@ =~= m.take(0));
            }
            while j < row_slice.len()
                invariant
                    j <= row_slice@.len(),
                    m == row_slice@.map_values(|t: Token| t.0),
                    word@ == m.take(j as int),
                decreases row_slice@.len() - j,
            {
                word.push(*vstd::slice::slice_index_get(row_slice, j));
                proof {
                    assert(word@ =~= m.take(j + 1));
                }
                j = j + 1;
            }
            let ghost prev = r.deep_view();
            proof {
                assert(m.take(m.len() as int) =~= m);
                assert(word@ == self.row(i as int));
            }
            r.push(word);
            proof {
                assert(r.deep_view() =~= prev.push(self.row(i as int)));
                assert(prev.push(self.row(i as int)) =~= self.rows_model().take(i + 1));
            }
            i = i + 1;
        }
        proof {
            assert(self.rows_model().take(filled as int) =~= self.rows_model());
        }
        r
    }
}

impl View for TokenMatrix {
    type V = Seq<Seq<u16>>;

    open spec fn view(&self) -> Seq<Seq<u16>> {
        self.rows_model()
    }
}

impl DeepView for TokenMatrix {
    type V = Seq<Seq<u16>>;

    open spec fn deep_view(&self) -> Seq<Seq<u16>> {
        self.view()
    }
}

impl Clone for TokenMatrix {
    /// A copy with the same side length and the same buffer.
    fn clone(&self) -> (r: Self)
        ensures
            r.cap() == self.cap(),
            r.flat() == self.flat(),
    {
        let mut buf: Vec<Token> = Vec::with_capacity(self.matrix.len());
        let mut i: usize = 0;
        while i < self.matrix.len()
            invariant
                i <= self.matrix@.len(),
                buf@ == self.matrix@.take(i as int),
            decreases self.matrix@.len() - i,
        {
            buf.push(self.matrix[i]);
            proof {
                assert(buf@ =~= self.matrix@.take(i + 1));
            }
            i = i + 1;
        }
        proof {
            assert(self.matrix@.take(self.matrix@.len() as int) =~= self.matrix@);
        }
        let r = TokenMatrix { matrix: buf, capacity: self.capacity };
        proof {
            assert(r.flat() =~= self.flat());
        }
        r
    }
}

/// In a well-formed matrix every whole row has the side's length, its
/// cells sit in the flat buffer at their row-major positions, and every
/// cell of a whole row is present.
pub proof fn lemma_wf_matrix_cells(m: TokenMatrix)
    requires
        m.wf(),
    ensures
        m.rows_model().len() == m.filled(),
        forall|i: int| 0 <= i < m.filled() ==> (#[trigger] m.rows_model()[i]).len() == m.cap(),
        forall|i: int, j: int|
            0 <= i < m.filled() && 0 <= j < m.cap() ==> (#[trigger] m.rows_model()[i][j])
                == m.flat()[i * m.cap() + j],
        forall|i: int, j: int|
            0 <= i < m.filled() && 0 <= j < m.cap() ==> m.opt_cell(i, j) == Some(
                m.rows_model()[i][j],
            ),
{
    let cap = m.cap() as int;
    let f = m.filled() as int;
    assert forall|i: int| 0 <= i < f implies (#[trigger] m.rows_model()[i]).len() == m.cap() by {
        assert((i + 1) * cap == i * cap + cap && 0 <= i * cap && (i + 1) * cap <= f * cap)
            by (nonlinear_arith)
            requires
                0 <= i < f && cap >= 1,
        ;
    }
    assert forall|i: int, j: int|
        0 <= i < f && 0 <= j < cap implies (#[trigger] m.rows_model()[i][j]) == m.flat()[i * cap
        + j] && m.opt_cell(i, j) == Some(m.rows_model()[i][j]) by {
        assert((i + 1) * cap == i * cap + cap && 0 <= i * cap && (i + 1) * cap <= f * cap)
            by (nonlinear_arith)
            requires
                0 <= i < f && cap >= 1,
        ;
        assert(m.rows_model()[i] == m.flat().subrange(i * cap, i * cap + cap));
        assert(m.rows_model()[i][j] == m.flat()[i * cap + j]);
        assert(i * cap + j < f * cap);
    }
}

/// Inside a `size` by `size` square, a row-major flat index stays below
/// `size * size`.
proof fn lemma_flat_index_in_range(row: int, col: int, size: int)
    requires
        0 <= row < size,
        0 <= col < size,
    ensures
        row * size + col < size * size,
        (row + 1) * size <= size * size,
{
    assert(row * size + col < size * size && (row + 1) * size <= size * size) by (nonlinear_arith)
        requires
            0 <= row < size && 0 <= col < size,
    ;
}

/// With `filled` whole rows of `cap` tokens inside a buffer of `len`
/// tokens, each of those rows ends inside the buffer.
proof fn lemma_row_in_buffer(rows: int, cap: int, len: int)
    requires
        cap >= 1,
        0 <= rows,
        0 <= len,
        rows <= len / cap,
    ensures
        rows * cap <= len,
{
    assert(rows * cap <= (len / cap) * cap <= len) by (nonlinear_arith)
        requires
            cap >= 1 && 0 <= rows && rows <= len / cap && 0 <= len,
    ;
}

} // verus!
