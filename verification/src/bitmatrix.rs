//! A boolean matrix over GF(2): entries are bits, addition is XOR and
//! multiplication is AND.  Stored row-major in a flat vector.

use vstd::prelude::*;

verus! {

use vstd::string::StringExecFns;

/// A rectangular boolean matrix, stored row-major: the entry in row `r`
/// and column `c` lives at flat position `columns * r + c`.
#[derive(PartialEq, Eq, Debug, Hash)]
pub struct BitMatrix {
    rows: usize,
    columns: usize,
    data: Vec<bool>,
}

impl BitMatrix {
    /// Row count.
    pub closed spec fn rows_spec(self) -> int {
        self.rows as int
    }

    /// Column count.
    pub closed spec fn cols_spec(self) -> int {
        self.columns as int
    }

    /// The flat row-major entries.
    pub closed spec fn entries(self) -> Seq<bool> {
        self.data@
    }

    /// Structure invariant: the flat vector holds exactly one entry per
    /// cell.
    pub closed spec fn wf(self) -> bool {
        self.data@.len() == self.rows_spec() * self.cols_spec()
    }

    /// The entry in row `r`, column `c`.
    pub open spec fn entry(self, r: int, c: int) -> bool {
        self.entries()[self.cols_spec() * r + c]
    }

    /// Flat index arithmetic: every in-bounds cell lands inside the data
    /// vector, injectively.
    proof fn lemma_index(self, r: int, c: int)
        requires
            self.wf(),
            0 <= r < self.rows_spec(),
            0 <= c < self.cols_spec(),
        ensures
            0 <= self.cols_spec() * r + c < self.entries().len(),
    {
        assert(0 <= self.cols_spec() * r + c < self.rows_spec() * self.cols_spec())
            by (nonlinear_arith)
            requires
                0 <= r < self.rows_spec(),
                0 <= c < self.cols_spec(),
        ;
    }

    /// Reshapes a flat vector of entries into a matrix.  The vector must
    /// hold exactly one value per cell.
    pub fn shape(data: Vec<bool>, rows: usize, columns: usize) -> (m: BitMatrix)
        requires
            rows * columns == data@.len(),
        ensures
            m.wf(),
            m.rows_spec() == rows,
            m.cols_spec() == columns,
            m.entries() == data@,
    {
        BitMatrix { rows, columns, data }
    }

    /// A matrix with a single column.
    pub fn column_vector(data: Vec<bool>) -> (m: BitMatrix)
        ensures
            m.wf(),
            m.rows_spec() == data@.len(),
            m.cols_spec() == 1,
            m.entries() == data@,
    {
        let rows = data.len();
        proof {
            assert(rows as int * 1 == data@.len());
        }
        BitMatrix { rows, columns: 1, data }
    }

    /// A matrix with a single row.
    pub fn row_vector(data: Vec<bool>) -> (m: BitMatrix)
        ensures
            m.wf(),
            m.rows_spec() == 1,
            m.cols_spec() == data@.len(),
            m.entries() == data@,
    {
        let columns = data.len();
        BitMatrix { rows: 1, columns, data }
    }

    /// Overwrites one entry.
    fn set(&mut self, row: usize, column: usize, value: bool)
        requires
            old(self).wf(),
            row < old(self).rows_spec(),
            column < old(self).cols_spec(),
        ensures
            final(self).wf(),
            final(self).rows_spec() == old(self).rows_spec(),
            final(self).cols_spec() == old(self).cols_spec(),
            final(self).entries() == old(self).entries().update(
                old(self).cols_spec() * row + column,
                value,
            ),
    {
        let n = self.data.len();
        proof {
            self.lemma_index(row as int, column as int);
        }
        let i = self.columns * row + column;
        self.data[i] = value;
    }

    /// Reads one entry.
    pub fn get(&self, row: usize, column: usize) -> (r: bool)
        requires
            self.wf(),
            row < self.rows_spec(),
            column < self.cols_spec(),
        ensures
            r == self.entry(row as int, column as int),
    {
        let n = self.data.len();
        proof {
            self.lemma_index(row as int, column as int);
        }
        self.data[self.columns * row + column]
    }

    /// Inverts one entry in place.
    pub fn flip(&mut self, row: usize, column: usize)
        requires
            old(self).wf(),
            row < old(self).rows_spec(),
            column < old(self).cols_spec(),
        ensures
            final(self).wf(),
            final(self).rows_spec() == old(self).rows_spec(),
            final(self).cols_spec() == old(self).cols_spec(),
            final(self).entries() == old(self).entries().update(
                old(self).cols_spec() * row + column,
                !old(self).entry(row as int, column as int),
            ),
    {
        let n = self.data.len();
        proof {
            self.lemma_index(row as int, column as int);
        }
        let i = self.columns * row + column;
        let cur = self.data[i];
        self.data[i] = cur ^ true;
    }

    /// Row count.
    pub fn row_len(&self) -> (r: usize)
        ensures
            r == self.rows_spec(),
    {
        self.rows
    }

    /// Column count.
    pub fn column_len(&self) -> (r: usize)
        ensures
            r == self.cols_spec(),
    {
        self.columns
    }

    /// The transposed matrix: rows and columns exchanged.
    pub fn transpose(&self) -> (m: BitMatrix)
        requires
            self.wf(),
        ensures
            m.wf(),
            m.rows_spec() == self.cols_spec(),
            m.cols_spec() == self.rows_spec(),
            forall|c: int, r: int|
                0 <= c < self.cols_spec() && 0 <= r < self.rows_spec() ==> #[trigger] m.entry(
                    c,
                    r,
                ) == self.entry(r, c),
    {
        let rows = self.row_len();
        let cols = self.column_len();
        let mut data: Vec<bool> = Vec::new();
        let mut column: usize = 0;
        while column < cols
            invariant
                column <= cols,
                self.wf(),
                rows == self.rows_spec(),
                cols == self.cols_spec(),
                data@.len() == column * rows,
                forall|i: int|
                    0 <= i < data@.len() ==> #[trigger] data@[i] == self.entry(
                        i % (rows as int),
                        i / (rows as int),
                    ),
            decreases cols - column,
        {
            let mut row: usize = 0;
            while row < rows
                invariant
                    row <= rows,
                    column < cols,
                    self.wf(),
                    rows == self.rows_spec(),
                    cols == self.cols_spec(),
                    data@.len() == column * rows + row,
                    forall|i: int|
                        0 <= i < data@.len() ==> #[trigger] data@[i] == self.entry(
                            i % (rows as int),
                            i / (rows as int),
                        ),
                decreases rows - row,
            {
                let ghost pre = data@;
                data.push(self.get(row, column));
                proof {
                    let i = pre.len() as int;
                    assert(i / (rows as int) == column && i % (rows as int) == row)
                        by (nonlinear_arith)
                        requires
                            rows as int >= 1,
                            0 <= row < rows as int,
                            0 <= column,
                            i == column * (rows as int) + row,
                    ;
                }
                row = row + 1;
            }
            column = column + 1;
            proof {
                assert(data@.len() == column * rows) by (nonlinear_arith)
                    requires
                        data@.len() == (column - 1) * (rows as int) + rows,
                ;
            }
        }
        proof {
            assert(cols as int * (rows as int) == data@.len()) by (nonlinear_arith)
                requires
                    data@.len() == cols as int * (rows as int),
            ;
        }
        let m = BitMatrix { rows: cols, columns: rows, data };
        proof {
            assert forall|c: int, r: int|
                0 <= c < self.cols_spec() && 0 <= r < self.rows_spec() implies #[trigger] m.entry(
                c,
                r,
            ) == self.entry(r, c) by {
                let i = (rows as int) * c + r;
                assert(0 <= i < cols as int * (rows as int) && i / (rows as int) == c && i % (
                rows as int) == r) by (nonlinear_arith)
                    requires
                        rows as int >= 1,
                        0 <= r < rows as int,
                        0 <= c < cols as int,
                        i == (rows as int) * c + r,
                ;
                assert(m.entries()[i] == self.entry(r, c));
            }
        }
        m
    }

    /// The GF(2) matrix product: entry `(r, c)` is the XOR over `i` of
    /// `self(r, i) AND other(i, c)`.
    pub fn dot(&self, other: &BitMatrix) -> (m: BitMatrix)
        requires
            self.wf(),
            other.wf(),
            self.cols_spec() == other.rows_spec(),
            self.rows_spec() * other.cols_spec() <= usize::MAX,
        ensures
            m.wf(),
            m.rows_spec() == self.rows_spec(),
            m.cols_spec() == other.cols_spec(),
            forall|r: int, c: int|
                0 <= r < self.rows_spec() && 0 <= c < other.cols_spec() ==> #[trigger] m.entry(
                    r,
                    c,
                ) == dot_entry(*self, *other, r, c, self.cols_spec()),
    {
        let rows = self.row_len();
        let mid = self.column_len();
        let ocols = other.column_len();
        let mut data: Vec<bool> = Vec::new();
        let mut row: usize = 0;
        while row < rows
            invariant
                row <= rows,
                self.wf(),
                other.wf(),
                rows == self.rows_spec(),
                mid == self.cols_spec() == other.rows_spec(),
                ocols == other.cols_spec(),
                data@.len() == row * ocols,
                forall|i: int|
                    0 <= i < data@.len() ==> #[trigger] data@[i] == dot_entry(
                        *self,
                        *other,
                        i / (ocols as int),
                        i % (ocols as int),
                        mid as int,
                    ),
            decreases rows - row,
        {
            let mut column: usize = 0;
            while column < ocols
                invariant
                    column <= ocols,
                    row < rows,
                    self.wf(),
                    other.wf(),
                    rows == self.rows_spec(),
                    mid == self.cols_spec() == other.rows_spec(),
                    ocols == other.cols_spec(),
                    data@.len() == row * ocols + column,
                    forall|i: int|
                        0 <= i < data@.len() ==> #[trigger] data@[i] == dot_entry(
                            *self,
                            *other,
                            i / (ocols as int),
                            i % (ocols as int),
                            mid as int,
                        ),
                decreases ocols - column,
            {
                let mut val = false;
                let mut i: usize = 0;
                while i < mid
                    invariant
                        i <= mid,
                        row < rows,
                        column < ocols,
                        self.wf(),
                        other.wf(),
                        rows == self.rows_spec(),
                        mid == self.cols_spec() == other.rows_spec(),
                        ocols == other.cols_spec(),
                        val == dot_entry(*self, *other, row as int, column as int, i as int),
                    decreases mid - i,
                {
                    val = val ^ (self.get(row, i) && other.get(i, column));
                    i = i + 1;
                }
                let ghost pre = data@;
                data.push(val);
                proof {
                    let j = pre.len() as int;
                    assert(j / (ocols as int) == row && j % (ocols as int) == column)
                        by (nonlinear_arith)
                        requires
                            ocols as int >= 1,
                            0 <= column < ocols as int,
                            0 <= row,
                            j == row * (ocols as int) + column,
                    ;
                }
                column = column + 1;
            }
            row = row + 1;
            proof {
                assert(data@.len() == row * ocols) by (nonlinear_arith)
                    requires
                        data@.len() == (row - 1) * (ocols as int) + ocols,
                ;
            }
        }
        proof {
            assert(rows as int * (ocols as int) == data@.len());
        }
        let m = BitMatrix { rows, columns: ocols, data };
        proof {
            assert forall|r: int, c: int|
                0 <= r < self.rows_spec() && 0 <= c < other.cols_spec() implies #[trigger] m.entry(
                r,
                c,
            ) == dot_entry(*self, *other, r, c, self.cols_spec()) by {
                let j = (ocols as int) * r + c;
                assert(0 <= j < rows as int * (ocols as int) && j / (ocols as int) == r && j % (
                ocols as int) == c) by (nonlinear_arith)
                    requires
                        ocols as int >= 1,
                        0 <= c < ocols as int,
                        0 <= r < rows as int,
                        j == (ocols as int) * r + c,
                ;
                assert(m.entries()[j] == dot_entry(*self, *other, r, c, mid as int));
            }
        }
        m
    }

    /// Renders the matrix between brackets: one space-separated line per
    /// column, each line after the first starting on a fresh, indented row.
    pub fn format(&self) -> (s: String)
        requires
            self.wf(),
        ensures
            s@ == format_chars(*self),
    {
        let mut visual = String::from_str("[");
        let cols = self.column_len();
        let rows = self.row_len();
        proof {
            reveal_strlit("[");
            assert(visual@ =~= seq!['['] + body_chars(*self, 0));
        }
        let mut column: usize = 0;
        while column < cols
            invariant
                column <= cols,
                self.wf(),
                rows == self.rows_spec(),
                cols == self.cols_spec(),
                visual@ == seq!['['] + body_chars(*self, column as int),
            decreases cols - column,
        {
            let ghost at_start = visual@;
            if column != 0 {
                visual.append("\n");
                visual.append(" ");
                proof {
                    reveal_strlit("\n");
                    reveal_strlit(" ");
                    assert(visual@ =~= at_start + seq!['\n', ' ']);
                }
            }
            let ghost led = visual@;
            let mut row: usize = 0;
            proof {
                assert(led =~= at_start + (if column == 0 {
                    Seq::<char>::empty()
                } else {
                    seq!['\n', ' ']
                }));
                assert(led + line_chars(*self, column as int, 0) =~= led);
            }
            while row < rows
                invariant
                    row <= rows,
                    column < cols,
                    self.wf(),
                    rows == self.rows_spec(),
                    cols == self.cols_spec(),
                    visual@ == led + line_chars(*self, column as int, row as int),
                    led == seq!['['] + body_chars(*self, column as int) + (if column == 0 {
                        Seq::<char>::empty()
                    } else {
                        seq!['\n', ' ']
                    }),
                decreases rows - row,
            {
                let ghost before = visual@;
                if row != 0 {
                    visual.append(" ");
                }
                if self.get(row, column) {
                    visual.append("1");
                } else {
                    visual.append("0");
                }
                proof {
                    reveal_strlit(" ");
                    reveal_strlit("1");
                    reveal_strlit("0");
                    assert(visual@ =~= before + (if row == 0 {
                        Seq::<char>::empty()
                    } else {
                        seq![' ']
                    }) + seq![
                        if self.entry(row as int, column as int) {
                            '1'
                        } else {
                            '0'
                        },
                    ]);
                }
                row = row + 1;
            }
            column = column + 1;
            proof {
                assert(visual@ =~= seq!['['] + body_chars(*self, column as int));
            }
        }
        visual.append("]");
        proof {
            reveal_strlit("]");
            assert(visual@ =~= format_chars(*self));
        }
        visual
    }

    /// The entries of a single-row or single-column matrix, in order.
    pub fn to_vec(self) -> (r: Vec<bool>)
        requires
            self.wf(),
            self.cols_spec() == 1 || self.rows_spec() == 1,
        ensures
            r@ == self.entries(),
    {
        self.data
    }
}

/// The GF(2) inner product of row `r` of `a` against column `c` of `b`,
/// over the first `m` middle indices: the XOR of the pairwise ANDs.
pub open spec fn dot_entry(a: BitMatrix, b: BitMatrix, r: int, c: int, m: int) -> bool
    decreases m,
{
    if m <= 0 {
        false
    } else {
        dot_entry(a, b, r, c, m - 1) != (a.entry(r, m - 1) && b.entry(m - 1, c))
    }
}

/// The printed entries of column `c`, rows `0..r`, space separated.
pub open spec fn line_chars(m: BitMatrix, c: int, r: int) -> Seq<char>
    decreases r,
{
    if r <= 0 {
        Seq::empty()
    } else {
        line_chars(m, c, r - 1) + (if r == 1 {
            Seq::<char>::empty()
        } else {
            seq![' ']
        }) + seq![
            if m.entry(r - 1, c) {
                '1'
            } else {
                '0'
            },
        ]
    }
}

/// The printed body: one line per column, each line after the first led by
/// a newline and a space.
pub open spec fn body_chars(m: BitMatrix, c: int) -> Seq<char>
    decreases c,
{
    if c <= 0 {
        Seq::empty()
    } else {
        body_chars(m, c - 1) + (if c == 1 {
            Seq::<char>::empty()
        } else {
            seq!['\n', ' ']
        }) + line_chars(m, c - 1, m.rows_spec())
    }
}

/// The whole rendering, between brackets.
pub open spec fn format_chars(m: BitMatrix) -> Seq<char> {
    seq!['['] + body_chars(m, m.cols_spec()) + seq![']']
}

} // verus!
