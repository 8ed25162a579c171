use crate::random::choose_one;
use vstd::prelude::*;

verus! {

/// A rectangular grid of copyable values, stored row by row.
#[derive(Debug)]
pub struct Matrix<T: Copy> {
    data: Vec<Vec<T>>,
}

/// A position in a grid.
#[derive(Copy, Clone, Debug, PartialEq, Eq, Structural)]
pub struct Cell {
    pub row: usize,
    pub col: usize,
}

/// Number of columns of a grid given as its rows: the length of the first
/// row, and zero where there are no rows.
pub open spec fn col_count<T>(m: Seq<Seq<T>>) -> nat {
    if m.len() == 0 {
        0
    } else {
        m[0].len()
    }
}

/// Every row of `m` has the same length.
pub open spec fn is_rectangular<T>(m: Seq<Seq<T>>) -> bool {
    forall|i: int| 0 <= i < m.len() ==> #[trigger] m[i].len() == col_count(m)
}

/// Column `j` of the grid `m`, read from top to bottom.
pub open spec fn column<T>(m: Seq<Seq<T>>, j: int) -> Seq<T> {
    Seq::new(m.len(), |i: int| m[i][j])
}

/// The grid `m` with column `j` replaced by `c`.
pub open spec fn with_column<T>(m: Seq<Seq<T>>, j: int, c: Seq<T>) -> Seq<Seq<T>> {
    Seq::new(m.len(), |i: int| m[i].update(j, c[i]))
}

impl<T: Copy> View for Matrix<T> {
    type V = Seq<Seq<T>>;

    closed spec fn view(&self) -> Seq<Seq<T>> {
        Seq::new(self.data@.len(), |i: int| self.data@[i]@)
    }
}

impl<T: Copy> Matrix<T> {
    /// The grid's shape is consistent: every row has the same length.
    pub open spec fn wf(&self) -> bool {
        is_rectangular(self@)
    }

    /// A grid of `rows` rows and `cols` columns with every cell set to `value`.
    pub fn new(rows: usize, cols: usize, value: T) -> (r: Self)
        ensures
            r.wf(),
            r@.len() == rows,
            forall|i: int| 0 <= i < rows ==> #[trigger] r@[i] == Seq::new(cols as nat, |_j: int| value),
    {
        let mut data: Vec<Vec<T>> = Vec::with_capacity(rows);
        let mut i: usize = 0;
        while i < rows
            invariant
                i <= rows,
                data@.len() == i,
                forall|k: int| 0 <= k < i ==> (#[trigger] data@[k])@ == Seq::new(cols as nat, |_j: int| value),
            decreases rows - i,
        {
            let mut line: Vec<T> = Vec::with_capacity(cols);
            let mut j: usize = 0;
            while j < cols
                invariant
                    j <= cols,
                    line@ == Seq::new(j as nat, |_j: int| value),
                decreases cols - j,
            {
                line.push(value);
                j += 1;
                assert(line@ =~= Seq::new(j as nat, |_j: int| value));
            }
            data.push(line);
            i += 1;
        }
        let r = Self { data };
        assert forall|k: int| 0 <= k < rows implies #[trigger] r@[k] == Seq::new(cols as nat, |_j: int| value) by {
            assert(r@[k] == data@[k]@);
        }
        r
    }

    /// The value at row `row`, column `col`.
    pub fn data(&self, row: usize, col: usize) -> (r: T)
        requires
            self.wf(),
            row < self@.len(),
            col < col_count(self@),
        ensures
            r == self@[row as int][col as int],
    {
        assert(self@[row as int] == self.data@[row as int]@);
        self.data[row][col]
    }

    /// Replaces the value at row `row`, column `col`.
    pub fn set_data(&mut self, row: usize, col: usize, value: T)
        requires
            old(self).wf(),
            row < old(self)@.len(),
            col < col_count(old(self)@),
        ensures
            final(self).wf(),
            final(self)@ == old(self)@.update(row as int, old(self)@[row as int].update(col as int, value)),
    {
        assert(self@[row as int] == self.data@[row as int]@);
        self.data[row][col] = value;
        assert(self@ =~= old(self)@.update(row as int, old(self)@[row as int].update(col as int, value)));
    }

    /// Number of rows.
    pub fn rows(&self) -> (r: usize)
        ensures
            r == self@.len(),
    {
        self.data.len()
    }

    /// Number of columns: the length of the first row, zero without rows.
    pub fn cols(&self) -> (r: usize)
        ensures
            r == col_count(self@),
    {
        if self.data.len() > 0 {
            assert(self@[0] == self.data@[0]@);
            self.data[0].len()
        } else {
            0
        }
    }

    /// A copy of row `idx`, left to right.
    pub fn row(&self, idx: usize) -> (r: Vec<T>)
        requires
            idx < self@.len(),
        ensures
            r@ == self@[idx as int],
    {
        assert(self@[idx as int] == self.data@[idx as int]@);
        copy_of(&self.data[idx])
    }

    /// Replaces row `idx` with `row`, which must have one value per column.
    pub fn set_row(&mut self, idx: usize, row: &Vec<T>)
        requires
            old(self).wf(),
            idx < old(self)@.len(),
            row@.len() == col_count(old(self)@),
        ensures
            final(self).wf(),
            final(self)@ == old(self)@.update(idx as int, row@),
    {
        self.data.set(idx, copy_of(row));
        assert(self@ =~= old(self)@.update(idx as int, row@));
    }

    /// A copy of column `idx`, top to bottom.
    pub fn col(&self, idx: usize) -> (r: Vec<T>)
        requires
            self.wf(),
            idx < col_count(self@),
        ensures
            r@ == column(self@, idx as int),
    {
        let mut c: Vec<T> = Vec::with_capacity(self.data.len());
        let mut i: usize = 0;
        while i < self.data.len()
            invariant
                self.wf(),
                idx < col_count(self@),
                i <= self@.len(),
                c@ == column(self@, idx as int).subrange(0, i as int),
            decreases self@.len() - i,
        {
            assert(self@[i as int] == self.data@[i as int]@);
            c.push(self.data[i][idx]);
            i += 1;
            assert(c@ =~= column(self@, idx as int).subrange(0, i as int));
        }
        assert(c@ =~= column(self@, idx as int));
        c
    }

    /// Replaces column `idx` with `col`, which must have one value per row.
    pub fn set_col(&mut self, idx: usize, col: &Vec<T>)
        requires
            old(self).wf(),
            idx < col_count(old(self)@),
            col@.len() == old(self)@.len(),
        ensures
            final(self).wf(),
            final(self)@ == with_column(old(self)@, idx as int, col@),
    {
        let ghost before = self@;
        let mut i: usize = 0;
        while i < self.data.len()
            invariant
                i <= self@.len(),
                self@.len() == before.len(),
                before.len() == col@.len(),
                is_rectangular(before),
                idx < col_count(before),
                forall|k: int| 0 <= k < i ==> #[trigger] self@[k] == before[k].update(idx as int, col@[k]),
                forall|k: int| i <= k < self@.len() ==> #[trigger] self@[k] == before[k],
            decreases self@.len() - i,
        {
            let ghost mid = self@;
            assert(self@[i as int] == self.data@[i as int]@);
            assert(before[i as int].len() == col_count(before));
            self.data[i][idx] = col[i];
            assert forall|k: int| 0 <= k < self@.len() implies #[trigger] self@[k] == if k == i {
                mid[k].update(idx as int, col@[k])
            } else {
                mid[k]
            } by {
                assert(self@[k] == self.data@[k]@);
            }
            i += 1;
        }
        assert(self@ =~= with_column(before, idx as int, col@));
        assert forall|k: int| 0 <= k < self@.len() implies #[trigger] self@[k].len() == col_count(self@) by {
            assert(before[k].len() == col_count(before));
        }
    }

    /// Collects every position whose value satisfies `pred`, and returns
    /// one of them drawn at random, each with the same chance; `None` where
    /// no value satisfies it.
    pub fn get_random_by_pred<F: Fn(T) -> bool>(&self, pred: F) -> (r: Option<Cell>)
        requires
            self.wf(),
            forall|x: T| pred.requires((x,)),
        ensures
            r is None ==> forall|i: int, j: int|
                0 <= i < self@.len() && 0 <= j < col_count(self@) ==> pred.ensures(
                    (#[trigger] self@[i][j],),
                    false,
                ),
            r matches Some(c) ==> c.row < self@.len() && c.col < col_count(self@) && pred.ensures(
                (self@[c.row as int][c.col as int],),
                true,
            ),
    {
        let mut selected: Vec<Cell> = Vec::new();
        let n_cols = self.cols();
        let mut i: usize = 0;
        while i < self.data.len()
            invariant
                self.wf(),
                n_cols == col_count(self@),
                i <= self@.len(),
                forall|x: T| pred.requires((x,)),
                forall|k: int| 0 <= k < selected@.len() ==> {
                    let c = #[trigger] selected@[k];
                    c.row < self@.len() && c.col < n_cols && pred.ensures((self@[c.row as int][c.col as int],), true)
                },
                selected@.len() == 0 ==> forall|a: int, b: int|
                    0 <= a < i && 0 <= b < n_cols ==> pred.ensures((#[trigger] self@[a][b],), false),
            decreases self@.len() - i,
        {
            assert(self@[i as int] == self.data@[i as int]@);
            assert(self@[i as int].len() == n_cols);
            let mut j: usize = 0;
            while j < n_cols
                invariant
                    self.wf(),
                    n_cols == col_count(self@),
                    i < self@.len(),
                    j <= n_cols,
                    self@[i as int] == self.data@[i as int]@,
                    forall|x: T| pred.requires((x,)),
                    forall|k: int| 0 <= k < selected@.len() ==> {
                        let c = #[trigger] selected@[k];
                        c.row < self@.len() && c.col < n_cols && pred.ensures((self@[c.row as int][c.col as int],), true)
                    },
                    selected@.len() == 0 ==> forall|a: int, b: int|
                        (0 <= a < i && 0 <= b < n_cols) || (a == i && 0 <= b < j) ==> pred.ensures((#[trigger] self@[a][b],), false),
                decreases n_cols - j,
            {
                let value = self.data[i][j];
                if pred(value) {
                    selected.push(Cell { row: i, col: j });
                }
                j += 1;
            }
            i += 1;
        }
        let r = choose_one(&selected);
        proof {
            if let Some(c) = r {
                let k = choose|k: int| 0 <= k < selected@.len() && selected@[k] == c;
                assert(selected@[k] == c);
            }
        }
        r
    }
}

/// A fresh vector holding the same values as `v`.
fn copy_of<T: Copy>(v: &Vec<T>) -> (r: Vec<T>)
    ensures
        r@ == v@,
{
    let mut r: Vec<T> = Vec::with_capacity(v.len());
    let mut i: usize = 0;
    while i < v.len()
        invariant
            i <= v@.len(),
            r@ == v@.subrange(0, i as int),
        decreases v@.len() - i,
    {
        r.push(v[i]);
        i += 1;
        assert(r@ =~= v@.subrange(0, i as int));
    }
    assert(r@ =~= v@);
    r
}

} // verus!
