use crate::matrix::{col_count, column, is_rectangular, with_column, Cell, Matrix};
use crate::random::choose_one;
use vstd::prelude::*;

verus! {

/// A tile value: zero for an empty cell, otherwise a power of two.
pub type Value = u64;

/// Points earned by merges.
pub type Score = u64;

/// The value of an empty cell.
pub const EMPTY: Value = 0;

/// A square board of tiles.
#[derive(Debug)]
pub struct Field {
    matrix: Matrix<Value>,
}

/// The axis along which a board is shifted: rows or columns.
#[derive(Copy, Clone, Debug, PartialEq, Eq, Structural)]
pub enum ShiftDim {
    Horizontal,
    Vertical,
}

/// Which end of each line the tiles are pushed against: its start or its end.
#[derive(Copy, Clone, Debug, PartialEq, Eq, Structural)]
pub enum ShiftDir {
    Direct,
    Reverse,
}

/// Twice `v`, saturating at the largest `u64`.
pub open spec fn doubled(v: u64) -> u64 {
    if v <= u64::MAX / 2 {
        (2 * v) as u64
    } else {
        u64::MAX
    }
}

/// The non-empty values of `s`, in their order.
pub open spec fn tiles(s: Seq<u64>) -> Seq<u64>
    decreases s.len(),
{
    if s.len() == 0 {
        Seq::empty()
    } else if s.last() == EMPTY {
        tiles(s.drop_last())
    } else {
        tiles(s.drop_last()).push(s.last())
    }
}

/// Merges tiles pairwise from the front: two equal neighbours become one
/// tile of twice the value, and a merged tile takes part in no further merge.
pub open spec fn merged(t: Seq<u64>) -> Seq<u64>
    decreases t.len(),
{
    if t.len() < 2 {
        t
    } else if t[0] == t[1] {
        seq![doubled(t[0])] + merged(t.subrange(2, t.len() as int))
    } else {
        seq![t[0]] + merged(t.subrange(1, t.len() as int))
    }
}

/// The sum of the values that the merges of `merged(t)` produce.
pub open spec fn merge_points(t: Seq<u64>) -> int
    decreases t.len(),
{
    if t.len() < 2 {
        0
    } else if t[0] == t[1] {
        doubled(t[0]) + merge_points(t.subrange(2, t.len() as int))
    } else {
        merge_points(t.subrange(1, t.len() as int))
    }
}

/// `t` followed by empty cells up to length `n`.
pub open spec fn padded(t: Seq<u64>, n: nat) -> Seq<u64> {
    t + Seq::new((n - t.len()) as nat, |_i: int| EMPTY)
}

/// A line compacted and merged toward its start.
pub open spec fn shifted_to_start(s: Seq<u64>) -> Seq<u64> {
    padded(merged(tiles(s)), s.len())
}

/// A line compacted and merged in the direction `dir`.
pub open spec fn shifted_line(s: Seq<u64>, dir: ShiftDir) -> Seq<u64> {
    match dir {
        ShiftDir::Direct => shifted_to_start(s),
        ShiftDir::Reverse => shifted_to_start(s.reverse()).reverse(),
    }
}

/// Points that shifting the line `s` in the direction `dir` earns.
pub open spec fn line_points(s: Seq<u64>, dir: ShiftDir) -> int {
    match dir {
        ShiftDir::Direct => merge_points(tiles(s)),
        ShiftDir::Reverse => merge_points(tiles(s.reverse())),
    }
}

/// `p` capped at the largest `u64`.
pub open spec fn capped(p: int) -> int {
    if p > u64::MAX {
        u64::MAX as int
    } else {
        p
    }
}

/// Dropping empty cells never lengthens a line, and leaves no empty cell.
pub proof fn lemma_tiles_len(s: Seq<u64>)
    ensures
        tiles(s).len() <= s.len(),
        forall|k: int| 0 <= k < tiles(s).len() ==> #[trigger] tiles(s)[k] != EMPTY,
    decreases s.len(),
{
    if s.len() > 0 {
        lemma_tiles_len(s.drop_last());
    }
}

/// Merging never lengthens a run of tiles, and earns no negative points.
pub proof fn lemma_merged_len(t: Seq<u64>)
    ensures
        merged(t).len() <= t.len(),
        merge_points(t) >= 0,
    decreases t.len(),
{
    if t.len() >= 2 {
        if t[0] == t[1] {
            lemma_merged_len(t.subrange(2, t.len() as int));
        } else {
            lemma_merged_len(t.subrange(1, t.len() as int));
        }
    }
}

/// A shift keeps the length of a line, and earns no negative points.
pub proof fn lemma_shifted_line_len(s: Seq<u64>, dir: ShiftDir)
    ensures
        shifted_line(s, dir).len() == s.len(),
        line_points(s, dir) >= 0,
{
    lemma_tiles_len(s);
    lemma_merged_len(tiles(s));
    lemma_tiles_len(s.reverse());
    lemma_merged_len(tiles(s.reverse()));
}

/// Every row of `m` has as many values as `m` has rows.
pub open spec fn is_square(m: Seq<Seq<u64>>) -> bool {
    forall|i: int| 0 <= i < m.len() ==> #[trigger] m[i].len() == m.len()
}

/// Line `idx` of the board `m` along the axis `dim`: a row or a column.
pub open spec fn line_of(m: Seq<Seq<u64>>, dim: ShiftDim, idx: int) -> Seq<u64> {
    match dim {
        ShiftDim::Horizontal => m[idx],
        ShiftDim::Vertical => column(m, idx),
    }
}

/// The board `m` with its lines before index `k` along `dim` shifted in the
/// direction `dir`, and the others as they were.
pub open spec fn partly_shifted(m: Seq<Seq<u64>>, dim: ShiftDim, dir: ShiftDir, k: int) -> Seq<Seq<u64>> {
    match dim {
        ShiftDim::Horizontal => Seq::new(
            m.len(),
            |i: int|
                if i < k {
                    shifted_line(m[i], dir)
                } else {
                    m[i]
                },
        ),
        ShiftDim::Vertical => Seq::new(
            m.len(),
            |i: int|
                Seq::new(
                    m.len(),
                    |j: int|
                        if j < k {
                            shifted_line(column(m, j), dir)[i]
                        } else {
                            m[i][j]
                        },
                ),
        ),
    }
}

/// The board `m` with every line along `dim` shifted in the direction `dir`.
pub open spec fn shifted_board(m: Seq<Seq<u64>>, dim: ShiftDim, dir: ShiftDir) -> Seq<Seq<u64>> {
    match dim {
        ShiftDim::Horizontal => Seq::new(m.len(), |i: int| shifted_line(m[i], dir)),
        ShiftDim::Vertical => Seq::new(
            m.len(),
            |i: int| Seq::new(m.len(), |j: int| shifted_line(column(m, j), dir)[i]),
        ),
    }
}

/// Points earned by the lines before index `k` along `dim` that a shift in
/// the direction `dir` changes; an unchanged line earns nothing.
pub open spec fn moved_points(m: Seq<Seq<u64>>, dim: ShiftDim, dir: ShiftDir, k: int) -> int
    decreases k,
{
    if k <= 0 {
        0
    } else {
        moved_points(m, dim, dir, k - 1) + if shifted_line(line_of(m, dim, k - 1), dir) != line_of(
            m,
            dim,
            k - 1,
        ) {
            line_points(line_of(m, dim, k - 1), dir)
        } else {
            0
        }
    }
}

/// The board `m` with the cell at row `i`, column `j` set to `v`.
pub open spec fn with_tile(m: Seq<Seq<u64>>, i: int, j: int, v: u64) -> Seq<Seq<u64>> {
    m.update(i, m[i].update(j, v))
}

/// The board `m` has an empty cell.
pub open spec fn has_empty_cell(m: Seq<Seq<u64>>) -> bool {
    exists|i: int, j: int| 0 <= i < m.len() && 0 <= j < m.len() && #[trigger] m[i][j] == EMPTY
}

/// The points of a board shift are never negative.
pub proof fn lemma_moved_points_nonneg(m: Seq<Seq<u64>>, dim: ShiftDim, dir: ShiftDir, k: int)
    ensures
        moved_points(m, dim, dir, k) >= 0,
    decreases k,
{
    if k > 0 {
        lemma_moved_points_nonneg(m, dim, dir, k - 1);
        lemma_shifted_line_len(line_of(m, dim, k - 1), dir);
    }
}

/// The tiles of `s` stand at its start with no gap, and no two neighbouring
/// tiles are equal: nothing is left to compact or merge toward the start.
pub open spec fn compacted_to_start(s: Seq<u64>) -> bool {
    forall|k: int|
        0 <= k < s.len() - 1 ==> (#[trigger] s[k] == EMPTY ==> s[k + 1] == EMPTY) && (s[k] != EMPTY
            ==> s[k] != s[k + 1])
}

/// Nothing is left to compact or merge in `s` in the direction `dir`.
pub open spec fn compacted(s: Seq<u64>, dir: ShiftDir) -> bool {
    match dir {
        ShiftDir::Direct => compacted_to_start(s),
        ShiftDir::Reverse => compacted_to_start(s.reverse()),
    }
}

/// No two neighbours in `t` are equal.
pub open spec fn distinct_neighbours(t: Seq<u64>) -> bool {
    forall|k: int| 0 <= k < t.len() - 1 ==> #[trigger] t[k] != t[k + 1]
}

/// The tiles of two lines put end to end are the tiles of each, in turn.
pub proof fn lemma_tiles_append(a: Seq<u64>, b: Seq<u64>)
    ensures
        tiles(a + b) == tiles(a) + tiles(b),
    decreases b.len(),
{
    if b.len() == 0 {
        assert(a + b =~= a);
        assert(tiles(a) + tiles(b) =~= tiles(a));
    } else {
        assert((a + b).drop_last() =~= a + b.drop_last());
        lemma_tiles_append(a, b.drop_last());
        if b.last() != EMPTY {
            assert(tiles(a) + tiles(b.drop_last()).push(b.last()) =~= (tiles(a) + tiles(b.drop_last())).push(b.last()));
        }
    }
}

/// A line of empty cells holds no tiles.
pub proof fn lemma_tiles_all_empty(z: Seq<u64>)
    requires
        forall|k: int| 0 <= k < z.len() ==> #[trigger] z[k] == EMPTY,
    ensures
        tiles(z) == Seq::<u64>::empty(),
    decreases z.len(),
{
    if z.len() > 0 {
        lemma_tiles_all_empty(z.drop_last());
    }
}

/// A line without empty cells is all tiles.
pub proof fn lemma_tiles_no_empty(t: Seq<u64>)
    requires
        forall|k: int| 0 <= k < t.len() ==> #[trigger] t[k] != EMPTY,
    ensures
        tiles(t) == t,
    decreases t.len(),
{
    if t.len() > 0 {
        lemma_tiles_no_empty(t.drop_last());
        assert(t.drop_last().push(t.last()) =~= t);
    }
}

/// Reversing a line reverses its tiles.
pub proof fn lemma_tiles_reverse(s: Seq<u64>)
    ensures
        tiles(s.reverse()) == tiles(s).reverse(),
    decreases s.len(),
{
    if s.len() == 0 {
        assert(s.reverse() =~= s);
        assert(tiles(s).reverse() =~= tiles(s));
    } else {
        let x = s.last();
        let rest = s.drop_last();
        assert(s.reverse() =~= seq![x] + rest.reverse());
        lemma_tiles_append(seq![x], rest.reverse());
        lemma_tiles_reverse(rest);
        assert(seq![x].drop_last() =~= Seq::<u64>::empty());
        assert(tiles(Seq::<u64>::empty()) =~= Seq::<u64>::empty());
        assert(seq![x].last() == x);
        if x == EMPTY {
            assert(tiles(seq![x]) =~= Seq::<u64>::empty());
            assert(tiles(seq![x]) + tiles(rest).reverse() =~= tiles(rest).reverse());
        } else {
            assert(tiles(seq![x]) =~= Seq::<u64>::empty().push(x));
            assert(tiles(rest).push(x).reverse() =~= seq![x] + tiles(rest).reverse());
        }
    }
}

/// Tiles with no two equal neighbours do not merge.
pub proof fn lemma_merged_distinct(t: Seq<u64>)
    requires
        distinct_neighbours(t),
    ensures
        merged(t) == t,
        merge_points(t) == 0,
    decreases t.len(),
{
    if t.len() >= 2 {
        let rest = t.subrange(1, t.len() as int);
        assert(t[0] != t[1]);
        assert forall|k: int| 0 <= k < rest.len() - 1 implies #[trigger] rest[k] != rest[k + 1] by {
            assert(t[k + 1] != t[k + 2]);
        }
        lemma_merged_distinct(rest);
        assert(seq![t[0]] + rest =~= t);
    }
}

/// Tiles whose merging earns no points do not merge: no two neighbours
/// among them are equal.
pub proof fn lemma_no_points_no_merge(t: Seq<u64>)
    requires
        forall|k: int| 0 <= k < t.len() ==> #[trigger] t[k] != EMPTY,
        merge_points(t) == 0,
    ensures
        merged(t) == t,
        distinct_neighbours(t),
    decreases t.len(),
{
    if t.len() >= 2 {
        if t[0] == t[1] {
            lemma_merged_len(t.subrange(2, t.len() as int));
            assert(false);
        } else {
            let rest = t.subrange(1, t.len() as int);
            assert forall|k: int| 0 <= k < rest.len() implies #[trigger] rest[k] != EMPTY by {
                assert(t[k + 1] != EMPTY);
            }
            lemma_no_points_no_merge(rest);
            assert(seq![t[0]] + rest =~= t);
            assert forall|k: int| 0 <= k < t.len() - 1 implies #[trigger] t[k] != t[k + 1] by {
                if k > 0 {
                    assert(rest[k - 1] != rest[k]);
                }
            }
        }
    }
}

/// Tiles with no two equal neighbours, followed by empty cells, leave
/// nothing to compact or merge toward the start.
pub proof fn lemma_padded_compacted(t: Seq<u64>, n: nat)
    requires
        forall|k: int| 0 <= k < t.len() ==> #[trigger] t[k] != EMPTY,
        distinct_neighbours(t),
        t.len() <= n,
    ensures
        compacted_to_start(padded(t, n)),
{
    let s = padded(t, n);
    assert forall|k: int| 0 <= k < s.len() - 1 implies (#[trigger] s[k] == EMPTY ==> s[k + 1] == EMPTY) && (s[k]
        != EMPTY ==> s[k] != s[k + 1]) by {
        if k < t.len() - 1 {
            assert(t[k] != t[k + 1]);
        } else if k == t.len() - 1 {
            assert(s[k] == t[k]);
        }
    }
}

/// A shift that earns no points leaves nothing to compact or merge in its
/// direction, so shifting the result again in that direction changes
/// nothing and earns nothing.
pub proof fn lemma_second_shift_unchanged(s: Seq<u64>, dir: ShiftDir)
    requires
        line_points(s, dir) == 0,
    ensures
        compacted(shifted_line(s, dir), dir),
        shifted_line(shifted_line(s, dir), dir) == shifted_line(s, dir),
        line_points(shifted_line(s, dir), dir) == 0,
{
    let u = match dir {
        ShiftDir::Direct => s,
        ShiftDir::Reverse => s.reverse(),
    };
    let t = tiles(u);
    lemma_tiles_len(u);
    lemma_no_points_no_merge(t);
    lemma_padded_compacted(t, u.len());
    assert(padded(t, u.len()).reverse().reverse() =~= padded(t, u.len()));
    lemma_compacted_line_unchanged(shifted_line(s, dir), dir);
}

/// A line compacted toward its start is its tiles followed by empty cells,
/// and no two neighbouring tiles are equal.
proof fn lemma_compacted_is_padded_tiles(s: Seq<u64>)
    requires
        compacted_to_start(s),
    ensures
        s == padded(tiles(s), s.len()),
        distinct_neighbours(tiles(s)),
    decreases s.len(),
{
    if s.len() == 0 {
        assert(padded(tiles(s), s.len()) =~= s);
    } else {
        let p = s.drop_last();
        let x = s.last();
        assert forall|k: int| 0 <= k < p.len() - 1 implies (#[trigger] p[k] == EMPTY ==> p[k + 1] == EMPTY) && (
        p[k] != EMPTY ==> p[k] != p[k + 1]) by {
            assert(s[k] == p[k] && s[k + 1] == p[k + 1]);
        }
        lemma_compacted_is_padded_tiles(p);
        lemma_tiles_len(p);
        if x == EMPTY {
            assert(padded(tiles(s), s.len()) =~= padded(tiles(p), p.len()).push(EMPTY));
        } else {
            if p.len() > 0 {
                assert(s[p.len() - 1] != EMPTY);
                assert(s[p.len() - 1] != x);
                if tiles(p).len() < p.len() {
                    assert(padded(tiles(p), p.len())[p.len() - 1] == EMPTY);
                }
            }
            assert(tiles(p) =~= p);
            assert(padded(tiles(s), s.len()) =~= s);
        }
    }
}

/// A line with nothing left to compact or merge in the direction `dir` is
/// left as it is by a shift in that direction, which earns no points.
pub proof fn lemma_compacted_line_unchanged(s: Seq<u64>, dir: ShiftDir)
    requires
        compacted(s, dir),
    ensures
        shifted_line(s, dir) == s,
        line_points(s, dir) == 0,
{
    let r = s.reverse();
    let u = match dir {
        ShiftDir::Direct => s,
        ShiftDir::Reverse => r,
    };
    lemma_compacted_is_padded_tiles(u);
    lemma_merged_distinct(tiles(u));
    assert(r.reverse() =~= s);
}

/// A shift whose line earns no points merges nothing: the tiles of the line
/// stay the same, in the same order, and only their positions change.
pub proof fn lemma_no_merge_keeps_tiles(s: Seq<u64>, dir: ShiftDir)
    requires
        line_points(s, dir) == 0,
    ensures
        tiles(shifted_line(s, dir)) == tiles(s),
        tiles(shifted_line(s, dir)).to_multiset() == tiles(s).to_multiset(),
{
    let r = s.reverse();
    let u = match dir {
        ShiftDir::Direct => s,
        ShiftDir::Reverse => r,
    };
    let t = tiles(u);
    lemma_tiles_len(u);
    lemma_no_points_no_merge(t);
    let z = Seq::new((u.len() - t.len()) as nat, |_i: int| EMPTY);
    lemma_tiles_all_empty(z);
    lemma_tiles_no_empty(t);
    lemma_tiles_append(t, z);
    assert(tiles(t) + tiles(z) =~= t);
    if dir == ShiftDir::Reverse {
        assert((t + z).reverse() =~= z.reverse() + t.reverse());
        lemma_tiles_all_empty(z.reverse());
        lemma_tiles_no_empty(t.reverse());
        lemma_tiles_append(z.reverse(), t.reverse());
        assert(tiles(z.reverse()) + tiles(t.reverse()) =~= t.reverse());
        lemma_tiles_reverse(s);
        assert(tiles(s).reverse().reverse() =~= tiles(s));
    }
}

impl View for Field {
    type V = Seq<Seq<u64>>;

    closed spec fn view(&self) -> Seq<Seq<u64>> {
        self.matrix@
    }
}

impl Field {
    /// The board is square.
    pub open spec fn wf(&self) -> bool {
        is_square(self@)
    }

    /// An empty board of `size` rows and `size` columns.
    pub fn new(size: usize) -> (r: Self)
        ensures
            r.wf(),
            r@ == Seq::new(size as nat, |_i: int| Seq::new(size as nat, |_j: int| EMPTY)),
    {
        let matrix = Matrix::new(size, size, EMPTY);
        let r = Self { matrix };
        assert(r@ =~= Seq::new(size as nat, |_i: int| Seq::new(size as nat, |_j: int| EMPTY)));
        r
    }

    /// Number of rows, which is also the number of columns.
    pub fn size(&self) -> (r: usize)
        ensures
            r == self@.len(),
    {
        self.matrix.rows()
    }

    /// The tile at row `row`, column `col`.
    pub fn matrix(&self, row: usize, col: usize) -> (r: Value)
        requires
            self.wf(),
            row < self@.len(),
            col < self@.len(),
        ensures
            r == self@[row as int][col as int],
    {
        self.matrix.data(row, col)
    }

    /// Puts a tile of value 2 or 4, drawn at random, into an empty cell drawn
    /// at random with the same chance for each; returns false, and changes
    /// nothing, where the board has no empty cell.
    pub fn add_random_cell(&mut self) -> (r: bool)
        requires
            old(self).wf(),
        ensures
            final(self).wf(),
            r == has_empty_cell(old(self)@),
            !r ==> final(self)@ == old(self)@,
            r ==> exists|i: int, j: int, v: u64|
                0 <= i < old(self)@.len() && 0 <= j < old(self)@.len() && old(self)@[i][j] == EMPTY
                    && (v == 2 || v == 4) && final(self)@ == #[trigger] with_tile(old(self)@, i, j, v),
    {
        let random = self.matrix.get_random_by_pred(Self::is_empty);
        match random {
            Some(cell) => {
                let value = Self::get_random_value();
                self.matrix.set_data(cell.row, cell.col, value);
                assert(with_tile(old(self)@, cell.row as int, cell.col as int, value) == self@);
                true
            },
            None => {
                assert(!has_empty_cell(old(self)@));
                false
            },
        }
    }

    /// Shifts every line along `dim` in the direction `dir`. Returns the
    /// points earned by the lines that changed, saturating, or `None` where
    /// no line changed.
    pub fn shift(&mut self, dim: ShiftDim, dir: ShiftDir) -> (r: Option<Score>)
        requires
            old(self).wf(),
        ensures
            final(self).wf(),
            final(self)@ == shifted_board(old(self)@, dim, dir),
            r is None <==> forall|k: int|
                0 <= k < old(self)@.len() ==> shifted_line(#[trigger] line_of(old(self)@, dim, k), dir)
                    == line_of(old(self)@, dim, k),
            r matches Some(p) ==> p == capped(moved_points(old(self)@, dim, dir, old(self)@.len() as int)),
    {
        let ghost m = self@;
        let size = self.matrix.rows();
        let mut total_points: Score = 0;
        let mut moved = false;
        let mut idx: usize = 0;
        proof {
            assert(self@ =~= partly_shifted(m, dim, dir, 0)) by {
                assert forall|i: int| 0 <= i < m.len() implies #[trigger] self@[i] =~= partly_shifted(m, dim, dir, 0)[i] by {}
            }
        }
        while idx < size
            invariant
                size == m.len(),
                is_square(m),
                idx <= size,
                self@ == partly_shifted(m, dim, dir, idx as int),
                self.matrix.wf(),
                is_square(self@),
                moved <==> exists|k: int|
                    0 <= k < idx && shifted_line(#[trigger] line_of(m, dim, k), dir) != line_of(m, dim, k),
                moved_points(m, dim, dir, idx as int) >= 0,
                total_points == capped(moved_points(m, dim, dir, idx as int)),
            decreases size - idx,
        {
            let ghost before = self@;
            proof {
                if dim == ShiftDim::Vertical {
                    assert(column(before, idx as int) =~= column(m, idx as int));
                }
            }
            let vec = match dim {
                ShiftDim::Horizontal => self.matrix.row(idx),
                ShiftDim::Vertical => self.matrix.col(idx),
            };
            assert(vec@ == line_of(m, dim, idx as int));
            let (new, points) = Self::shift_vec(&vec, dir);
            proof {
                lemma_shifted_line_len(vec@, dir);
                lemma_moved_points_nonneg(m, dim, dir, idx as int + 1);
            }
            if Self::differs(&vec, &new) {
                match dim {
                    ShiftDim::Horizontal => self.matrix.set_row(idx, &new),
                    ShiftDim::Vertical => self.matrix.set_col(idx, &new),
                }
                total_points = if total_points > u64::MAX - points {
                    u64::MAX
                } else {
                    total_points + points
                };
                moved = true;
            }
            proof {
                let next = partly_shifted(m, dim, dir, idx as int + 1);
                assert forall|i: int| 0 <= i < m.len() implies #[trigger] self@[i] =~= next[i] by {
                    if dim == ShiftDim::Vertical {
                        assert forall|j: int| 0 <= j < m.len() implies self@[i][j] == next[i][j] by {
                            if j == idx {
                                assert(column(m, j)[i] == m[i][j]);
                            }
                        }
                    }
                }
                assert(self@ =~= next);
                assert forall|i: int| 0 <= i < self@.len() implies #[trigger] self@[i].len() == self@.len() by {
                    if dim == ShiftDim::Horizontal && i == idx {
                        assert(self@[i] == new@);
                    }
                }
                if !moved {
                    assert forall|k: int| 0 <= k < idx + 1 implies shifted_line(#[trigger] line_of(m, dim, k), dir)
                        == line_of(m, dim, k) by {
                        if k == idx {
                            assert(vec@ == new@);
                        }
                    }
                }
            }
            idx += 1;
        }
        proof {
            let b = shifted_board(m, dim, dir);
            assert forall|i: int| 0 <= i < m.len() implies #[trigger] self@[i] =~= b[i] by {}
            assert(self@ =~= b);
        }
        if moved {
            Some(total_points)
        } else {
            None
        }
    }

    fn is_empty(value: Value) -> (r: bool)
        ensures
            r == (value == EMPTY),
    {
        value == EMPTY
    }

    /// One of the two base tile values, each with the same chance.
    fn get_random_value() -> (r: Value)
        ensures
            r == 2 || r == 4,
    {
        let mut choices: Vec<Value> = Vec::new();
        choices.push(2);
        choices.push(4);
        let r = choose_one(&choices).unwrap();
        assert(choices@ == seq![2u64, 4u64]);
        r
    }

    /// Whether `a` and `b`, of one length, differ in some position.
    fn differs(a: &Vec<Value>, b: &Vec<Value>) -> (r: bool)
        requires
            a@.len() == b@.len(),
        ensures
            r == (a@ != b@),
    {
        let mut i: usize = 0;
        while i < a.len()
            invariant
                i <= a@.len(),
                a@.len() == b@.len(),
                a@.subrange(0, i as int) == b@.subrange(0, i as int),
            decreases a@.len() - i,
        {
            if a[i] != b[i] {
                return true;
            }
            assert(a@.subrange(0, i + 1) =~= a@.subrange(0, i as int).push(a@[i as int]));
            assert(b@.subrange(0, i + 1) =~= b@.subrange(0, i as int).push(b@[i as int]));
            i += 1;
        }
        assert(a@ =~= a@.subrange(0, i as int));
        assert(b@ =~= b@.subrange(0, i as int));
        false
    }

    /// Appends empty cells to `vec` until it holds `size` values.
    fn pad_vec(vec: &mut Vec<Value>, size: usize)
        requires
            old(vec)@.len() <= size,
        ensures
            final(vec)@ == padded(old(vec)@, size as nat),
    {
        let ghost start = old(vec)@;
        while vec.len() < size
            invariant
                start.len() <= vec@.len() <= size,
                vec@ == start + Seq::new((vec@.len() - start.len()) as nat, |_i: int| EMPTY),
            decreases size - vec@.len(),
        {
            vec.push(EMPTY);
            assert(vec@ =~= start + Seq::new((vec@.len() - start.len()) as nat, |_i: int| EMPTY));
        }
    }

    /// The non-empty values of `vec`, in order.
    fn compacted(vec: &Vec<Value>) -> (r: Vec<Value>)
        ensures
            r@ == tiles(vec@),
    {
        let mut r: Vec<Value> = Vec::new();
        let mut i: usize = 0;
        while i < vec.len()
            invariant
                i <= vec@.len(),
                r@ == tiles(vec@.subrange(0, i as int)),
            decreases vec@.len() - i,
        {
            assert(vec@.subrange(0, i + 1).drop_last() =~= vec@.subrange(0, i as int));
            if vec[i] != EMPTY {
                r.push(vec[i]);
            }
            i += 1;
        }
        assert(vec@.subrange(0, vec@.len() as int) =~= vec@);
        r
    }

    /// The values of `vec` in the opposite order.
    fn reversed(vec: &Vec<Value>) -> (r: Vec<Value>)
        ensures
            r@ == vec@.reverse(),
    {
        let mut r: Vec<Value> = Vec::with_capacity(vec.len());
        let mut i: usize = vec.len();
        while i > 0
            invariant
                i <= vec@.len(),
                r@.len() == vec@.len() - i,
                forall|k: int| 0 <= k < r@.len() ==> #[trigger] r@[k] == vec@[vec@.len() - 1 - k],
            decreases i,
        {
            i -= 1;
            r.push(vec[i]);
        }
        assert(r@ =~= vec@.reverse());
        r
    }

    /// Merges equal neighbours of `tiles` pairwise from the front, and sums
    /// the merged values, saturating.
    fn merge_tiles(tiles: &Vec<Value>) -> (r: (Vec<Value>, Score))
        ensures
            r.0@ == merged(tiles@),
            r.1 == capped(merge_points(tiles@)),
    {
        let ghost t = tiles@;
        let mut out: Vec<Value> = Vec::new();
        let mut points: Score = 0;
        let mut i: usize = 0;
        proof {
            assert(t.subrange(0, t.len() as int) =~= t);
            assert(out@ + merged(t) =~= merged(t));
            lemma_merged_len(t);
        }
        while i < tiles.len()
            invariant
                i <= t.len(),
                t == tiles@,
                out@ + merged(t.subrange(i as int, t.len() as int)) == merged(t),
                merge_points(t.subrange(i as int, t.len() as int)) >= 0,
                points == capped(merge_points(t) - merge_points(t.subrange(i as int, t.len() as int))),
            decreases t.len() - i,
        {
            let ghost rest = t.subrange(i as int, t.len() as int);
            if i + 1 < tiles.len() && tiles[i] == tiles[i + 1] {
                let v = tiles[i];
                let d: Value = if v <= u64::MAX / 2 { 2 * v } else { u64::MAX };
                out.push(d);
                points = if points > u64::MAX - d { u64::MAX } else { points + d };
                proof {
                    assert(rest.subrange(2, rest.len() as int) =~= t.subrange(i + 2, t.len() as int));
                    lemma_merged_len(t.subrange(i + 2, t.len() as int));
                }
                i += 2;
            } else {
                out.push(tiles[i]);
                proof {
                    if rest.len() >= 2 {
                        assert(rest.subrange(1, rest.len() as int) =~= t.subrange(i + 1, t.len() as int));
                        lemma_merged_len(t.subrange(i + 1, t.len() as int));
                    } else {
                        assert(t.subrange(i + 1, t.len() as int) =~= Seq::<u64>::empty());
                        assert(rest =~= seq![t[i as int]]);
                    }
                }
                i += 1;
            }
            assert(out@ + merged(t.subrange(i as int, t.len() as int)) =~= merged(t));
        }
        proof {
            assert(t.subrange(i as int, t.len() as int) =~= Seq::<u64>::empty());
            assert(out@ + merged(t.subrange(i as int, t.len() as int)) =~= out@);
        }
        (out, points)
    }

    /// Compacts and merges one line in the direction `dir`; returns the new
    /// line and the points its merges earn, saturating.
    pub fn shift_vec(vec: &Vec<Value>, dir: ShiftDir) -> (r: (Vec<Value>, Score))
        ensures
            r.0@ == shifted_line(vec@, dir),
            r.1 == capped(line_points(vec@, dir)),
    {
        let source = match dir {
            ShiftDir::Direct => Self::compacted(vec),
            ShiftDir::Reverse => Self::compacted(&Self::reversed(vec)),
        };
        let (mut new, points) = Self::merge_tiles(&source);
        proof {
            lemma_tiles_len(vec@);
            lemma_tiles_len(vec@.reverse());
            lemma_merged_len(source@);
        }
        Self::pad_vec(&mut new, vec.len());
        match dir {
            ShiftDir::Reverse => {
                new = Self::reversed(&new);
            },
            ShiftDir::Direct => {},
        }
        (new, points)
    }
}

} // verus!
