//! Vectors and rectangular matrices of fixed-point numbers, with the
//! elementwise and column-wise operations the decoder is built from.

use crate::fixed::{neg_log2, saturating_sum, spec_neg_log2, spec_saturating_sum};
use vstd::prelude::*;

verus! {

/// Every entry is zero or more.
pub open spec fn all_non_negative(s: Seq<i64>) -> bool {
    forall|i: int| 0 <= i < s.len() ==> s[i] >= 0
}

/// `k` is the first position of the least entry of `s`.
pub open spec fn is_first_min(s: Seq<i64>, k: int) -> bool {
    &&& 0 <= k < s.len()
    &&& forall|i: int| 0 <= i < s.len() ==> s[k] <= s[i]
    &&& forall|i: int| 0 <= i < k ==> s[k] < s[i]
}

/// First position of the least entry of a non-empty sequence.
pub open spec fn first_min(s: Seq<i64>) -> int {
    choose|k: int| is_first_min(s, k)
}

/// Elementwise saturating sum, as long as the shorter operand.
pub open spec fn sum_of(a: Seq<i64>, b: Seq<i64>) -> Seq<i64> {
    Seq::new(
        if a.len() <= b.len() {
            a.len()
        } else {
            b.len()
        },
        |i: int| spec_saturating_sum(a[i], b[i]),
    )
}

/// Elementwise negated base-two logarithm.
pub open spec fn costs_of(s: Seq<i64>) -> Seq<i64> {
    Seq::new(s.len(), |i: int| spec_neg_log2(s[i]))
}

/// A table with at least one row and one column whose rows are all equally
/// long.
pub open spec fn rectangular(t: Seq<Seq<i64>>) -> bool {
    &&& t.len() >= 1
    &&& t[0].len() >= 1
    &&& forall|i: int| 0 <= i < t.len() ==> (#[trigger] t[i]).len() == t[0].len()
}

/// Every entry of the table is zero or more.
pub open spec fn table_non_negative(t: Seq<Seq<i64>>) -> bool {
    forall|i: int| 0 <= i < t.len() ==> all_non_negative(#[trigger] t[i])
}

/// Elementwise negated base-two logarithm of a table.
pub open spec fn table_costs(t: Seq<Seq<i64>>) -> Seq<Seq<i64>> {
    Seq::new(t.len(), |i: int| costs_of(t[i]))
}

/// Column `j` of a table, top to bottom.
pub open spec fn column_of(t: Seq<Seq<i64>>, j: int) -> Seq<i64> {
    Seq::new(t.len(), |i: int| t[i][j])
}

/// The table with `v[i]` added to every entry of row `i`. Rows beyond the
/// end of `v` stay as they are.
pub open spec fn rows_raised(t: Seq<Seq<i64>>, v: Seq<i64>) -> Seq<Seq<i64>> {
    Seq::new(
        t.len(),
        |i: int|
            if i < v.len() {
                Seq::new(t[i].len(), |j: int| spec_saturating_sum(t[i][j], v[i]))
            } else {
                t[i]
            },
    )
}

/// For each column, the row of its least entry; of several equal ones, the
/// first.
pub open spec fn column_argmins(t: Seq<Seq<i64>>) -> Seq<usize> {
    Seq::new(t[0].len(), |j: int| first_min(column_of(t, j)) as usize)
}

/// For each column, its least entry.
pub open spec fn column_minima(t: Seq<Seq<i64>>) -> Seq<i64> {
    Seq::new(t[0].len(), |j: int| t[first_min(column_of(t, j))][j])
}

/// Two positions that both qualify as first minimum coincide.
pub proof fn lemma_first_min_unique(s: Seq<i64>, j: int, k: int)
    requires
        is_first_min(s, j),
        is_first_min(s, k),
    ensures
        j == k,
{
    if j < k {
        assert(s[k] < s[j]);
        assert(s[j] <= s[k]);
    } else if k < j {
        assert(s[j] < s[k]);
        assert(s[k] <= s[j]);
    }
}

/// A non-empty sequence has a first minimum, and `first_min` names it.
pub proof fn lemma_first_min_exists(s: Seq<i64>)
    requires
        s.len() > 0,
    ensures
        is_first_min(s, first_min(s)),
    decreases s.len(),
{
    if s.len() == 1 {
        assert(is_first_min(s, 0));
    } else {
        let t = s.drop_last();
        lemma_first_min_exists(t);
        let k = first_min(t);
        let last = s.len() - 1;
        if s[last] < t[k] {
            assert forall|i: int| 0 <= i < s.len() implies s[last] <= s[i] by {
                if i < last {
                    assert(t[k] <= t[i]);
                }
            }
            assert forall|i: int| 0 <= i < last implies s[last] < s[i] by {
                assert(t[k] <= t[i]);
            }
            assert(is_first_min(s, last));
        } else {
            assert forall|i: int| 0 <= i < s.len() implies s[k] <= s[i] by {
                if i < last {
                    assert(t[k] <= t[i]);
                }
            }
            assert forall|i: int| 0 <= i < k implies s[k] < s[i] by {
                assert(t[k] < t[i]);
            }
            assert(is_first_min(s, k));
        }
    }
}

/// Of two equal entries the later one is never the first minimum.
pub proof fn lemma_first_min_prefers_earlier(s: Seq<i64>, a: int, b: int)
    requires
        0 <= a < b < s.len(),
        s[a] == s[b],
    ensures
        first_min(s) != b,
{
    lemma_first_min_exists(s);
    if first_min(s) == b {
        assert(s[b] < s[a]);
    }
}

/// No rows at all, or two rows of different lengths, make no matrix.
pub proof fn lemma_empty_or_ragged_is_refused(rows: Seq<Seq<i64>>, i: int, k: int)
    requires
        rows.len() == 0 || (0 <= i < rows.len() && 0 <= k < rows.len() && rows[i].len()
            != rows[k].len()),
    ensures
        !rectangular(rows),
{
    if rectangular(rows) {
        assert(rows[i].len() == rows[0].len());
        assert(rows[k].len() == rows[0].len());
    }
}

/// Column `j` of a rectangular table holds entry `j` of every row, in row
/// order.
pub proof fn lemma_column_in_row_order(rows: Seq<Seq<i64>>, j: int)
    requires
        rectangular(rows),
        0 <= j < rows[0].len(),
    ensures
        column_of(rows, j).len() == rows.len(),
        forall|i: int| 0 <= i < rows.len() ==> column_of(rows, j)[i] == rows[i][j],
{
}

/// An ordered, fixed-length sequence of fixed-point numbers.
#[derive(Debug, PartialEq)]
pub struct Vector {
    data: Vec<i64>,
}

impl Clone for Vector {
    fn clone(&self) -> (r: Self)
        ensures
            r@ == self@,
    {
        let data: Vec<i64> = self.data.clone();
        assert(data@ =~= self.data@);
        Vector { data }
    }
}

impl View for Vector {
    type V = Seq<i64>;

    closed spec fn view(&self) -> Seq<i64> {
        self.data@
    }
}

impl Vector {
    /// Wraps the given entries.
    pub fn new(v: Vec<i64>) -> (r: Vector)
        ensures
            r@ == v@,
    {
        Vector { data: v }
    }

    /// Number of entries.
    pub fn len(&self) -> (n: usize)
        ensures
            n == self@.len(),
    {
        self.data.len()
    }

    /// Entry at position `i`.
    pub fn get(&self, i: usize) -> (x: i64)
        requires
            i < self@.len(),
        ensures
            x == self@[i as int],
    {
        self.data[i]
    }

    /// Whether every entry is zero or more.
    pub fn is_positive(&self) -> (b: bool)
        ensures
            b == all_non_negative(self@),
    {
        let mut i: usize = 0;
        while i < self.data.len()
            invariant
                i <= self.data.len(),
                forall|k: int| 0 <= k < i ==> self.data@[k] >= 0,
            decreases self.data.len() - i,
        {
            if self.data[i] < 0 {
                return false;
            }
            i = i + 1;
        }
        true
    }

    /// Elementwise saturating sum with `u`. Where the lengths differ the
    /// result is as long as the shorter operand.
    pub fn add_vector(&self, u: &Vector) -> (r: Vector)
        ensures
            r@ == sum_of(self@, u@),
    {
        let n: usize = if self.data.len() <= u.data.len() {
            self.data.len()
        } else {
            u.data.len()
        };
        let mut data: Vec<i64> = Vec::with_capacity(n);
        let mut i: usize = 0;
        while i < n
            invariant
                i <= n,
                n <= self.data.len(),
                n <= u.data.len(),
                data.len() == i,
                forall|k: int|
                    0 <= k < i ==> data@[k] == spec_saturating_sum(self.data@[k], u.data@[k]),
            decreases n - i,
        {
            data.push(saturating_sum(self.data[i], u.data[i]));
            i = i + 1;
        }
        assert(data@ =~= sum_of(self@, u@));
        Vector { data }
    }

    /// Elementwise saturating sum with `u`, entry by entry like
    /// [`Vector::add_vector`].
    pub fn add_scalar(&self, u: &Vector) -> (r: Vector)
        ensures
            r@ == sum_of(self@, u@),
    {
        self.add_vector(u)
    }

    /// Replaces every entry `x` by `-log2(x)`.
    pub fn minus_log(&self) -> (r: Vector)
        requires
            all_non_negative(self@),
        ensures
            r@ == costs_of(self@),
    {
        let n: usize = self.data.len();
        let mut data: Vec<i64> = Vec::with_capacity(n);
        let mut i: usize = 0;
        while i < n
            invariant
                i <= n,
                n == self.data.len(),
                all_non_negative(self.data@),
                data.len() == i,
                forall|k: int| 0 <= k < i ==> data@[k] == spec_neg_log2(self.data@[k]),
            decreases n - i,
        {
            data.push(neg_log2(self.data[i]));
            i = i + 1;
        }
        assert(data@ =~= costs_of(self@));
        Vector { data }
    }

    /// Position of the least entry; of several equal ones, the first.
    pub fn argmin(&self) -> (k: usize)
        requires
            self@.len() > 0,
        ensures
            is_first_min(self@, k as int),
            k == first_min(self@),
    {
        let mut min_index: usize = 0;
        let mut min_value: i64 = self.data[0];
        let mut i: usize = 1;
        while i < self.data.len()
            invariant
                1 <= i <= self.data.len(),
                min_value == self.data@[min_index as int],
                is_first_min(self.data@.take(i as int), min_index as int),
            decreases self.data.len() - i,
        {
            let ghost prefix = self.data@.take(i as int);
            let ghost next = self.data@.take(i + 1);
            if self.data[i] < min_value {
                min_value = self.data[i];
                min_index = i;
                assert forall|j: int| 0 <= j < next.len() implies next[min_index as int]
                    <= next[j] by {
                    if j < i {
                        assert(prefix[j] == next[j]);
                    }
                }
            } else {
                assert forall|j: int| 0 <= j < next.len() implies next[min_index as int]
                    <= next[j] by {
                    if j < i {
                        assert(prefix[j] == next[j]);
                    }
                }
            }
            assert forall|j: int| 0 <= j < min_index implies next[min_index as int]
                < next[j] by {
                assert(prefix[j] == next[j]);
            }
            i = i + 1;
        }
        proof {
            assert(self.data@.take(i as int) =~= self.data@);
            lemma_first_min_exists(self@);
            lemma_first_min_unique(self@, min_index as int, first_min(self@));
        }
        min_index
    }
}

/// A rectangular table of fixed-point numbers with at least one row and one
/// column.
#[derive(Debug, PartialEq)]
pub struct Matrix {
    rows: usize,
    cols: usize,
    data: Vec<Vec<i64>>,
}

impl View for Matrix {
    type V = Seq<Seq<i64>>;

    closed spec fn view(&self) -> Seq<Seq<i64>> {
        self.data.deep_view()
    }
}

proof fn lemma_table_entries(data: Vec<Vec<i64>>)
    ensures
        data.deep_view().len() == data@.len(),
        forall|i: int| 0 <= i < data@.len() ==> (#[trigger] data.deep_view()[i]) == data@[i]@,
{
    assert forall|i: int| 0 <= i < data@.len() implies (#[trigger] data.deep_view()[i])
        == data@[i]@ by {
        assert(data@[i].deep_view() =~= data@[i]@);
    }
}

impl Matrix {
    #[verifier::type_invariant]
    spec fn inv(&self) -> bool {
        &&& rectangular(self@)
        &&& self.rows == self@.len()
        &&& self.cols == self@[0].len()
    }

    /// Builds a matrix from its rows. Fails when there is no row, no column,
    /// or when the rows differ in length.
    pub fn new(data: Vec<Vec<i64>>) -> (r: Option<Matrix>)
        ensures
            r is Some <==> rectangular(data.deep_view()),
            r matches Some(m) ==> m@ == data.deep_view(),
    {
        proof {
            lemma_table_entries(data);
        }
        if data.len() < 1 {
            return None;
        }
        let cols: usize = data[0].len();
        if cols < 1 {
            return None;
        }
        let mut i: usize = 1;
        while i < data.len()
            invariant
                1 <= i <= data.len(),
                cols == data@[0]@.len(),
                forall|k: int| 0 <= k < i ==> (#[trigger] data@[k])@.len() == cols,
                forall|k: int|
                    0 <= k < data@.len() ==> (#[trigger] data.deep_view()[k]) == data@[k]@,
                data.deep_view().len() == data@.len(),
            decreases data.len() - i,
        {
            if data[i].len() != cols {
                assert(data.deep_view()[i as int].len() != data.deep_view()[0].len());
                return None;
            }
            i = i + 1;
        }
        Some(Matrix { rows: data.len(), cols, data })
    }

    /// Number of rows.
    pub fn rows(&self) -> (n: usize)
        ensures
            n == self@.len(),
            rectangular(self@),
    {
        proof {
            use_type_invariant(self);
        }
        self.rows
    }

    /// Number of columns.
    pub fn cols(&self) -> (n: usize)
        ensures
            n == self@[0].len(),
            rectangular(self@),
    {
        proof {
            use_type_invariant(self);
        }
        self.cols
    }

    /// Whether every entry is zero or more.
    pub fn is_positive(&self) -> (b: bool)
        ensures
            b == table_non_negative(self@),
    {
        proof {
            use_type_invariant(self);
            lemma_table_entries(self.data);
        }
        let mut i: usize = 0;
        while i < self.rows
            invariant
                i <= self.rows,
                self.inv(),
                forall|k: int|
                    0 <= k < self.data@.len() ==> (#[trigger] self@[k]) == self.data@[k]@,
                forall|k: int| 0 <= k < i ==> all_non_negative(#[trigger] self@[k]),
            decreases self.rows - i,
        {
            let mut j: usize = 0;
            while j < self.cols
                invariant
                    i < self.rows,
                    j <= self.cols,
                    self.inv(),
                    self@[i as int] == self.data@[i as int]@,
                    forall|k: int| 0 <= k < j ==> self@[i as int][k] >= 0,
                decreases self.cols - j,
            {
                if self.data[i][j] < 0 {
                    assert(!all_non_negative(self@[i as int]));
                    return false;
                }
                j = j + 1;
            }
            i = i + 1;
        }
        true
    }
    /// Replaces every entry `x` by `-log2(x)`; the shape stays.
    pub fn minus_log(&self) -> (r: Matrix)
        requires
            table_non_negative(self@),
        ensures
            r@ == table_costs(self@),
    {
        proof {
            use_type_invariant(self);
            lemma_table_entries(self.data);
        }
        let mut data: Vec<Vec<i64>> = Vec::with_capacity(self.rows);
        let mut i: usize = 0;
        while i < self.rows
            invariant
                i <= self.rows,
                self.inv(),
                table_non_negative(self@),
                forall|k: int|
                    0 <= k < self.data@.len() ==> (#[trigger] self@[k]) == self.data@[k]@,
                data@.len() == i,
                forall|k: int| 0 <= k < i ==> (#[trigger] data@[k])@ == costs_of(self@[k]),
            decreases self.rows - i,
        {
            let mut row: Vec<i64> = Vec::with_capacity(self.cols);
            let mut j: usize = 0;
            assert(all_non_negative(self@[i as int]));
            while j < self.cols
                invariant
                    i < self.rows,
                    j <= self.cols,
                    self.inv(),
                    all_non_negative(self@[i as int]),
                    self@[i as int] == self.data@[i as int]@,
                    row@.len() == j,
                    forall|k: int| 0 <= k < j ==> row@[k] == spec_neg_log2(self@[i as int][k]),
                decreases self.cols - j,
            {
                row.push(neg_log2(self.data[i][j]));
                j = j + 1;
            }
            assert(row@ =~= costs_of(self@[i as int]));
            data.push(row);
            i = i + 1;
        }
        proof {
            lemma_table_entries(data);
            assert(data.deep_view() =~= table_costs(self@));
        }
        Matrix { rows: self.rows, cols: self.cols, data }
    }

    /// Copy of column `index`, top to bottom. Fails when there is no such
    /// column.
    pub fn column(&self, index: usize) -> (r: Option<Vector>)
        ensures
            r is Some <==> index < self@[0].len(),
            r matches Some(v) ==> v@ == column_of(self@, index as int),
    {
        proof {
            use_type_invariant(self);
            lemma_table_entries(self.data);
        }
        if index >= self.cols {
            return None;
        }
        let mut data: Vec<i64> = Vec::with_capacity(self.rows);
        let mut i: usize = 0;
        while i < self.rows
            invariant
                i <= self.rows,
                index < self.cols,
                self.inv(),
                forall|k: int|
                    0 <= k < self.data@.len() ==> (#[trigger] self@[k]) == self.data@[k]@,
                data@.len() == i,
                forall|k: int| 0 <= k < i ==> data@[k] == self@[k][index as int],
            decreases self.rows - i,
        {
            assert(self@[i as int] == self.data@[i as int]@);
            data.push(self.data[i][index]);
            i = i + 1;
        }
        assert(data@ =~= column_of(self@, index as int));
        Some(Vector { data })
    }

    /// Adds `v[i]` to every entry of row `i`, for each row that `v` reaches.
    /// Rows beyond the end of `v` are copied unchanged.
    ///
    /// The name looks at the result from the columns: every column receives
    /// `v`, entry by entry. [`Matrix::add_to_rows`] is the same operation.
    pub fn add_to_columns(&self, v: &Vector) -> (r: Matrix)
        ensures
            r@ == rows_raised(self@, v@),
    {
        self.add_to_rows(v)
    }

    /// Adds `v[i]` to every entry of row `i`, for each row that `v` reaches.
    /// Rows beyond the end of `v` are copied unchanged.
    pub fn add_to_rows(&self, v: &Vector) -> (r: Matrix)
        ensures
            r@ == rows_raised(self@, v@),
    {
        proof {
            use_type_invariant(self);
            lemma_table_entries(self.data);
        }
        let mut data: Vec<Vec<i64>> = Vec::with_capacity(self.rows);
        let mut i: usize = 0;
        while i < self.rows
            invariant
                i <= self.rows,
                self.inv(),
                forall|k: int|
                    0 <= k < self.data@.len() ==> (#[trigger] self@[k]) == self.data@[k]@,
                data@.len() == i,
                forall|k: int|
                    0 <= k < i ==> (#[trigger] data@[k])@ == rows_raised(self@, v@)[k],
            decreases self.rows - i,
        {
            let mut row: Vec<i64> = Vec::with_capacity(self.cols);
            let mut j: usize = 0;
            while j < self.cols
                invariant
                    i < self.rows,
                    j <= self.cols,
                    self.inv(),
                    self@[i as int] == self.data@[i as int]@,
                    row@.len() == j,
                    forall|k: int|
                        0 <= k < j ==> row@[k] == if i < v@.len() {
                            spec_saturating_sum(self@[i as int][k], v@[i as int])
                        } else {
                            self@[i as int][k]
                        },
                decreases self.cols - j,
            {
                let x: i64 = self.data[i][j];
                if i < v.len() {
                    row.push(saturating_sum(x, v.get(i)));
                } else {
                    row.push(x);
                }
                j = j + 1;
            }
            assert(row@ =~= rows_raised(self@, v@)[i as int]);
            data.push(row);
            i = i + 1;
        }
        proof {
            lemma_table_entries(data);
            assert(data.deep_view() =~= rows_raised(self@, v@));
        }
        Matrix { rows: self.rows, cols: self.cols, data }
    }

    /// Row of the least entry of column `j`; of several equal ones, the
    /// first.
    fn argmin_of_column(&self, j: usize) -> (k: usize)
        requires
            j < self@[0].len(),
        ensures
            k < self@.len(),
            k == first_min(column_of(self@, j as int)),
            is_first_min(column_of(self@, j as int), k as int),
    {
        proof {
            use_type_invariant(self);
            lemma_table_entries(self.data);
        }
        let ghost col = column_of(self@, j as int);
        assert(self@[0] == self.data@[0]@);
        let mut best: usize = 0;
        let mut least: i64 = self.data[0][j];
        let mut i: usize = 1;
        while i < self.rows
            invariant
                1 <= i <= self.rows,
                j < self.cols,
                self.inv(),
                col == column_of(self@, j as int),
                forall|k: int|
                    0 <= k < self.data@.len() ==> (#[trigger] self@[k]) == self.data@[k]@,
                best < i,
                least == col[best as int],
                forall|k: int| 0 <= k < i ==> col[best as int] <= col[k],
                forall|k: int| 0 <= k < best ==> col[best as int] < col[k],
            decreases self.rows - i,
        {
            assert(self@[i as int] == self.data@[i as int]@);
            let x: i64 = self.data[i][j];
            assert(x == col[i as int]);
            if x < least {
                least = x;
                best = i;
            }
            i = i + 1;
        }
        proof {
            lemma_first_min_exists(col);
            lemma_first_min_unique(col, best as int, first_min(col));
        }
        best
    }

    /// Least entry of each column.
    pub fn min_by_column(&self) -> (r: Vector)
        ensures
            r@ == column_minima(self@),
    {
        proof {
            use_type_invariant(self);
            lemma_table_entries(self.data);
        }
        let mut data: Vec<i64> = Vec::with_capacity(self.cols);
        let mut j: usize = 0;
        while j < self.cols
            invariant
                j <= self.cols,
                self.inv(),
                forall|k: int|
                    0 <= k < self.data@.len() ==> (#[trigger] self@[k]) == self.data@[k]@,
                data@.len() == j,
                forall|k: int| 0 <= k < j ==> data@[k] == column_minima(self@)[k],
            decreases self.cols - j,
        {
            let i: usize = self.argmin_of_column(j);
            assert(self@[i as int] == self.data@[i as int]@);
            data.push(self.data[i][j]);
            j = j + 1;
        }
        assert(data@ =~= column_minima(self@));
        Vector { data }
    }

    /// Row of the least entry of each column; of several equal ones, the
    /// first.
    pub fn argmin_by_column(&self) -> (r: Vec<usize>)
        ensures
            r@ == column_argmins(self@),
    {
        proof {
            use_type_invariant(self);
        }
        let mut args: Vec<usize> = Vec::with_capacity(self.cols);
        let mut j: usize = 0;
        while j < self.cols
            invariant
                j <= self.cols,
                self.inv(),
                args@.len() == j,
                forall|k: int| 0 <= k < j ==> args@[k] == column_argmins(self@)[k],
            decreases self.cols - j,
        {
            let i: usize = self.argmin_of_column(j);
            args.push(i);
            j = j + 1;
        }
        assert(args@ =~= column_argmins(self@));
        args
    }
}

} // verus!
