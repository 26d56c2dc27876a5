//! Counting for tests on categories: contingency tables and degrees of
//! freedom. A category is given by its code, a number below the number of
//! categories.

use vstd::prelude::*;

verus! {

/// How many places of `codes` hold the code `code`.
pub open spec fn occurrences(codes: Seq<usize>, code: int) -> nat
    decreases codes.len(),
{
    if codes.len() == 0 {
        0
    } else {
        occurrences(codes.drop_last(), code) + if codes.last() == code {
            1nat
        } else {
            0nat
        }
    }
}

/// How many of the first `n` places hold `row` in `rows` and `col` in `cols`.
pub open spec fn joint_occurrences(rows: Seq<usize>, cols: Seq<usize>, row: int, col: int, n: int) -> nat
    decreases n,
{
    if n <= 0 {
        0
    } else {
        joint_occurrences(rows, cols, row, col, n - 1) + if rows[n - 1] == row && cols[n - 1]
            == col {
            1nat
        } else {
            0nat
        }
    }
}

/// The sum of the sizes.
pub open spec fn total(sizes: Seq<usize>) -> nat
    decreases sizes.len(),
{
    if sizes.len() == 0 {
        0
    } else {
        total(sizes.drop_last()) + sizes.last() as nat
    }
}

/// The degrees of freedom between and within `groups` groups that hold
/// `observations` observations in all: one less than the number of groups,
/// and the observations that the groups leave free. Neither goes below zero.
pub open spec fn group_degrees(groups: int, observations: int) -> (int, int) {
    (
        if groups > 0 {
            groups - 1
        } else {
            0
        },
        if observations > groups {
            observations - groups
        } else {
            0
        },
    )
}

/// The degrees of freedom between and within groups of the given sizes.
/// They are filled in whether or not a statistic can be computed.
pub fn degrees_of_freedom(group_sizes: &[usize]) -> (df: (usize, usize))
    requires
        total(group_sizes@) <= usize::MAX,
    ensures
        (df.0 as int, df.1 as int) == group_degrees(
            group_sizes.len() as int,
            total(group_sizes@) as int,
        ),
{
    let k = group_sizes.len();
    let mut observations: usize = 0;
    let mut i: usize = 0;
    assert(group_sizes@.take(0) =~= Seq::<usize>::empty());
    while i < k
        invariant
            k == group_sizes.len(),
            i <= k,
            total(group_sizes@) <= usize::MAX,
            observations == total(group_sizes@.take(i as int)),
        decreases k - i,
    {
        proof {
            assert(group_sizes@.take(i + 1).drop_last() =~= group_sizes@.take(i as int));
            lemma_total_grows(group_sizes@, i + 1);
        }
        observations = observations + group_sizes[i];
        i = i + 1;
    }
    assert(group_sizes@.take(k as int) =~= group_sizes@);
    let between = if k > 0 {
        k - 1
    } else {
        0
    };
    let within = if observations > k {
        observations - k
    } else {
        0
    };
    (between, within)
}

/// The sizes of the first groups never add up to more than all of them.
proof fn lemma_total_grows(sizes: Seq<usize>, n: int)
    requires
        0 <= n <= sizes.len(),
    ensures
        total(sizes.take(n)) <= total(sizes),
    decreases sizes.len() - n,
{
    if n == sizes.len() {
        assert(sizes.take(n) =~= sizes);
    } else {
        lemma_total_grows(sizes, n + 1);
        assert(sizes.take(n + 1).drop_last() =~= sizes.take(n));
    }
}

/// A two-way table of counts, with its row and column totals. Cells are kept
/// row by row.
pub struct ContingencyTable {
    pub num_rows: usize,
    pub num_cols: usize,
    pub cells: Vec<usize>,
    pub row_counts: Vec<usize>,
    pub col_counts: Vec<usize>,
}

impl ContingencyTable {
    /// The table has a cell for every pair of a row and a column, and a
    /// total for every row and every column.
    pub open spec fn wf(&self) -> bool {
        &&& self.cells.len() == self.num_rows * self.num_cols
        &&& self.row_counts.len() == self.num_rows
        &&& self.col_counts.len() == self.num_cols
    }

    /// The count in row `row` and column `col`.
    pub open spec fn cell(&self, row: int, col: int) -> usize {
        self.cells[row * self.num_cols + col]
    }

    /// The table counts the observations that `rows` and `cols` give, place
    /// by place.
    pub open spec fn describes(&self, rows: Seq<usize>, cols: Seq<usize>) -> bool {
        &&& self.wf()
        &&& forall|r: int, c: int|
            0 <= r < self.num_rows && 0 <= c < self.num_cols ==> #[trigger] self.cell(r, c)
                == joint_occurrences(rows, cols, r, c, rows.len() as int)
        &&& forall|r: int|
            0 <= r < self.num_rows ==> #[trigger] self.row_counts[r] == occurrences(rows, r)
        &&& forall|c: int|
            0 <= c < self.num_cols ==> #[trigger] self.col_counts[c] == occurrences(cols, c)
    }

    /// The observed count in row `row` and column `col`.
    pub fn observed(&self, row: usize, col: usize) -> (count: usize)
        requires
            self.wf(),
            row < self.num_rows,
            col < self.num_cols,
        ensures
            count == self.cell(row as int, col as int),
    {
        proof {
            lemma_cell_index(self.num_rows as int, self.num_cols as int, row as int, col as int);
        }
        self.cells[row * self.num_cols + col]
    }

    /// The degrees of freedom of a test of independence on this table: one
    /// less than the rows times one less than the columns.
    pub fn degrees_of_freedom(&self) -> (df: usize)
        requires
            self.wf(),
            self.num_rows >= 1,
            self.num_cols >= 1,
        ensures
            df == (self.num_rows - 1) * (self.num_cols - 1),
    {
        proof {
            lemma_cell_index(
                self.num_rows as int,
                self.num_cols as int,
                self.num_rows - 1,
                self.num_cols - 1,
            );
            assert((self.num_rows - 1) * (self.num_cols - 1) <= (self.num_rows - 1)
                * self.num_cols + (self.num_cols - 1)) by (nonlinear_arith)
                requires
                    self.num_rows >= 1,
                    self.num_cols >= 1,
            ;
        }
        (self.num_rows - 1) * (self.num_cols - 1)
    }
}

/// The cell of a row and a column lies inside a table kept row by row, and
/// different pairs have different cells.
pub proof fn lemma_cell_index(num_rows: int, num_cols: int, row: int, col: int)
    requires
        0 <= row < num_rows,
        0 <= col < num_cols,
    ensures
        0 <= row * num_cols + col < num_rows * num_cols,
        (row * num_cols + col) / num_cols == row,
        (row * num_cols + col) % num_cols == col,
{
    assert(0 <= row * num_cols + col < num_rows * num_cols) by (nonlinear_arith)
        requires
            0 <= row < num_rows,
            0 <= col < num_cols,
    ;
    vstd::arithmetic::div_mod::lemma_fundamental_div_mod_converse(
        row * num_cols + col,
        num_cols,
        row,
        col,
    );
}

/// No code occurs more often than there are places.
pub proof fn lemma_occurrences_bounded(codes: Seq<usize>, code: int)
    ensures
        occurrences(codes, code) <= codes.len(),
    decreases codes.len(),
{
    if codes.len() > 0 {
        lemma_occurrences_bounded(codes.drop_last(), code);
    }
}

/// No pair occurs more often than there are places.
pub proof fn lemma_joint_occurrences_bounded(
    rows: Seq<usize>,
    cols: Seq<usize>,
    row: int,
    col: int,
    n: int,
)
    requires
        0 <= n,
    ensures
        joint_occurrences(rows, cols, row, col, n) <= n,
    decreases n,
{
    if n > 0 {
        lemma_joint_occurrences_bounded(rows, cols, row, col, n - 1);
    }
}

/// The sum of the cells of row `row` in the columns `0..upto`.
pub open spec fn row_sum(rows: Seq<usize>, cols: Seq<usize>, row: int, upto: int, n: int) -> nat
    decreases upto,
{
    if upto <= 0 {
        0
    } else {
        row_sum(rows, cols, row, upto - 1, n) + joint_occurrences(rows, cols, row, upto - 1, n)
    }
}

/// A row total is the sum of the cells of its row: where every column code
/// is below `num_cols`, the cells of a row add up to the occurrences of the
/// row.
pub proof fn lemma_row_total(rows: Seq<usize>, cols: Seq<usize>, row: int, num_cols: int)
    requires
        rows.len() == cols.len(),
        num_cols >= 0,
        forall|k: int| 0 <= k < cols.len() ==> #[trigger] cols[k] < num_cols,
    ensures
        row_sum(rows, cols, row, num_cols, rows.len() as int) == occurrences(rows, row),
{
    lemma_row_sum_prefix(rows, cols, row, num_cols, num_cols, rows.len() as int);
    lemma_occurrences_prefix(rows, row, rows.len() as int);
    assert(rows.take(rows.len() as int) =~= rows);
}

proof fn lemma_occurrences_prefix(codes: Seq<usize>, code: int, n: int)
    requires
        0 <= n <= codes.len(),
    ensures
        occurrences(codes.take(n), code) == if n == 0 {
            0
        } else {
            occurrences(codes.take(n - 1), code) + if codes[n - 1] == code {
                1nat
            } else {
                0nat
            }
        },
{
    if n > 0 {
        assert(codes.take(n).drop_last() =~= codes.take(n - 1));
    }
}

proof fn lemma_row_sum_prefix(
    rows: Seq<usize>,
    cols: Seq<usize>,
    row: int,
    num_cols: int,
    upto: int,
    n: int,
)
    requires
        rows.len() == cols.len(),
        0 <= n <= rows.len(),
        0 <= upto <= num_cols,
        forall|k: int| 0 <= k < cols.len() ==> #[trigger] cols[k] < num_cols,
    ensures
        upto == num_cols ==> row_sum(rows, cols, row, upto, n) == occurrences(rows.take(n), row),
        n > 0 ==> row_sum(rows, cols, row, upto, n) == row_sum(rows, cols, row, upto, n - 1) + if rows[n
            - 1] == row && cols[n - 1] < upto {
            1nat
        } else {
            0nat
        },
        n == 0 ==> row_sum(rows, cols, row, upto, n) == 0,
    decreases n, upto,
{
    if upto > 0 {
        lemma_row_sum_prefix(rows, cols, row, num_cols, upto - 1, n);
    }
    if upto == num_cols {
        lemma_occurrences_prefix(rows, row, n);
        if n > 0 {
            lemma_row_sum_prefix(rows, cols, row, num_cols, upto, n - 1);
        }
    }
}

/// Swapping the roles of rows and columns swaps the indices of every cell.
pub proof fn lemma_joint_transpose(rows: Seq<usize>, cols: Seq<usize>, row: int, col: int, n: int)
    ensures
        joint_occurrences(rows, cols, row, col, n) == joint_occurrences(cols, rows, col, row, n),
    decreases n,
{
    if n > 0 {
        lemma_joint_transpose(rows, cols, row, col, n - 1);
    }
}

/// The sum of the cells of column `col` in the rows `0..upto`.
pub open spec fn col_sum(rows: Seq<usize>, cols: Seq<usize>, col: int, upto: int, n: int) -> nat
    decreases upto,
{
    if upto <= 0 {
        0
    } else {
        col_sum(rows, cols, col, upto - 1, n) + joint_occurrences(rows, cols, upto - 1, col, n)
    }
}

proof fn lemma_col_sum_is_transposed_row_sum(
    rows: Seq<usize>,
    cols: Seq<usize>,
    col: int,
    upto: int,
    n: int,
)
    ensures
        col_sum(rows, cols, col, upto, n) == row_sum(cols, rows, col, upto, n),
    decreases upto,
{
    if upto > 0 {
        lemma_col_sum_is_transposed_row_sum(rows, cols, col, upto - 1, n);
        lemma_joint_transpose(rows, cols, upto - 1, col, n);
    }
}

/// A column total is the sum of the cells of its column: where every row
/// code is below `num_rows`, the cells of a column add up to the occurrences
/// of the column.
pub proof fn lemma_col_total(rows: Seq<usize>, cols: Seq<usize>, col: int, num_rows: int)
    requires
        rows.len() == cols.len(),
        num_rows >= 0,
        forall|k: int| 0 <= k < rows.len() ==> #[trigger] rows[k] < num_rows,
    ensures
        col_sum(rows, cols, col, num_rows, rows.len() as int) == occurrences(cols, col),
{
    lemma_col_sum_is_transposed_row_sum(rows, cols, col, num_rows, rows.len() as int);
    lemma_row_total(cols, rows, col, num_rows);
}

/// The sum of the occurrences of the codes `0..upto`.
pub open spec fn occurrences_below(codes: Seq<usize>, upto: int) -> nat
    decreases upto,
{
    if upto <= 0 {
        0
    } else {
        occurrences_below(codes, upto - 1) + occurrences(codes, upto - 1)
    }
}

proof fn lemma_occurrences_below_step(codes: Seq<usize>, upto: int)
    requires
        0 <= upto,
    ensures
        codes.len() == 0 ==> occurrences_below(codes, upto) == 0,
        codes.len() > 0 ==> occurrences_below(codes, upto) == occurrences_below(
            codes.drop_last(),
            upto,
        ) + if codes.last() < upto {
            1nat
        } else {
            0nat
        },
    decreases upto,
{
    if upto > 0 {
        lemma_occurrences_below_step(codes, upto - 1);
    }
}

/// The totals of all categories add up to the number of observations, where
/// every code is below the number of categories.
pub proof fn lemma_totals_add_up(codes: Seq<usize>, categories: int)
    requires
        categories >= 0,
        forall|k: int| 0 <= k < codes.len() ==> #[trigger] codes[k] < categories,
    ensures
        occurrences_below(codes, categories) == codes.len(),
    decreases codes.len(),
{
    lemma_occurrences_below_step(codes, categories);
    if codes.len() > 0 {
        lemma_totals_add_up(codes.drop_last(), categories);
    }
}

/// A vector of `n` zeros.
fn zeros(n: usize) -> (v: Vec<usize>)
    ensures
        v.len() == n,
        forall|i: int| 0 <= i < n ==> #[trigger] v[i] == 0,
{
    let mut v: Vec<usize> = Vec::with_capacity(n);
    let mut i: usize = 0;
    while i < n
        invariant
            i <= n,
            v.len() == i,
            forall|j: int| 0 <= j < i ==> #[trigger] v[j] == 0,
        decreases n - i,
    {
        v.push(0);
        i = i + 1;
    }
    v
}

/// Whether a table with the given numbers of rows and columns can be built
/// for the observations: the two sequences pair up, every code is below its
/// number of categories, and the number of cells fits the machine.
pub open spec fn tabulable(rows: Seq<usize>, cols: Seq<usize>, num_rows: usize, num_cols: usize) -> bool {
    &&& rows.len() == cols.len()
    &&& num_rows * num_cols <= usize::MAX
    &&& forall|k: int| 0 <= k < rows.len() ==> #[trigger] rows[k] < num_rows
    &&& forall|k: int| 0 <= k < cols.len() ==> #[trigger] cols[k] < num_cols
}

/// Builds the contingency table of paired observations, given by the code of
/// their row and the code of their column. There is no table where the
/// observations do not pair up or a code is not below the number of its
/// categories.
pub fn contingency_table(rows: &[usize], cols: &[usize], num_rows: usize, num_cols: usize) -> (table:
    Option<ContingencyTable>)
    ensures
        table.is_some() == tabulable(rows@, cols@, num_rows, num_cols),
        table matches Some(t) ==> t.num_rows == num_rows && t.num_cols == num_cols && t.describes(
            rows@,
            cols@,
        ),
{
    if rows.len() != cols.len() {
        return None;
    }
    let size = match num_rows.checked_mul(num_cols) {
        Some(size) => size,
        None => {
            return None;
        },
    };
    let mut t = ContingencyTable {
        num_rows,
        num_cols,
        cells: zeros(size),
        row_counts: zeros(num_rows),
        col_counts: zeros(num_cols),
    };
    let n = rows.len();
    let mut i: usize = 0;
    proof {
        assert forall|r: int, c: int| 0 <= r < num_rows && 0 <= c < num_cols implies #[trigger] t.cell(
            r,
            c,
        ) == 0 by {
            lemma_cell_index(num_rows as int, num_cols as int, r, c);
        }
        assert(rows@.take(0) =~= Seq::<usize>::empty());
        assert(cols@.take(0) =~= Seq::<usize>::empty());
    }
    while i < n
        invariant
            n == rows.len(),
            n == cols.len(),
            i <= n,
            t.num_rows == num_rows,
            t.num_cols == num_cols,
            t.wf(),
            forall|k: int| 0 <= k < i ==> #[trigger] rows@[k] < num_rows,
            forall|k: int| 0 <= k < i ==> #[trigger] cols@[k] < num_cols,
            forall|r: int, c: int|
                0 <= r < num_rows && 0 <= c < num_cols ==> #[trigger] t.cell(r, c)
                    == joint_occurrences(rows@, cols@, r, c, i as int),
            forall|r: int|
                0 <= r < num_rows ==> #[trigger] t.row_counts[r] == occurrences(
                    rows@.take(i as int),
                    r,
                ),
            forall|c: int|
                0 <= c < num_cols ==> #[trigger] t.col_counts[c] == occurrences(
                    cols@.take(i as int),
                    c,
                ),
        decreases n - i,
    {
        let r = rows[i];
        let c = cols[i];
        if r >= num_rows || c >= num_cols {
            return None;
        }
        proof {
            lemma_cell_index(num_rows as int, num_cols as int, r as int, c as int);
            lemma_joint_occurrences_bounded(rows@, cols@, r as int, c as int, i as int);
            lemma_occurrences_bounded(rows@.take(i as int), r as int);
            lemma_occurrences_bounded(cols@.take(i as int), c as int);
        }
        let at = r * num_cols + c;
        let ghost before = t;
        assert(before.cell(r as int, c as int) == t.cells[at as int]);
        let cell = t.cells[at];
        t.cells[at] = cell + 1;
        let row_count = t.row_counts[r];
        t.row_counts[r] = row_count + 1;
        let col_count = t.col_counts[c];
        t.col_counts[c] = col_count + 1;
        proof {
            assert forall|r2: int, c2: int| 0 <= r2 < num_rows && 0 <= c2 < num_cols implies #[trigger] t.cell(
                r2,
                c2,
            ) == joint_occurrences(rows@, cols@, r2, c2, i + 1) by {
                lemma_cell_index(num_rows as int, num_cols as int, r2, c2);
                assert(before.cell(r2, c2) == joint_occurrences(rows@, cols@, r2, c2, i as int));
                if r2 != r || c2 != c {
                    assert(r2 * num_cols + c2 != at);
                }
            }
            assert forall|r2: int| 0 <= r2 < num_rows implies #[trigger] t.row_counts[r2]
                == occurrences(rows@.take(i + 1), r2) by {
                lemma_occurrences_prefix(rows@, r2, i + 1);
            }
            assert forall|c2: int| 0 <= c2 < num_cols implies #[trigger] t.col_counts[c2]
                == occurrences(cols@.take(i + 1), c2) by {
                lemma_occurrences_prefix(cols@, c2, i + 1);
            }
        }
        i = i + 1;
    }
    proof {
        assert(rows@.take(n as int) =~= rows@);
        assert(cols@.take(n as int) =~= cols@);
    }
    Some(t)
}

} // verus!
