use vstd::prelude::*;

verus! {

/// The entries of a matrix held as a vector of rows.
pub open spec fn rows_view(d: Seq<Vec<u8>>) -> Seq<Seq<u8>> {
    Seq::new(d.len(), |i: int| d[i]@)
}

/// `m` has `cols` columns in every row and holds only the entries 0 and 1.
pub open spec fn is_bit_matrix(m: Seq<Seq<u8>>, cols: nat) -> bool {
    forall|i: int|
        0 <= i < m.len() ==> (#[trigger] m[i]).len() == cols && forall|j: int|
            0 <= j < cols ==> #[trigger] m[i][j] <= 1
}

/// The fully row-reduced form that quizx's Gauss-Jordan elimination gives for `m`.
pub uninterp spec fn gf2_row_reduced(m: Seq<Seq<u8>>) -> Seq<Seq<u8>>;

/// The first position at or after `j` where `row` is non-zero, or `row.len()`.
pub open spec fn lead_from(row: Seq<u8>, j: int) -> int
    decreases row.len() - j,
{
    if j >= row.len() {
        row.len() as int
    } else if row[j] != 0 {
        j
    } else {
        lead_from(row, j + 1)
    }
}

/// The position of the leading non-zero entry of `row`, or `row.len()`.
pub open spec fn lead(row: Seq<u8>) -> int {
    lead_from(row, 0)
}

/// `r` is in reduced row-echelon form: non-zero rows come before zero rows, their leading entries move strictly
/// right, and each leading entry's column is zero in every other row.
pub open spec fn is_rref(r: Seq<Seq<u8>>) -> bool {
    &&& forall|i: int, j: int|
        0 <= i < j < r.len() && row_nonzero(#[trigger] r[j]) ==> row_nonzero(#[trigger] r[i]) && lead(r[i]) < lead(
            r[j],
        )
    &&& forall|i: int, t: int|
        0 <= i < r.len() && 0 <= t < r.len() && t != i && row_nonzero(#[trigger] r[i]) ==> #[trigger] r[t][lead(
            r[i],
        )] == 0
}

/// Column `c` of the GF(2) sum of the rows `r[t]`, `t < k`, with `a[t]`.
pub open spec fn combination(a: Seq<bool>, r: Seq<Seq<u8>>, c: int, k: int) -> bool
    decreases k,
{
    if k <= 0 {
        false
    } else {
        combination(a, r, c, k - 1) != (a[k - 1] && r[k - 1][c] == 1)
    }
}

/// `row` is the GF(2) sum of the rows `r[t]` with `a[t]`, on its first `cols` entries.
pub open spec fn row_is_sum(row: Seq<u8>, a: Seq<bool>, r: Seq<Seq<u8>>, cols: int) -> bool {
    &&& a.len() == r.len()
    &&& forall|c: int| 0 <= c < cols ==> (#[trigger] row[c] == 1) == combination(a, r, c, r.len() as int)
}

/// `row` is a GF(2) sum of rows of `r`.
pub open spec fn row_spanned(row: Seq<u8>, r: Seq<Seq<u8>>, cols: int) -> bool {
    exists|a: Seq<bool>| #[trigger] row_is_sum(row, a, r, cols)
}

/// Every row of `m` is a GF(2) sum of rows of `r`.
pub open spec fn rows_spanned(m: Seq<Seq<u8>>, r: Seq<Seq<u8>>, cols: int) -> bool {
    forall|i: int| 0 <= i < m.len() ==> #[trigger] row_spanned(m[i], r, cols)
}

/// The sum of the rows `r[t]` with `a[t]` is zero on the first `cols` columns.
pub open spec fn sums_to_zero(a: Seq<bool>, r: Seq<Seq<u8>>, cols: int) -> bool {
    forall|c: int| 0 <= c < cols ==> !#[trigger] combination(a, r, c, r.len() as int)
}

/// The rows of `r` are independent over GF(2): only the empty choice of them
/// sums to zero.
pub open spec fn rows_independent(r: Seq<Seq<u8>>, cols: int) -> bool {
    forall|a: Seq<bool>|
        a.len() == r.len() && #[trigger] sums_to_zero(a, r, cols) ==> forall|j: int| 0 <= j < a.len() ==> !a[j]
}

/// The GF(2) sum of the entries `x[j]`, `j < k`, with `a[j]`.
pub open spec fn col_combination(a: Seq<bool>, x: Seq<u8>, k: int) -> bool
    decreases k,
{
    if k <= 0 {
        false
    } else {
        col_combination(a, x, k - 1) != (a[k - 1] && x[k - 1] == 1)
    }
}

/// The sum of the columns `j < k` of `c` with `a[j]` is zero.
pub open spec fn columns_sum_to_zero(a: Seq<bool>, c: Seq<Seq<u8>>, k: int) -> bool {
    forall|i: int| 0 <= i < c.len() ==> !#[trigger] col_combination(a, c[i], k)
}

/// Column `j` of `c` has a 1.
pub open spec fn column_nonzero(c: Seq<Seq<u8>>, j: int) -> bool {
    exists|i: int| 0 <= i < c.len() && #[trigger] c[i][j] == 1
}

/// The first `k` columns of `c` are independent over GF(2): only the empty
/// choice of them sums to zero.
pub open spec fn columns_independent(c: Seq<Seq<u8>>, k: int) -> bool {
    forall|a: Seq<bool>|
        a.len() == k && #[trigger] columns_sum_to_zero(a, c, k) ==> forall|j: int| 0 <= j < k ==> !a[j]
}

/// `f`'s rows are in reduced row-echelon form, independent, and span the
/// rows of `m` and are spanned by them (a basis of its row space, so their
/// number is the rank of `m`), and the columns of `c` are independent.
#[verifier::opaque]
pub open spec fn factors_form_basis(m: Seq<Seq<u8>>, c: Seq<Seq<u8>>, f: Seq<Seq<u8>>, cols: int) -> bool {
    &&& is_rref(f)
    &&& rows_independent(f, cols)
    &&& rows_spanned(m, f, cols)
    &&& rows_spanned(f, m, cols)
    &&& columns_independent(c, f.len() as int)
}

/// Entry `col` of the GF(2) product of the row `x` with the first `k` rows of `f`.
pub open spec fn product_bit(x: Seq<u8>, f: Seq<Seq<u8>>, col: int, k: int) -> bool
    decreases k,
{
    if k <= 0 {
        false
    } else {
        product_bit(x, f, col, k - 1) != (x[k - 1] == 1 && f[k - 1][col] == 1)
    }
}

/// Relies on quizx's `Mat2::gauss_x(true, cols, &mut ())`, which reduces the
/// matrix in place by adding one row to another (XOR) and swapping rows: the
/// shape is kept and entries stay 0 or 1. Since every step adds one row to
/// another, different row, each step can be undone by repeating it: every
/// input row is a GF(2) sum of result rows, and every result row a GF(2) sum
/// of input rows. With full
/// reduction the result is in reduced row-echelon form: the forward pass
/// clears each pivot column below its pivot row and the backward pass above
/// it. Its `cols % blocksize` needs `cols > 0`, and its row slicing needs
/// every row to have `cols` entries.
#[verifier::external_body]
fn gauss_reduce(d: &Vec<Vec<u8>>, cols: usize) -> (r: Vec<Vec<u8>>)
    requires
        cols > 0,
        is_bit_matrix(rows_view(d@), cols as nat),
    ensures
        rows_view(r@) == gf2_row_reduced(rows_view(d@)),
        is_bit_matrix(rows_view(r@), cols as nat),
        r@.len() == d@.len(),
        is_rref(rows_view(r@)),
        rows_spanned(rows_view(d@), rows_view(r@), cols as int),
        rows_spanned(rows_view(r@), rows_view(d@), cols as int),
{
    let mut m = quizx::linalg::Mat2::new(d.clone());
    m.gauss_x(true, cols, &mut ());
    (0..d.len()).map(|i| m[i].clone()).collect()
}

/// The pivot columns found by walking the staircase of `r` from `(row, col)`:
/// a non-zero entry is a pivot and moves one row down, every step moves one
/// column right.
pub open spec fn staircase_pivots(r: Seq<Seq<u8>>, cols: int, row: int, col: int) -> Seq<int>
    decreases cols - col,
{
    if row < 0 || col < 0 || row >= r.len() || col >= cols {
        Seq::empty()
    } else if r[row][col] != 0 {
        seq![col] + staircase_pivots(r, cols, row + 1, col + 1)
    } else {
        staircase_pivots(r, cols, row, col + 1)
    }
}

/// `row` has a non-zero entry.
pub open spec fn row_nonzero(row: Seq<u8>) -> bool {
    exists|j: int| 0 <= j < row.len() && row[j] != 0
}

/// The indices, in increasing order, of the non-zero rows among the first `k` rows of `r`.
pub open spec fn nonzero_rows(r: Seq<Seq<u8>>, k: int) -> Seq<int>
    decreases k,
{
    if k <= 0 {
        Seq::empty()
    } else if row_nonzero(r[k - 1]) {
        nonzero_rows(r, k - 1).push(k - 1)
    } else {
        nonzero_rows(r, k - 1)
    }
}

/// The columns of `m` at the indices `p`, as a matrix with `p.len()` columns.
pub open spec fn select_cols(m: Seq<Seq<u8>>, p: Seq<int>) -> Seq<Seq<u8>> {
    Seq::new(m.len(), |j: int| Seq::new(p.len(), |i: int| m[j][p[i]]))
}

/// The rows of `r` at the indices `q`.
pub open spec fn select_rows(r: Seq<Seq<u8>>, q: Seq<int>) -> Seq<Seq<u8>> {
    Seq::new(q.len(), |i: int| r[q[i]])
}

/// The two factors that `rank_decomposition` returns for the matrix `m` with `cols` columns.
pub open spec fn rank_factors(m: Seq<Seq<u8>>, cols: int) -> (Seq<Seq<u8>>, Seq<Seq<u8>>) {
    if m.len() == 0 || cols <= 0 {
        (select_cols(m, Seq::empty()), Seq::empty())
    } else {
        let r = gf2_row_reduced(m);
        (select_cols(m, staircase_pivots(r, cols, 0, 0)), select_rows(r, nonzero_rows(r, r.len() as int)))
    }
}

proof fn lemma_lead_from(row: Seq<u8>, j: int)
    requires
        0 <= j <= row.len(),
    ensures
        j <= lead_from(row, j) <= row.len(),
        forall|c: int| j <= c < lead_from(row, j) ==> row[c] == 0,
        lead_from(row, j) < row.len() ==> row[lead_from(row, j)] != 0,
    decreases row.len() - j,
{
    if j < row.len() && row[j] == 0 {
        lemma_lead_from(row, j + 1);
    }
}

proof fn lemma_lead(row: Seq<u8>)
    ensures
        0 <= lead(row) <= row.len(),
        forall|c: int| 0 <= c < lead(row) ==> row[c] == 0,
        row_nonzero(row) <==> lead(row) < row.len(),
        lead(row) < row.len() ==> row[lead(row)] != 0,
{
    lemma_lead_from(row, 0);
    if row_nonzero(row) {
        let c = choose|c: int| 0 <= c < row.len() && row[c] != 0;
        assert(!(c < lead(row)));
    }
    if lead(row) < row.len() {
        assert(row[lead(row)] != 0);
    }
}

proof fn lemma_nonzero_prefix(r: Seq<Seq<u8>>, m: int)
    requires
        is_rref(r),
        0 <= m <= r.len(),
    ensures
        nonzero_rows(r, m).len() <= m,
        forall|t: int| 0 <= t < nonzero_rows(r, m).len() ==> nonzero_rows(r, m)[t] == t,
        forall|i: int| 0 <= i < m ==> (row_nonzero(#[trigger] r[i]) <==> i < nonzero_rows(r, m).len()),
    decreases m,
{
    if m > 0 {
        lemma_nonzero_prefix(r, m - 1);
        let q = nonzero_rows(r, m - 1);
        if row_nonzero(r[m - 1]) {
            if m >= 2 {
                assert(row_nonzero(r[m - 2]));
            }
            assert(q.len() == m - 1);
            assert(nonzero_rows(r, m) == q.push(m - 1));
        }
    }
}

proof fn lemma_staircase(r: Seq<Seq<u8>>, cols: int, k: int, row: int, col: int)
    requires
        is_rref(r),
        is_bit_matrix(r, cols as nat),
        0 <= k <= r.len(),
        forall|i: int| 0 <= i < r.len() ==> (row_nonzero(#[trigger] r[i]) <==> i < k),
        0 <= row <= k,
        0 <= col <= cols,
        row < k ==> col <= lead(r[row]),
    ensures
        staircase_pivots(r, cols, row, col) == Seq::new((k - row) as nat, |t: int| lead(r[row + t])),
    decreases cols - col,
{
    let target = Seq::new((k - row) as nat, |t: int| lead(r[row + t]));
    if row >= r.len() {
        assert(target =~= Seq::<int>::empty());
    } else {
        lemma_lead(r[row]);
        if col >= cols {
            assert(target =~= Seq::<int>::empty());
        } else if row == k {
            assert(!row_nonzero(r[row]));
            assert(r[row][col] == 0);
            lemma_staircase(r, cols, k, row, col + 1);
        } else if col < lead(r[row]) {
            assert(r[row][col] == 0);
            lemma_staircase(r, cols, k, row, col + 1);
        } else {
            assert(r[row][col] != 0);
            if row + 1 < k {
                assert(row_nonzero(r[row + 1]));
                assert(lead(r[row]) < lead(r[row + 1]));
            }
            lemma_staircase(r, cols, k, row + 1, col + 1);
            assert(seq![col] + Seq::new((k - row - 1) as nat, |t: int| lead(r[row + 1 + t])) =~= target);
        }
    }
}

proof fn lemma_zero_rows_add_nothing(a: Seq<bool>, r: Seq<Seq<u8>>, cols: int, c: int, k: int, m: int)
    requires
        is_bit_matrix(r, cols as nat),
        0 <= c < cols,
        0 <= k <= m <= r.len(),
        forall|i: int| k <= i < r.len() ==> !row_nonzero(#[trigger] r[i]),
    ensures
        combination(a, r, c, m) == combination(a, r, c, k),
    decreases m,
{
    if m > k {
        lemma_zero_rows_add_nothing(a, r, cols, c, k, m - 1);
        assert(!row_nonzero(r[m - 1]));
        assert(!(r[m - 1][c] != 0));
    }
}

proof fn lemma_pivot_column(a: Seq<bool>, r: Seq<Seq<u8>>, cols: int, j: int, m: int)
    requires
        is_rref(r),
        is_bit_matrix(r, cols as nat),
        0 <= j < r.len(),
        row_nonzero(r[j]),
        0 <= m <= r.len(),
    ensures
        combination(a, r, lead(r[j]), m) == (j < m && a[j]),
    decreases m,
{
    lemma_lead(r[j]);
    if m > 0 {
        lemma_pivot_column(a, r, cols, j, m - 1);
        if m - 1 == j {
            assert(r[j][lead(r[j])] <= 1);
        } else {
            assert(r[m - 1][lead(r[j])] == 0);
        }
    }
}

proof fn lemma_product_is_combination(x: Seq<u8>, f: Seq<Seq<u8>>, a: Seq<bool>, r: Seq<Seq<u8>>, col: int, k: int)
    requires
        0 <= k <= f.len(),
        k <= x.len(),
        k <= a.len(),
        k <= r.len(),
        forall|t: int| 0 <= t < k ==> (#[trigger] x[t] == 1) == a[t],
        forall|t: int| 0 <= t < k ==> #[trigger] f[t] == r[t],
    ensures
        product_bit(x, f, col, k) == combination(a, r, col, k),
    decreases k,
{
    if k > 0 {
        lemma_product_is_combination(x, f, a, r, col, k - 1);
        assert(f[k - 1] == r[k - 1]);
    }
}

/// For a reduced row-echelon form `r` whose rows span those of `m`, the
/// factors read off it multiply back to `m` over GF(2), and there are as many
/// pivot columns as non-zero rows.
pub proof fn lemma_factors_multiply_back(m: Seq<Seq<u8>>, r: Seq<Seq<u8>>, cols: int)
    requires
        is_bit_matrix(m, cols as nat),
        is_bit_matrix(r, cols as nat),
        is_rref(r),
        rows_spanned(m, r, cols),
        cols >= 0,
    ensures
        staircase_pivots(r, cols, 0, 0).len() == nonzero_rows(r, r.len() as int).len(),
        forall|i: int, col: int|
            0 <= i < m.len() && 0 <= col < cols ==> (#[trigger] m[i][col] == 1) == product_bit(
                select_cols(m, staircase_pivots(r, cols, 0, 0))[i],
                select_rows(r, nonzero_rows(r, r.len() as int)),
                col,
                nonzero_rows(r, r.len() as int).len() as int,
            ),
{
    let n = r.len() as int;
    lemma_nonzero_prefix(r, n);
    let q = nonzero_rows(r, n);
    let k = q.len() as int;
    if k > 0 {
        lemma_lead(r[0]);
    }
    lemma_staircase(r, cols, k, 0, 0);
    let p = staircase_pivots(r, cols, 0, 0);
    assert(p =~= Seq::new(k as nat, |t: int| lead(r[0 + t])));
    let f = select_rows(r, q);
    let c = select_cols(m, p);
    assert forall|i: int, col: int| 0 <= i < m.len() && 0 <= col < cols implies (#[trigger] m[i][col] == 1)
        == product_bit(c[i], f, col, k) by {
        assert(row_spanned(m[i], r, cols));
        let a = choose|a: Seq<bool>| #[trigger] row_is_sum(m[i], a, r, cols);
        assert forall|t: int| 0 <= t < k implies (#[trigger] c[i][t] == 1) == a[t] by {
            assert(row_nonzero(r[t]));
            lemma_lead(r[t]);
            assert(p[t] == lead(r[t]));
            assert(c[i][t] == m[i][lead(r[t])]);
            lemma_pivot_column(a, r, cols, t, n);
        }
        assert forall|t: int| 0 <= t < k implies #[trigger] f[t] == r[t] by {
            assert(q[t] == t);
        }
        lemma_product_is_combination(c[i], f, a, r, col, k);
        assert forall|t: int| k <= t < n implies !row_nonzero(#[trigger] r[t]) by {}
        lemma_zero_rows_add_nothing(a, r, cols, col, k, n);
    }
}

proof fn lemma_combination_ext(a: Seq<bool>, r: Seq<Seq<u8>>, b: Seq<bool>, f: Seq<Seq<u8>>, c: int, k: int)
    requires
        0 <= k,
        forall|t: int| 0 <= t < k ==> #[trigger] a[t] == b[t],
        forall|t: int| 0 <= t < k ==> #[trigger] r[t] == f[t],
    ensures
        combination(a, r, c, k) == combination(b, f, c, k),
    decreases k,
{
    if k > 0 {
        lemma_combination_ext(a, r, b, f, c, k - 1);
        assert(a[k - 1] == b[k - 1] && r[k - 1] == f[k - 1]);
    }
}

/// The non-zero rows of a reduced row-echelon form `r` that spans the rows
/// of `m` and is spanned by them form a basis of the row space of `m`: they
/// are non-zero, still in reduced row-echelon form, independent, and span
/// the rows of `m` and are spanned by them.
pub proof fn lemma_factor_rows_basis(m: Seq<Seq<u8>>, r: Seq<Seq<u8>>, cols: int)
    requires
        is_bit_matrix(m, cols as nat),
        is_bit_matrix(r, cols as nat),
        is_rref(r),
        rows_spanned(m, r, cols),
        rows_spanned(r, m, cols),
        cols >= 0,
    ensures
        ({
            let f = select_rows(r, nonzero_rows(r, r.len() as int));
            &&& forall|j: int| 0 <= j < f.len() ==> row_nonzero(#[trigger] f[j])
            &&& is_rref(f)
            &&& rows_independent(f, cols)
            &&& rows_spanned(m, f, cols)
            &&& rows_spanned(f, m, cols)
        }),
{
    let n = r.len() as int;
    lemma_nonzero_prefix(r, n);
    let q = nonzero_rows(r, n);
    let k = q.len() as int;
    let f = select_rows(r, q);
    assert forall|t: int| 0 <= t < k implies #[trigger] f[t] == r[t] by {
        assert(q[t] == t);
    }
    assert forall|j: int| 0 <= j < f.len() implies row_nonzero(#[trigger] f[j]) by {
        assert(f[j] == r[j]);
    }
    assert(is_bit_matrix(f, cols as nat)) by {
        assert forall|i: int| 0 <= i < f.len() implies (#[trigger] f[i]).len() == cols as nat by {
            assert(f[i] == r[i]);
        }
    }
    assert forall|i: int, j: int| 0 <= i < j < f.len() && row_nonzero(#[trigger] f[j]) implies row_nonzero(
        #[trigger] f[i],
    ) && lead(f[i]) < lead(f[j]) by {
        assert(f[i] == r[i] && f[j] == r[j]);
        assert(row_nonzero(r[j]));
    }
    assert forall|i: int, t: int|
        0 <= i < f.len() && 0 <= t < f.len() && t != i && row_nonzero(#[trigger] f[i]) implies #[trigger] f[t][lead(
        f[i],
    )] == 0 by {
        assert(f[i] == r[i] && f[t] == r[t]);
        assert(row_nonzero(r[i]));
    }
    assert(is_rref(f));
    assert forall|a: Seq<bool>| a.len() == f.len() && #[trigger] sums_to_zero(a, f, cols) implies forall|j: int|
        0 <= j < a.len() ==> !a[j] by {
        assert forall|j: int| 0 <= j < a.len() implies !a[j] by {
            lemma_lead(f[j]);
            lemma_pivot_column(a, f, cols, j, k);
            assert(!combination(a, f, lead(f[j]), k));
        }
    }
    assert forall|i: int| 0 <= i < m.len() implies #[trigger] row_spanned(m[i], f, cols) by {
        assert(row_spanned(m[i], r, cols));
        let a = choose|a: Seq<bool>| #[trigger] row_is_sum(m[i], a, r, cols);
        let b = a.subrange(0, k);
        assert forall|c: int| 0 <= c < cols implies (#[trigger] m[i][c] == 1) == combination(b, f, c, f.len() as int) by {
            assert forall|t: int| k <= t < n implies !row_nonzero(#[trigger] r[t]) by {}
            lemma_zero_rows_add_nothing(a, r, cols, c, k, n);
            lemma_combination_ext(a, r, b, f, c, k);
        }
        assert(row_is_sum(m[i], b, f, cols));
    }
    assert forall|j: int| 0 <= j < f.len() implies #[trigger] row_spanned(f[j], m, cols) by {
        assert(r[j] == f[j]);
        assert(row_spanned(r[j], m, cols));
        let b = choose|b: Seq<bool>| #[trigger] row_is_sum(r[j], b, m, cols);
        assert(row_is_sum(f[j], b, m, cols));
    }
    assert(rows_independent(f, cols));
    assert(rows_spanned(m, f, cols));
    assert(rows_spanned(f, m, cols));
}

/// Column `j` of `c` summed over the rows `i < n` with `b[i]`.
spec fn column_sum(b: Seq<bool>, c: Seq<Seq<u8>>, j: int, n: int) -> bool
    decreases n,
{
    if n <= 0 {
        false
    } else {
        column_sum(b, c, j, n - 1) != (b[n - 1] && c[n - 1][j] == 1)
    }
}

/// The rows `i < n` with `b[i]`, each summed over its columns `j < k` with `a[j]`.
spec fn mixed_sum(a: Seq<bool>, b: Seq<bool>, c: Seq<Seq<u8>>, k: int, n: int) -> bool
    decreases n,
{
    if n <= 0 {
        false
    } else {
        mixed_sum(a, b, c, k, n - 1) != (b[n - 1] && col_combination(a, c[n - 1], k))
    }
}

/// The columns `j < k` with `a[j]`, each summed over its rows `i < n` with `b[i]`.
spec fn mixed_sum_by_columns(a: Seq<bool>, b: Seq<bool>, c: Seq<Seq<u8>>, k: int, n: int) -> bool
    decreases k,
{
    if k <= 0 {
        false
    } else {
        mixed_sum_by_columns(a, b, c, k - 1, n) != (a[k - 1] && column_sum(b, c, k - 1, n))
    }
}

proof fn lemma_mixed_sum_step(a: Seq<bool>, b: Seq<bool>, c: Seq<Seq<u8>>, k: int, n: int)
    requires
        k > 0,
    ensures
        mixed_sum(a, b, c, k, n) == (mixed_sum(a, b, c, k - 1, n) != (a[k - 1] && column_sum(b, c, k - 1, n))),
    decreases n,
{
    if n > 0 {
        lemma_mixed_sum_step(a, b, c, k, n - 1);
    }
}

proof fn lemma_mixed_sum_empty(a: Seq<bool>, b: Seq<bool>, c: Seq<Seq<u8>>, n: int)
    ensures
        !mixed_sum(a, b, c, 0, n),
    decreases n,
{
    if n > 0 {
        lemma_mixed_sum_empty(a, b, c, n - 1);
    }
}

proof fn lemma_mixed_sum_swap(a: Seq<bool>, b: Seq<bool>, c: Seq<Seq<u8>>, k: int, n: int)
    requires
        k >= 0,
    ensures
        mixed_sum(a, b, c, k, n) == mixed_sum_by_columns(a, b, c, k, n),
    decreases k,
{
    if k > 0 {
        lemma_mixed_sum_swap(a, b, c, k - 1, n);
        lemma_mixed_sum_step(a, b, c, k, n);
    } else {
        lemma_mixed_sum_empty(a, b, c, n);
    }
}

proof fn lemma_mixed_sum_zero(a: Seq<bool>, b: Seq<bool>, c: Seq<Seq<u8>>, k: int, n: int)
    requires
        0 <= n <= c.len(),
        forall|i: int| 0 <= i < n ==> !#[trigger] col_combination(a, c[i], k),
    ensures
        !mixed_sum(a, b, c, k, n),
    decreases n,
{
    if n > 0 {
        lemma_mixed_sum_zero(a, b, c, k, n - 1);
    }
}

proof fn lemma_column_sum_is_combination(b: Seq<bool>, c: Seq<Seq<u8>>, m: Seq<Seq<u8>>, j: int, col: int, n: int)
    requires
        0 <= n <= c.len(),
        n <= m.len(),
        forall|i: int| 0 <= i < n ==> #[trigger] c[i][j] == m[i][col],
    ensures
        column_sum(b, c, j, n) == combination(b, m, col, n),
    decreases n,
{
    if n > 0 {
        lemma_column_sum_is_combination(b, c, m, j, col, n - 1);
        assert(c[n - 1][j] == m[n - 1][col]);
    }
}

/// Summing the columns `j < k` with `a[j]` of a row that is 1 exactly at `t` gives `a[t]`.
proof fn lemma_unit_row_sum(a: Seq<bool>, t: int, k: int, b: Seq<bool>, c: Seq<Seq<u8>>, n: int)
    requires
        0 <= t,
        0 <= k,
        forall|j: int| 0 <= j < k ==> #[trigger] column_sum(b, c, j, n) == (j == t),
    ensures
        mixed_sum_by_columns(a, b, c, k, n) == (t < k && a[t]),
    decreases k,
{
    if k > 0 {
        lemma_unit_row_sum(a, t, k - 1, b, c, n);
        assert(column_sum(b, c, k - 1, n) == (k - 1 == t));
    }
}

proof fn lemma_unit_choice(a: Seq<bool>, c: Seq<Seq<u8>>, i: int, j: int, k: int)
    requires
        0 <= j,
        0 <= k <= a.len(),
        forall|x: int| 0 <= x < a.len() ==> #[trigger] a[x] == (x == j),
    ensures
        col_combination(a, c[i], k) == (j < k && c[i][j] == 1),
    decreases k,
{
    if k > 0 {
        lemma_unit_choice(a, c, i, j, k - 1);
        assert(a[k - 1] == (k - 1 == j));
    }
}

/// The columns of `m` at the pivot columns of a reduced row-echelon form `r`
/// whose non-zero rows are sums of rows of `m` are independent and non-zero.
pub proof fn lemma_factor_columns_independent(m: Seq<Seq<u8>>, r: Seq<Seq<u8>>, cols: int)
    requires
        is_bit_matrix(m, cols as nat),
        is_bit_matrix(r, cols as nat),
        is_rref(r),
        rows_spanned(m, r, cols),
        rows_spanned(r, m, cols),
        cols >= 0,
    ensures
        ({
            let c = select_cols(m, staircase_pivots(r, cols, 0, 0));
            let k = staircase_pivots(r, cols, 0, 0).len() as int;
            &&& columns_independent(c, k)
            &&& forall|j: int| 0 <= j < k ==> #[trigger] column_nonzero(c, j)
        }),
{
    let n = r.len() as int;
    lemma_nonzero_prefix(r, n);
    let q = nonzero_rows(r, n);
    let k = q.len() as int;
    if k > 0 {
        lemma_lead(r[0]);
    }
    lemma_staircase(r, cols, k, 0, 0);
    let p = staircase_pivots(r, cols, 0, 0);
    assert(p =~= Seq::new(k as nat, |t: int| lead(r[0 + t])));
    let c = select_cols(m, p);
    let nm = m.len() as int;
    assert forall|a: Seq<bool>| a.len() == k && #[trigger] columns_sum_to_zero(a, c, k) implies forall|t: int|
        0 <= t < k ==> !a[t] by {
        assert forall|t: int| 0 <= t < k implies !a[t] by {
            assert(row_nonzero(r[t]));
            assert(row_spanned(r[t], m, cols));
            let b = choose|b: Seq<bool>| #[trigger] row_is_sum(r[t], b, m, cols);
            assert forall|j: int| 0 <= j < k implies #[trigger] column_sum(b, c, j, nm) == (j == t) by {
                assert(row_nonzero(r[j]));
                lemma_lead(r[j]);
                assert(p[j] == lead(r[j]));
                assert forall|i: int| 0 <= i < nm implies #[trigger] c[i][j] == m[i][lead(r[j])] by {}
                lemma_column_sum_is_combination(b, c, m, j, lead(r[j]), nm);
                if j == t {
                    assert(r[t][lead(r[t])] <= 1);
                } else {
                    assert(r[t][lead(r[j])] == 0);
                }
            }
            lemma_unit_row_sum(a, t, k, b, c, nm);
            lemma_mixed_sum_swap(a, b, c, k, nm);
            lemma_mixed_sum_zero(a, b, c, k, nm);
        }
    }
    assert forall|j: int| 0 <= j < k implies #[trigger] column_nonzero(c, j) by {
        let a = Seq::new(k as nat, |x: int| x == j);
        if !column_nonzero(c, j) {
            assert forall|i: int| 0 <= i < c.len() implies !#[trigger] col_combination(a, c[i], k) by {
                assert(!(c[i][j] == 1));
                lemma_unit_choice(a, c, i, j, k);
            }
            assert(columns_sum_to_zero(a, c, k));
            assert(a[j]);
        }
    }
}

/// A dense matrix over GF(2) with `cols` columns.
#[derive(Clone, Debug)]
pub struct BitMatrix {
    pub data: Vec<Vec<u8>>,
    pub cols: usize,
}

impl BitMatrix {
    pub open spec fn view(&self) -> Seq<Seq<u8>> {
        rows_view(self.data@)
    }

    pub open spec fn wf(&self) -> bool {
        is_bit_matrix(self@, self.cols as nat)
    }

    /// The `rows x cols` zero matrix.
    pub fn zeros(rows: usize, cols: usize) -> (m: BitMatrix)
        ensures
            m.wf(),
            m.cols == cols,
            m@.len() == rows,
            forall|i: int, j: int| 0 <= i < rows && 0 <= j < cols ==> m@[i][j] == 0,
    {
        let mut data: Vec<Vec<u8>> = Vec::new();
        let mut i: usize = 0;
        while i < rows
            invariant
                i <= rows,
                data@.len() == i,
                forall|k: int| 0 <= k < i ==> (#[trigger] data@[k])@ == Seq::new(cols as nat, |j: int| 0u8),
            decreases rows - i,
        {
            let mut row: Vec<u8> = Vec::new();
            let mut j: usize = 0;
            while j < cols
                invariant
                    j <= cols,
                    row@ == Seq::new(j as nat, |c: int| 0u8),
                decreases cols - j,
            {
                row.push(0);
                j = j + 1;
            }
            data.push(row);
            i = i + 1;
        }
        BitMatrix { data, cols }
    }

    pub fn num_rows(&self) -> (r: usize)
        ensures
            r == self@.len(),
    {
        self.data.len()
    }

    pub fn num_cols(&self) -> (r: usize)
        ensures
            r == self.cols,
    {
        self.cols
    }

    /// Entry `(i, j)`.
    pub fn get(&self, i: usize, j: usize) -> (r: u8)
        requires
            self.wf(),
            i < self@.len(),
            j < self.cols,
        ensures
            r == self@[i as int][j as int],
    {
        assert(self@[i as int] == self.data@[i as int]@);
        self.data[i][j]
    }

    /// Splits the matrix as `(c, f)`: the columns of `self` at the pivot
    /// columns of its reduced form `r`, and the non-zero rows of `r`.
    pub fn rank_decomposition(&self) -> (res: (BitMatrix, BitMatrix))
        requires
            self.wf(),
        ensures
            res.0.wf(),
            res.1.wf(),
            res.1.cols == self.cols,
            (res.0@, res.1@) == rank_factors(self@, self.cols as int),
            res.0.cols == res.1@.len(),
            forall|i: int, col: int|
                0 <= i < self@.len() && 0 <= col < self.cols ==> (#[trigger] self@[i][col] == 1) == product_bit(
                    res.0@[i],
                    res.1@,
                    col,
                    res.1@.len() as int,
                ),
            forall|j: int| 0 <= j < res.1@.len() ==> row_nonzero(#[trigger] res.1@[j]),
            factors_form_basis(self@, res.0@, res.1@, self.cols as int),
            forall|j: int| 0 <= j < res.0.cols ==> #[trigger] column_nonzero(res.0@, j),
    {
        if self.data.len() == 0 || self.cols == 0 {
            let c = BitMatrix::zeros(self.data.len(), 0);
            let f = BitMatrix::zeros(0, self.cols);
            assert forall|i: int| 0 <= i < c@.len() implies #[trigger] c@[i] =~= select_cols(
                self@,
                Seq::empty(),
            )[i] by {}
            assert(c@ =~= select_cols(self@, Seq::empty()));
            assert(f@ =~= Seq::<Seq<u8>>::empty());
            reveal(factors_form_basis);
            assert forall|i: int| 0 <= i < self@.len() implies #[trigger] row_spanned(self@[i], f@, self.cols as int) by {
                assert(row_is_sum(self@[i], Seq::<bool>::empty(), f@, self.cols as int));
            }
            return (c, f);
        }
        let r = gauss_reduce(&self.data, self.cols);
        let rm = BitMatrix { data: r, cols: self.cols };
        let res = self.factors_from_reduced(&rm);
        proof {
            lemma_factors_multiply_back(self@, rm@, self.cols as int);
            lemma_factor_rows_basis(self@, rm@, self.cols as int);
            lemma_factor_columns_independent(self@, rm@, self.cols as int);
            reveal(factors_form_basis);
        }
        res
    }

    /// The factors read off a reduced form `r` of this matrix: the columns of
    /// `self` at the pivot columns that the staircase walk finds in `r`, and
    /// the non-zero rows of `r`.
    pub fn factors_from_reduced(&self, r: &BitMatrix) -> (res: (BitMatrix, BitMatrix))
        requires
            self.wf(),
            r.wf(),
            r.cols == self.cols,
        ensures
            res.0.wf(),
            res.1.wf(),
            res.1.cols == self.cols,
            res.0@ == select_cols(self@, staircase_pivots(r@, self.cols as int, 0, 0)),
            res.1@ == select_rows(r@, nonzero_rows(r@, r@.len() as int)),
            res.0.cols == staircase_pivots(r@, self.cols as int, 0, 0).len(),
    {
        let pivots = r.pivots();
        let c = self.select_columns(&pivots);
        let nz = r.nonzero_row_indices();
        let f = r.select_row_list(&nz);
        (c, f)
    }

    /// The pivot columns of the staircase walk from the top-left corner.
    fn pivots(&self) -> (p: Vec<usize>)
        requires
            self.wf(),
        ensures
            p@.map_values(|x: usize| x as int) == staircase_pivots(self@, self.cols as int, 0, 0),
            forall|i: int| 0 <= i < p@.len() ==> p@[i] < self.cols,
    {
        let mut p: Vec<usize> = Vec::new();
        let mut row: usize = 0;
        let mut col: usize = 0;
        while row < self.data.len() && col < self.cols
            invariant
                self.wf(),
                row <= self@.len(),
                col <= self.cols,
                p@.map_values(|x: usize| x as int) + staircase_pivots(self@, self.cols as int, row as int, col as int)
                    == staircase_pivots(self@, self.cols as int, 0, 0),
                forall|i: int| 0 <= i < p@.len() ==> p@[i] < self.cols,
            decreases self.cols - col,
        {
            assert(self@[row as int] == self.data@[row as int]@);
            if self.data[row][col] != 0 {
                let ghost before = p@.map_values(|x: usize| x as int);
                p.push(col);
                assert(p@.map_values(|x: usize| x as int) =~= before.push(col as int));
                assert(seq![col as int] + staircase_pivots(self@, self.cols as int, row + 1, col + 1)
                    == staircase_pivots(self@, self.cols as int, row as int, col as int));
                assert(before + staircase_pivots(self@, self.cols as int, row as int, col as int)
                    =~= before.push(col as int) + staircase_pivots(self@, self.cols as int, row + 1, col + 1));
                row = row + 1;
            }
            col = col + 1;
        }
        assert(staircase_pivots(self@, self.cols as int, row as int, col as int) =~= Seq::empty());
        assert(p@.map_values(|x: usize| x as int) + Seq::<int>::empty() =~= p@.map_values(|x: usize| x as int));
        p
    }

    /// Indices of the non-zero rows, in increasing order.
    fn nonzero_row_indices(&self) -> (q: Vec<usize>)
        requires
            self.wf(),
        ensures
            q@.map_values(|x: usize| x as int) == nonzero_rows(self@, self@.len() as int),
            forall|i: int| 0 <= i < q@.len() ==> q@[i] < self@.len(),
    {
        let mut q: Vec<usize> = Vec::new();
        let mut k: usize = 0;
        while k < self.data.len()
            invariant
                self.wf(),
                k <= self@.len(),
                q@.map_values(|x: usize| x as int) == nonzero_rows(self@, k as int),
                forall|i: int| 0 <= i < q@.len() ==> q@[i] < k,
            decreases self@.len() - k,
        {
            assert(self@[k as int] == self.data@[k as int]@);
            let ghost before = q@.map_values(|x: usize| x as int);
            let mut j: usize = 0;
            let mut found = false;
            while j < self.cols
                invariant
                    self.wf(),
                    k < self@.len(),
                    j <= self.cols,
                    self.data@[k as int]@ == self@[k as int],
                    found == exists|t: int| 0 <= t < j && #[trigger] self@[k as int][t] != 0,
                decreases self.cols - j,
            {
                if self.data[k][j] != 0 {
                    assert(self@[k as int][j as int] != 0);
                    found = true;
                }
                j = j + 1;
            }
            assert(found == row_nonzero(self@[k as int]));
            if found {
                q.push(k);
                assert(q@.map_values(|x: usize| x as int) =~= before.push(k as int));
            }
            k = k + 1;
        }
        q
    }

    /// The matrix made of the columns at the indices `p`.
    fn select_columns(&self, p: &Vec<usize>) -> (c: BitMatrix)
        requires
            self.wf(),
            forall|i: int| 0 <= i < p@.len() ==> p@[i] < self.cols,
        ensures
            c.wf(),
            c.cols == p@.len(),
            c@ == select_cols(self@, p@.map_values(|x: usize| x as int)),
    {
        let mut data: Vec<Vec<u8>> = Vec::new();
        let mut j: usize = 0;
        while j < self.data.len()
            invariant
                self.wf(),
                forall|i: int| 0 <= i < p@.len() ==> p@[i] < self.cols,
                j <= self@.len(),
                data@.len() == j,
                forall|t: int| 0 <= t < j ==> (#[trigger] data@[t])@ == Seq::new(p@.len(), |i: int| self@[t][p@[i] as int]),
            decreases self@.len() - j,
        {
            assert(self@[j as int] == self.data@[j as int]@);
            let mut row: Vec<u8> = Vec::new();
            let mut i: usize = 0;
            while i < p.len()
                invariant
                    self.wf(),
                    forall|i: int| 0 <= i < p@.len() ==> p@[i] < self.cols,
                    j < self@.len(),
                    i <= p@.len(),
                    row@ == Seq::new(i as nat, |s: int| self@[j as int][p@[s] as int]),
                decreases p@.len() - i,
            {
                row.push(self.data[j][p[i]]);
                i = i + 1;
            }
            data.push(row);
            j = j + 1;
        }
        let c = BitMatrix { data, cols: p.len() };
        assert forall|t: int| 0 <= t < c@.len() implies #[trigger] c@[t] =~= select_cols(
            self@,
            p@.map_values(|x: usize| x as int),
        )[t] by {}
        assert(c@ =~= select_cols(self@, p@.map_values(|x: usize| x as int)));
        c
    }

    /// The matrix made of the rows at the indices `q`.
    fn select_row_list(&self, q: &Vec<usize>) -> (f: BitMatrix)
        requires
            self.wf(),
            forall|i: int| 0 <= i < q@.len() ==> q@[i] < self@.len(),
        ensures
            f.wf(),
            f.cols == self.cols,
            f@ == select_rows(self@, q@.map_values(|x: usize| x as int)),
    {
        let mut data: Vec<Vec<u8>> = Vec::new();
        let mut i: usize = 0;
        while i < q.len()
            invariant
                self.wf(),
                forall|i: int| 0 <= i < q@.len() ==> q@[i] < self@.len(),
                i <= q@.len(),
                data@.len() == i,
                forall|t: int| 0 <= t < i ==> (#[trigger] data@[t])@ == self@[q@[t] as int],
            decreases q@.len() - i,
        {
            assert(self@[q@[i as int] as int] == self.data@[q@[i as int] as int]@);
            data.push(copy_bits(&self.data[q[i]]));
            i = i + 1;
        }
        let f = BitMatrix { data, cols: self.cols };
        assert(f@ =~= select_rows(self@, q@.map_values(|x: usize| x as int)));
        f
    }
}

/// A copy of `r`, element by element.
fn copy_bits(r: &Vec<u8>) -> (c: Vec<u8>)
    ensures
        c@ == r@,
{
    let mut c: Vec<u8> = Vec::new();
    let mut i: usize = 0;
    while i < r.len()
        invariant
            i <= r.len(),
            c@ == r@.subrange(0, i as int),
        decreases r.len() - i,
    {
        c.push(r[i]);
        i = i + 1;
    }
    assert(c@ =~= r@);
    c
}

} // verus!
