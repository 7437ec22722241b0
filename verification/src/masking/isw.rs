//! The algebra behind masked multiplication: the shares of a masked product sum to
//! the sum of all cross products, whatever random words the table holds.
use crate::masking::{lemma_xor_laws, lemma_xsum_ext, lemma_xsum_pointwise, lemma_xsum_single, xsum};
use vstd::prelude::*;

verus! {

/// Row `i` of a matrix, with its diagonal entry left out.
pub open spec fn off_diagonal(t: spec_fn(int, int) -> u128, i: int) -> spec_fn(int) -> u128 {
    |j: int| if j != i { t(i, j) } else { 0 }
}

/// The table of a masked multiplication: above the diagonal the random words `upper`,
/// below it `t(j, i) = (upper(i, j) ^ m(i, j)) ^ m(j, i)`, and zero on the diagonal.
pub open spec fn isw_table(m: spec_fn(int, int) -> u128, upper: spec_fn(int, int) -> u128) -> spec_fn(int, int) -> u128 {
    |i: int, j: int|
        if i < j {
            upper(i, j)
        } else if j < i {
            (upper(j, i) ^ m(j, i)) ^ m(i, j)
        } else {
            0
        }
}

/// Share `i` of a masked product: the diagonal product plus row `i` of the table.
pub open spec fn isw_share(m: spec_fn(int, int) -> u128, upper: spec_fn(int, int) -> u128, i: int, n: nat) -> u128 {
    m(i, i) ^ xsum(off_diagonal(isw_table(m, upper), i), n)
}

/// Row `i` of a matrix.
pub open spec fn row(t: spec_fn(int, int) -> u128, i: int) -> spec_fn(int) -> u128 {
    |j: int| t(i, j)
}

/// The sum of all entries of the leading `n` by `n` block of a matrix, row by row.
pub open spec fn xsum2(t: spec_fn(int, int) -> u128, n: nat) -> u128 {
    xsum(|i: int| xsum(row(t, i), n), n)
}

/// A linear map commutes with sums.
pub proof fn lemma_xsum_linear(
    l: spec_fn(u128) -> u128,
    f: spec_fn(int) -> u128,
    g: spec_fn(int) -> u128,
    n: nat,
)
    requires
        forall|x: u128, y: u128| #[trigger] l(x ^ y) == l(x) ^ l(y),
        l(0) == 0,
        forall|i: int| 0 <= i < n ==> #[trigger] g(i) == l(f(i)),
    ensures
        xsum(g, n) == l(xsum(f, n)),
    decreases n,
{
    if n > 0 {
        let m = (n - 1) as nat;
        lemma_xsum_linear(l, f, g, m);
        assert(l(xsum(f, m) ^ f(m as int)) == l(xsum(f, m)) ^ l(f(m as int)));
    }
}

/// In a symmetric matrix with zero diagonal every entry is met twice, so the sum of
/// all entries is zero.
proof fn lemma_symmetric_sum_zero(d: spec_fn(int, int) -> u128, n: nat)
    requires
        forall|i: int, j: int| 0 <= i < n && 0 <= j < n ==> #[trigger] d(i, j) == d(j, i),
        forall|i: int| 0 <= i < n ==> #[trigger] d(i, i) == 0,
    ensures
        xsum2(d, n) == 0,
    decreases n,
{
    if n == 0 {
    } else {
        let m = (n - 1) as nat;
        lemma_symmetric_sum_zero(d, m);
        let rows_n = |i: int| xsum(row(d, i), n);
        let rows_m = |i: int| xsum(row(d, i), m);
        let col = |i: int| d(i, m as int);
        // Each of the first m rows grows by one entry of the last column.
        assert forall|i: int| 0 <= i < m implies #[trigger] rows_n(i) == rows_m(i) ^ col(i) by {}
        lemma_xsum_pointwise(rows_m, col, rows_n, m);
        assert(xsum(rows_m, m) == xsum2(d, m));
        // The last row equals the last column.
        lemma_xsum_ext(col, row(d, m as int), m);
        let c = xsum(col, m);
        assert(xsum(row(d, m as int), n) == c ^ 0);
        assert(xsum2(d, n) == xsum(rows_n, m) ^ rows_n(m as int));
        lemma_xor_laws(c, 0, 0, 0);
        lemma_xor_laws(0, c, 0, 0);
    }
}

/// The masked-multiplication identity. Let `m` hold the cross products and `t` the
/// table: above the diagonal `t` is arbitrary, below it `t(j, i)` is
/// `t(i, j) ^ m(i, j) ^ m(j, i)`. Then the outputs `m(i, i) ^ sum_{j != i} t(i, j)`
/// sum to the sum of all cross products.
pub proof fn lemma_masked_products(
    m: spec_fn(int, int) -> u128,
    t: spec_fn(int, int) -> u128,
    out: spec_fn(int) -> u128,
    n: nat,
)
    requires
        forall|i: int, j: int|
            0 <= i < j < n ==> #[trigger] t(j, i) == (t(i, j) ^ m(i, j)) ^ m(j, i),
        forall|i: int| 0 <= i < n ==> #[trigger] out(i) == m(i, i) ^ xsum(off_diagonal(t, i), n),
    ensures
        xsum(out, n) == xsum2(m, n),
{
    let d = |i: int, j: int| if i == j { 0u128 } else { t(i, j) ^ m(i, j) };
    assert forall|i: int, j: int| 0 <= i < n && 0 <= j < n implies #[trigger] d(i, j) == d(j, i) by {
        if i < j {
            lemma_xor_laws(t(i, j) ^ m(i, j), m(j, i), 0, 0);
        } else if j < i {
            lemma_xor_laws(t(j, i) ^ m(j, i), m(i, j), 0, 0);
        }
    }
    lemma_symmetric_sum_zero(d, n);
    let rows_m = |i: int| xsum(row(m, i), n);
    let rows_d = |i: int| xsum(row(d, i), n);
    assert forall|i: int| 0 <= i < n implies #[trigger] out(i) == rows_m(i) ^ rows_d(i) by {
        let diag = |j: int| if j == i { m(i, i) } else { 0 };
        let md = |j: int| m(i, j) ^ d(i, j);
        let skip = off_diagonal(t, i);
        assert forall|j: int| 0 <= j < n implies #[trigger] skip(j) == md(j) ^ diag(j) by {
            if j == i {
                lemma_xor_laws(m(i, i), 0, 0, 0);
            } else {
                lemma_xor_laws(m(i, j), t(i, j), 0, 0);
                lemma_xor_laws(t(i, j), m(i, j), m(i, j), 0);
                lemma_xor_laws(m(i, j), t(i, j) ^ m(i, j), 0, 0);
            }
        }
        lemma_xsum_pointwise(md, diag, skip, n);
        lemma_xsum_single(diag, n, i);
        lemma_xsum_pointwise(row(m, i), row(d, i), md, n);
        let a = rows_m(i);
        let b = rows_d(i);
        let c = m(i, i);
        lemma_xor_laws(c, a ^ b, c, 0);
        lemma_xor_laws(c, c, a ^ b, 0);
        lemma_xor_laws(a ^ b, c, 0, 0);
        lemma_xor_laws(0, a ^ b, 0, 0);
    }
    lemma_xsum_pointwise(rows_m, rows_d, out, n);
    lemma_xor_laws(xsum2(m, n), 0, 0, 0);
}

} // verus!
