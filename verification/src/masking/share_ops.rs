//! Field operations on masked words: every byte of a word is an element of
//! GF(2)[x] / (PX), and a secret is held as `N` shares.
use crate::masking::byte_ops::{byte_mult_u128, byte_square_u128, lemma_mul128_laws, mul128};
use crate::masking::isw::{
    isw_share, isw_table, lemma_masked_products, lemma_xsum_linear, off_diagonal, row, xsum2,
};
use crate::masking::{lemma_xor_laws, lemma_xsum_ext, next_u128, seq_fn, xor_all, xsum};
use rand_chacha::ChaCha20Rng;
use vstd::prelude::*;

verus! {

/// `x` squared bytewise `k` times, that is, every byte raised to the power `2^k`.
pub open spec fn square_iter(px: u16, x: u128, k: nat) -> u128
    decreases k,
{
    if k == 0 {
        x
    } else {
        let y = square_iter(px, x, (k - 1) as nat);
        mul128(px, y, y)
    }
}

/// Squaring is linear (the Frobenius map): `(a + b)^2 = a^2 + b^2` in characteristic two.
pub proof fn lemma_square_iter_linear(px: u16, a: u128, b: u128, k: nat)
    ensures
        square_iter(px, a ^ b, k) == square_iter(px, a, k) ^ square_iter(px, b, k),
        square_iter(px, 0, k) == 0,
    decreases k,
{
    if k > 0 {
        let j = (k - 1) as nat;
        lemma_square_iter_linear(px, a, b, j);
        let x = square_iter(px, a, j);
        let y = square_iter(px, b, j);
        lemma_mul128_laws(px, x, x ^ y, y);
        lemma_mul128_laws(px, x, x, y);
        lemma_mul128_laws(px, x, y, y);
        lemma_mul128_laws(px, 0, 0, 0);
        let (xx, xy, yy) = (mul128(px, x, x), mul128(px, x, y), mul128(px, y, y));
        assert(mul128(px, x ^ y, x ^ y) == (xx ^ xy) ^ (xy ^ yy));
        lemma_xor_laws(xy, yy, 0, 0);
        lemma_xor_laws(xx, xy, yy, xy);
        lemma_xor_laws(xy, 0, 0, 0);
        lemma_xor_laws(xx ^ yy, 0, 0, 0);
    }
}

/// The cross products of two share vectors.
pub open spec fn products(px: u16, a: Seq<u128>, b: Seq<u128>) -> spec_fn(int, int) -> u128 {
    |i: int, j: int| mul128(px, a[i], b[j])
}

/// The sum of all cross products is the product of the sums.
pub proof fn lemma_sum_of_products(px: u16, a: Seq<u128>, b: Seq<u128>, n: nat)
    requires
        a.len() == n,
        b.len() == n,
    ensures
        xsum2(products(px, a, b), n) == mul128(px, xor_all(a), xor_all(b)),
{
    let bsum = xor_all(b);
    let rows = |i: int| xsum(row(products(px, a, b), i), n);
    assert forall|i: int| 0 <= i < n implies #[trigger] rows(i) == mul128(px, a[i], bsum) by {
        let l = |y: u128| mul128(px, a[i], y);
        assert forall|x: u128, y: u128| #[trigger] l(x ^ y) == l(x) ^ l(y) by {
            lemma_mul128_laws(px, x, a[i], y);
        }
        lemma_mul128_laws(px, 0, a[i], 0);
        lemma_xsum_linear(l, seq_fn(b), row(products(px, a, b), i), n);
    }
    let l = |x: u128| mul128(px, x, bsum);
    assert forall|x: u128, y: u128| #[trigger] l(x ^ y) == l(x) ^ l(y) by {
        lemma_mul128_laws(px, x, bsum, y);
    }
    lemma_mul128_laws(px, 0, bsum, 0);
    lemma_xsum_linear(l, seq_fn(a), rows, n);
}

/// Every share of `s` squared bytewise `k` times.
pub open spec fn squared(px: u16, s: Seq<u128>, k: nat) -> Seq<u128> {
    Seq::new(s.len(), |i: int| square_iter(px, s[i], k))
}

/// The shares of the masked product of `a` and `b` with the random words `upper`
/// above the diagonal of the table.
pub open spec fn masked_product(px: u16, a: Seq<u128>, b: Seq<u128>, upper: spec_fn(int, int) -> u128) -> Seq<u128> {
    Seq::new(a.len(), |i: int| isw_share(products(px, a, b), upper, i, a.len()))
}

/// Raises every byte of the shared secret to the power `2^squares`.
/// Squaring is linear, so each share is squared on its own.
pub fn share_square<const PX: u16, const N: usize>(shares: [u128; N], squares: u32) -> (r: [u128; N])
    requires
        squares != 0,
    ensures
        r@ == squared(PX, shares@, squares as nat),
        xor_all(r@) == square_iter(PX, xor_all(shares@), squares as nat),
{
    let mut shares = shares;
    let ghost s0 = shares@;
    let mut i: usize = 0;
    while i < N
        invariant
            i <= N,
            squares != 0,
            forall|j: int| 0 <= j < i ==> #[trigger] shares@[j] == square_iter(PX, s0[j], squares as nat),
            forall|j: int| i <= j < N ==> #[trigger] shares@[j] == s0[j],
        decreases N - i,
    {
        let mut k: u32 = 0;
        while k < squares
            invariant
                i < N,
                k <= squares,
                shares@[i as int] == square_iter(PX, s0[i as int], k as nat),
                forall|j: int| 0 <= j < i ==> #[trigger] shares@[j] == square_iter(PX, s0[j], squares as nat),
                forall|j: int| i < j < N ==> #[trigger] shares@[j] == s0[j],
            decreases squares - k,
        {
            shares[i] = byte_square_u128::<PX>(shares[i]);
            k += 1;
        }
        i += 1;
    }
    proof {
        let l = |x: u128| square_iter(PX, x, squares as nat);
        assert forall|x: u128, y: u128| #[trigger] l(x ^ y) == l(x) ^ l(y) by {
            lemma_square_iter_linear(PX, x, y, squares as nat);
        }
        lemma_square_iter_linear(PX, 0, 0, squares as nat);
        lemma_xsum_linear(l, seq_fn(s0), seq_fn(shares@), N as nat);
        assert(shares@ =~= squared(PX, s0, squares as nat));
    }
    shares
}

/// The random words above the diagonal of a 128-bit table.
pub open spec fn upper128<const N: usize>(upper: [[u128; N]; N]) -> spec_fn(int, int) -> u128 {
    |i: int, j: int| upper[i][j]
}

/// Multiplies two shared secrets bytewise with the random words `upper[i][j]`, `i < j`:
/// share `i` is the product of shares `a[i]` and `b[i]` plus row `i` of the table that
/// these words fill (see `isw_table`). The result stands for the product of the secrets.
pub fn share_mult_with_table<const PX: u16, const N: usize>(
    a: [u128; N],
    b: [u128; N],
    upper: [[u128; N]; N],
) -> (r: [u128; N])
    ensures
        r@ == masked_product(PX, a@, b@, upper128(upper)),
        xor_all(r@) == mul128(PX, xor_all(a@), xor_all(b@)),
{
    let ghost m = products(PX, a@, b@);
    let ghost tt = isw_table(m, upper128(upper));
    let mut rng_table = upper;
    let mut result = [0u128; N];

    let mut i: usize = 0;
    while i < N
        invariant
            i <= N,
            m == products(PX, a@, b@),
            forall|p: int, q: int| 0 <= p < q < N ==> #[trigger] rng_table[p][q] == upper[p][q],
            forall|p: int, q: int|
                0 <= p < q < N && p < i ==> #[trigger] rng_table[q][p] == (rng_table[p][q] ^ m(p, q)) ^ m(q, p),
        decreases N - i,
    {
        let mut j: usize = i + 1;
        while j < N
            invariant
                i < N,
                i + 1 <= j <= N,
                m == products(PX, a@, b@),
                forall|p: int, q: int| 0 <= p < q < N ==> #[trigger] rng_table[p][q] == upper[p][q],
                forall|p: int, q: int|
                    0 <= p < q < N && (p < i || (p == i && q < j)) ==> #[trigger] rng_table[q][p] == (
                    rng_table[p][q] ^ m(p, q)) ^ m(q, p),
            decreases N - j,
        {
            let ai_bj = byte_mult_u128::<PX>(a[i], b[j]);
            let aj_bi = byte_mult_u128::<PX>(a[j], b[i]);
            let ghost t0 = rng_table;
            let mut row_j = rng_table[j];
            row_j[i] = (rng_table[i][j] ^ ai_bj) ^ aj_bi;
            rng_table[j] = row_j;
            proof {
                assert forall|p: int, q: int|
                    0 <= p < N && 0 <= q < N && !(p == j && q == i) implies #[trigger] rng_table[p][q] == t0[p][q] by {
                    if p == j {
                        assert(rng_table[p] == row_j);
                    } else {
                        assert(rng_table[p] == t0[p]);
                    }
                }
                assert forall|p: int, q: int| 0 <= p < q < N implies #[trigger] rng_table[p][q] == upper[p][q] by {
                    assert(rng_table[p][q] == t0[p][q]);
                }
                assert forall|p: int, q: int|
                    0 <= p < q < N && (p < i || (p == i && q < j + 1)) implies #[trigger] rng_table[q][p] == (
                    rng_table[p][q] ^ m(p, q)) ^ m(q, p) by {
                    if p == i && q == j {
                        assert(rng_table[p][q] == t0[p][q]);
                    } else {
                        assert(rng_table[q][p] == t0[q][p]);
                        assert(rng_table[p][q] == t0[p][q]);
                    }
                }
            }
            j += 1;
        }
        i += 1;
    }

    let ghost t = |p: int, q: int| rng_table[p][q];
    let mut i: usize = 0;
    while i < N
        invariant
            i <= N,
            m == products(PX, a@, b@),
            forall|p: int| 0 <= p < i ==> #[trigger] result@[p] == m(p, p) ^ xsum(off_diagonal(t, p), N as nat),
            forall|p: int, q: int| 0 <= p < N && 0 <= q < N ==> #[trigger] t(p, q) == rng_table[p][q],
        decreases N - i,
    {
        let mut acc = byte_mult_u128::<PX>(a[i], b[i]);
        proof {
            lemma_xor_laws(acc, 0, 0, 0);
        }
        let mut j: usize = 0;
        while j < N
            invariant
                i < N,
                j <= N,
                m == products(PX, a@, b@),
                acc == m(i as int, i as int) ^ xsum(off_diagonal(t, i as int), j as nat),
                forall|p: int, q: int| 0 <= p < N && 0 <= q < N ==> #[trigger] t(p, q) == rng_table[p][q],
            decreases N - j,
        {
            proof {
                lemma_xor_laws(m(i as int, i as int), xsum(off_diagonal(t, i as int), j as nat), off_diagonal(t, i as int)(j as int), 0);
            }
            if i != j {
                acc ^= rng_table[i][j];
            } else {
                proof {
                    lemma_xor_laws(acc, 0, 0, 0);
                    lemma_xor_laws(xsum(off_diagonal(t, i as int), j as nat), 0, 0, 0);
                }
            }
            j += 1;
        }
        result[i] = acc;
        i += 1;
    }
    proof {
        assert forall|p: int| 0 <= p < N implies #[trigger] result@[p] == isw_share(m, upper128(upper), p, N as nat) by {
            assert forall|q: int| 0 <= q < N implies #[trigger] off_diagonal(t, p)(q) == off_diagonal(tt, p)(q) by {
                if p < q {
                } else if q < p {
                    assert(t(q, p) == tt(q, p));
                }
            }
            lemma_xsum_ext(off_diagonal(t, p), off_diagonal(tt, p), N as nat);
        }
        assert forall|p: int, q: int| 0 <= p < q < N implies #[trigger] tt(q, p) == (tt(p, q) ^ m(p, q)) ^ m(q, p) by {}
        lemma_masked_products(m, tt, seq_fn(result@), N as nat);
        lemma_sum_of_products(PX, a@, b@, N as nat);
        assert(result@ =~= masked_product(PX, a@, b@, upper128(upper)));
    }
    result
}

/// Multiplies two shared secrets bytewise; the random table, drawn row by row above
/// the diagonal, keeps every partial product masked.
pub fn share_mult<const PX: u16, const N: usize>(
    a: [u128; N],
    b: [u128; N],
    rng: &mut ChaCha20Rng,
) -> (r: [u128; N])
    ensures
        xor_all(r@) == mul128(PX, xor_all(a@), xor_all(b@)),
{
    let upper = draw_word_table::<N>(rng);
    share_mult_with_table::<PX, N>(a, b, upper)
}

/// A table of random words: the entries above the diagonal are drawn row by row, each
/// row from left to right; the other entries are zero.
pub(crate) fn draw_word_table<const N: usize>(rng: &mut ChaCha20Rng) -> (t: [[u128; N]; N])
    ensures
        forall|i: int, j: int| 0 <= j <= i < N ==> #[trigger] t[i][j] == 0,
{
    let mut upper = [[0u128; N]; N];
    let mut i: usize = 0;
    while i < N
        invariant
            i <= N,
            forall|p: int, q: int| 0 <= q <= p < N ==> #[trigger] upper[p][q] == 0,
        decreases N - i,
    {
        let mut j: usize = i + 1;
        while j < N
            invariant
                i < N,
                i + 1 <= j <= N,
                forall|p: int, q: int| 0 <= q <= p < N ==> #[trigger] upper[p][q] == 0,
            decreases N - j,
        {
            let ghost t0 = upper;
            let mut row = upper[i];
            row[j] = next_u128(rng);
            upper[i] = row;
            proof {
                assert forall|p: int, q: int| 0 <= q <= p < N implies #[trigger] upper[p][q] == 0 by {
                    if p != i {
                        assert(upper[p] == t0[p]);
                    } else {
                        assert(upper[p] == row);
                    }
                }
            }
            j += 1;
        }
        i += 1;
    }
    upper
}

} // verus!
