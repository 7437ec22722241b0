//! Nibble operations on masked bytes.
use crate::masking::isw::{
    isw_share, isw_table, lemma_masked_products, lemma_xsum_linear, off_diagonal, row, xsum2,
};
use crate::masking::nibble_ops::{
    lemma_nibble_mul_byte_laws, nibble_mul_byte, nibble_mult_byte, nibble_square_byte,
};
use crate::masking::{
    lemma_widen_xor, lemma_xor_laws, lemma_xsum_ext, seq_fn, widen8, xor_all8, xsum,
};
use crate::rng::rng_fill_row;
use rand_chacha::ChaCha20Rng;
use vstd::prelude::*;

verus! {

/// Truncation to a byte is linear.
proof fn lemma_narrow_xor(x: u128, y: u128)
    ensures
        ((x ^ y) as u8) == (x as u8) ^ (y as u8),
        (0u128 as u8) == 0,
{
    lemma_xor_laws(x, y, 0, 0);
}

/// The nibblewise products of all pairs of shares, widened.
pub open spec fn nibble_products(px: u8, a: Seq<u8>, b: Seq<u8>) -> spec_fn(int, int) -> u128 {
    |i: int, j: int| nibble_mul_byte(px, a[i], b[j]) as u128
}

/// The sum of the nibblewise products of all pairs of shares is the nibblewise
/// product of the two secrets.
proof fn lemma_sum_of_nibble_products(px: u8, a: Seq<u8>, b: Seq<u8>, n: nat)
    requires
        a.len() == n,
        b.len() == n,
    ensures
        xsum2(nibble_products(px, a, b), n) == nibble_mul_byte(
            px,
            xor_all8(a),
            xor_all8(b),
        ) as u128,
{
    let m = nibble_products(px, a, b);
    let bsum = xor_all8(b);
    let rows = |i: int| xsum(row(m, i), n);
    assert forall|i: int| 0 <= i < n implies #[trigger] rows(i) == nibble_mul_byte(px, a[i], bsum) as u128 by {
        let l = |y: u128| nibble_mul_byte(px, a[i], y as u8) as u128;
        assert forall|x: u128, y: u128| #[trigger] l(x ^ y) == l(x) ^ l(y) by {
            lemma_narrow_xor(x, y);
            lemma_nibble_mul_byte_laws(px, x as u8, a[i], y as u8);
            lemma_widen_xor(0, 0, nibble_mul_byte(px, a[i], x as u8), nibble_mul_byte(px, a[i], y as u8));
        }
        lemma_narrow_xor(0, 0);
        lemma_nibble_mul_byte_laws(px, 0, a[i], 0);
        assert forall|j: int| 0 <= j < n implies #[trigger] row(m, i)(j) == l(seq_fn(widen8(b))(j)) by {
            lemma_widen_xor(0, 0, b[j], 0);
        }
        lemma_xsum_linear(l, seq_fn(widen8(b)), row(m, i), n);
    }
    let l = |x: u128| nibble_mul_byte(px, x as u8, bsum) as u128;
    assert forall|x: u128, y: u128| #[trigger] l(x ^ y) == l(x) ^ l(y) by {
        lemma_narrow_xor(x, y);
        lemma_nibble_mul_byte_laws(px, x as u8, bsum, y as u8);
        lemma_widen_xor(0, 0, nibble_mul_byte(px, x as u8, bsum), nibble_mul_byte(px, y as u8, bsum));
    }
    lemma_narrow_xor(0, 0);
    lemma_nibble_mul_byte_laws(px, 0, bsum, 0);
    assert forall|i: int| 0 <= i < n implies #[trigger] rows(i) == l(seq_fn(widen8(a))(i)) by {
        lemma_widen_xor(0, 0, a[i], 0);
    }
    lemma_xsum_linear(l, seq_fn(widen8(a)), rows, n);
}

/// Every share of `s` with its nibbles squared.
pub open spec fn nibble_squared(px: u8, s: Seq<u8>) -> Seq<u8> {
    Seq::new(s.len(), |i: int| nibble_mul_byte(px, s[i], s[i]))
}

/// Squares the nibbles of a masked byte. Squaring is linear, so each share is squared
/// on its own.
pub fn share_nibble_square<const PX: u8, const N: usize>(shares: [u8; N]) -> (r: [u8; N])
    ensures
        r@ == nibble_squared(PX, shares@),
        xor_all8(r@) == nibble_mul_byte(PX, xor_all8(shares@), xor_all8(shares@)),
{
    let mut result = shares;
    let mut i: usize = 0;
    while i < N
        invariant
            i <= N,
            forall|j: int| 0 <= j < i ==> #[trigger] result@[j] == nibble_mul_byte(PX, shares@[j], shares@[j]),
            forall|j: int| i <= j < N ==> #[trigger] result@[j] == shares@[j],
        decreases N - i,
    {
        result[i] = nibble_square_byte::<PX>(result[i]);
        i += 1;
    }
    proof {
        let l = |x: u128| nibble_mul_byte(PX, x as u8, x as u8) as u128;
        assert forall|x: u128, y: u128| #[trigger] l(x ^ y) == l(x) ^ l(y) by {
            let (u, v) = (x as u8, y as u8);
            lemma_narrow_xor(x, y);
            lemma_nibble_mul_byte_laws(PX, u, u ^ v, v);
            lemma_nibble_mul_byte_laws(PX, u, u, v);
            lemma_nibble_mul_byte_laws(PX, u, v, v);
            let (uu, uv, vv) = (nibble_mul_byte(PX, u, u), nibble_mul_byte(PX, u, v), nibble_mul_byte(PX, v, v));
            lemma_square_shuffle(uu, uv, vv);
            lemma_widen_xor(0, 0, uu, vv);
        }
        lemma_narrow_xor(0, 0);
        lemma_nibble_mul_byte_laws(PX, 0, 0, 0);
        assert forall|j: int| 0 <= j < N implies #[trigger] seq_fn(widen8(result@))(j) == l(seq_fn(widen8(shares@))(j)) by {
            lemma_widen_xor(0, 0, shares@[j], 0);
        }
        lemma_xsum_linear(l, seq_fn(widen8(shares@)), seq_fn(widen8(result@)), N as nat);
        lemma_widen_xor(0, 0, nibble_mul_byte(PX, xor_all8(shares@), xor_all8(shares@)), 0);
        assert(result@ =~= nibble_squared(PX, shares@));
    }
    result
}

proof fn lemma_square_shuffle(uu: u8, uv: u8, vv: u8)
    by (bit_vector)
    ensures
        (uu ^ uv) ^ (uv ^ vv) == uu ^ vv,
{
}

/// The random bytes above the diagonal of a byte table, widened.
pub open spec fn upper8<const N: usize>(upper: [[u8; N]; N]) -> spec_fn(int, int) -> u128 {
    |i: int, j: int| upper[i][j] as u128
}

/// The shares of the nibblewise masked product of `a` and `b` with the random bytes
/// `upper` above the diagonal of the table.
pub open spec fn nibble_masked_product<const N: usize>(px: u8, a: Seq<u8>, b: Seq<u8>, upper: [[u8; N]; N]) -> Seq<u8> {
    Seq::new(a.len(), |i: int| isw_share(nibble_products(px, a, b), upper8(upper), i, a.len()) as u8)
}

/// Multiplies two masked bytes nibblewise with the random bytes `upper[i][j]`, `i < j`:
/// share `i` is the product of shares `a[i]` and `b[i]` plus row `i` of the table that
/// these bytes fill (see `isw_table`). The result stands for the product of the secrets.
pub fn share_nibble_mult_with_table<const PX: u8, const N: usize>(
    a: [u8; N],
    b: [u8; N],
    upper: [[u8; N]; N],
) -> (r: [u8; N])
    ensures
        r@ == nibble_masked_product(PX, a@, b@, upper),
        xor_all8(r@) == nibble_mul_byte(PX, xor_all8(a@), xor_all8(b@)),
{
    let ghost m8 = |p: int, q: int| nibble_mul_byte(PX, a@[p], b@[q]);
    let mut rng_table = upper;
    let mut result = [0u8; N];

    let mut i: usize = 0;
    while i < N
        invariant
            i <= N,
            m8 == (|p: int, q: int| nibble_mul_byte(PX, a@[p], b@[q])),
            forall|p: int, q: int| 0 <= p < q < N ==> #[trigger] rng_table[p][q] == upper[p][q],
            forall|p: int, q: int|
                0 <= p < q < N && p < i ==> #[trigger] rng_table[q][p] == (rng_table[p][q] ^ m8(p, q)) ^ m8(q, p),
        decreases N - i,
    {
        let mut j: usize = i + 1;
        while j < N
            invariant
                i < N,
                i + 1 <= j <= N,
                m8 == (|p: int, q: int| nibble_mul_byte(PX, a@[p], b@[q])),
                forall|p: int, q: int| 0 <= p < q < N ==> #[trigger] rng_table[p][q] == upper[p][q],
                forall|p: int, q: int|
                    0 <= p < q < N && (p < i || (p == i && q < j)) ==> #[trigger] rng_table[q][p] == (
                    rng_table[p][q] ^ m8(p, q)) ^ m8(q, p),
            decreases N - j,
        {
            let ai_bj = nibble_mult_byte::<PX>(a[i], b[j]);
            let aj_bi = nibble_mult_byte::<PX>(a[j], b[i]);
            let ghost t0 = rng_table;
            let mut row_j = rng_table[j];
            row_j[i] = (rng_table[i][j] ^ ai_bj) ^ aj_bi;
            rng_table[j] = row_j;
            proof {
                assert forall|p: int, q: int|
                    0 <= p < N && 0 <= q < N && !(p == j && q == i) implies #[trigger] rng_table[p][q] == t0[p][q] by {
                    if p == j {
                        assert(rng_table[p] == row_j);
                    } else {
                        assert(rng_table[p] == t0[p]);
                    }
                }
                assert forall|p: int, q: int| 0 <= p < q < N implies #[trigger] rng_table[p][q] == upper[p][q] by {
                    assert(rng_table[p][q] == t0[p][q]);
                }
                assert forall|p: int, q: int|
                    0 <= p < q < N && (p < i || (p == i && q < j + 1)) implies #[trigger] rng_table[q][p] == (
                    rng_table[p][q] ^ m8(p, q)) ^ m8(q, p) by {
                    if p == i && q == j {
                        assert(rng_table[p][q] == t0[p][q]);
                    } else {
                        assert(rng_table[q][p] == t0[q][p]);
                        assert(rng_table[p][q] == t0[p][q]);
                    }
                }
            }
            j += 1;
        }
        i += 1;
    }

    let ghost m = nibble_products(PX, a@, b@);
    let ghost t = |p: int, q: int| rng_table[p][q] as u128;
    let mut i: usize = 0;
    while i < N
        invariant
            i <= N,
            m == nibble_products(PX, a@, b@),
            t == (|p: int, q: int| rng_table[p][q] as u128),
            forall|p: int| 0 <= p < i ==> #[trigger] (result@[p] as u128) == m(p, p) ^ xsum(off_diagonal(t, p), N as nat),
        decreases N - i,
    {
        let mut acc = nibble_mult_byte::<PX>(a[i], b[i]);
        proof {
            lemma_xor_laws(acc as u128, 0, 0, 0);
        }
        let mut j: usize = 0;
        while j < N
            invariant
                i < N,
                j <= N,
                m == nibble_products(PX, a@, b@),
                t == (|p: int, q: int| rng_table[p][q] as u128),
                acc as u128 == m(i as int, i as int) ^ xsum(off_diagonal(t, i as int), j as nat),
            decreases N - j,
        {
            proof {
                lemma_xor_laws(m(i as int, i as int), xsum(off_diagonal(t, i as int), j as nat), off_diagonal(t, i as int)(j as int), 0);
            }
            if i != j {
                proof {
                    lemma_widen_xor(0, 0, acc, rng_table[i as int][j as int]);
                }
                acc ^= rng_table[i][j];
            } else {
                proof {
                    lemma_xor_laws(acc as u128, 0, 0, 0);
                    lemma_xor_laws(xsum(off_diagonal(t, i as int), j as nat), 0, 0, 0);
                }
            }
            j += 1;
        }
        result[i] = acc;
        i += 1;
    }
    proof {
        let tt = isw_table(m, upper8(upper));
        assert forall|p: int, q: int| 0 <= p < q < N implies #[trigger] t(q, p) == (t(p, q) ^ m(p, q)) ^ m(q, p) by {
            lemma_widen_xor(0, 0, rng_table[p][q], m8(p, q));
            lemma_widen_xor(0, 0, rng_table[p][q] ^ m8(p, q), m8(q, p));
        }
        assert forall|p: int| 0 <= p < N implies #[trigger] (result@[p] as u128) == isw_share(m, upper8(upper), p, N as nat) by {
            assert forall|q: int| 0 <= q < N implies #[trigger] off_diagonal(t, p)(q) == off_diagonal(tt, p)(q) by {
                if p < q {
                    assert(rng_table[p][q] == upper[p][q]);
                } else if q < p {
                    assert(rng_table[q][p] == upper[q][p]);
                    assert(t(q, p) == tt(q, p));
                }
            }
            lemma_xsum_ext(off_diagonal(t, p), off_diagonal(tt, p), N as nat);
            lemma_widen_xor(0, 0, result@[p], 0);
        }
        assert forall|p: int| 0 <= p < N implies #[trigger] result@[p] == nibble_masked_product(PX, a@, b@, upper)[p] by {
            assert((result@[p] as u128) == isw_share(m, upper8(upper), p, N as nat));
            lemma_widen_xor(0, 0, result@[p], 0);
        }
        assert(result@ =~= nibble_masked_product(PX, a@, b@, upper));
        lemma_masked_products(m, t, seq_fn(widen8(result@)), N as nat);
        lemma_sum_of_nibble_products(PX, a@, b@, N as nat);
        lemma_widen_xor(0, 0, nibble_mul_byte(PX, xor_all8(a@), xor_all8(b@)), 0);
    }
    result
}

/// Multiplies two masked bytes nibblewise; the random table, drawn row by row above
/// the diagonal, keeps every partial product masked.
pub fn share_nibble_mult<const PX: u8, const N: usize>(
    a: [u8; N],
    b: [u8; N],
    rng: &mut ChaCha20Rng,
) -> (r: [u8; N])
    ensures
        xor_all8(r@) == nibble_mul_byte(PX, xor_all8(a@), xor_all8(b@)),
{
    let upper = draw_byte_table::<N>(rng);
    share_nibble_mult_with_table::<PX, N>(a, b, upper)
}

/// A table of random bytes: row `i` is filled from the generator at positions
/// `i + 1 ..`, above the diagonal; the other entries are zero.
pub(crate) fn draw_byte_table<const N: usize>(rng: &mut ChaCha20Rng) -> (t: [[u8; N]; N])
    ensures
        forall|i: int, j: int| 0 <= j <= i < N ==> #[trigger] t[i][j] == 0,
{
    let mut table = [[0u8; N]; N];
    let mut i: usize = 0;
    while i < N
        invariant
            i <= N,
            forall|p: int, q: int| 0 <= q <= p < N ==> #[trigger] table[p][q] == 0,
        decreases N - i,
    {
        let ghost t0 = table;
        let mut row_i = table[i];
        rng_fill_row(rng, &mut row_i, i + 1);
        table[i] = row_i;
        proof {
            assert forall|p: int, q: int| 0 <= q <= p < N implies #[trigger] table[p][q] == 0 by {
                if p != i {
                    assert(table[p] == t0[p]);
                }
            }
        }
        i += 1;
    }
    table
}

} // verus!
