//! Threshold splitting of a byte string by polynomial evaluation over the
//! field with 256 elements, and its inverse by Lagrange interpolation at zero.
use vstd::prelude::*;
use crate::gf256::{fmul, inv, gf_mul, gf_inv, lemma_mul_zero, lemma_mul_one, lemma_inv_one};

verus! {

/// The value at `x` of the polynomial whose coefficients, constant term
/// first, are `cs`.
pub open spec fn poly_eval(cs: Seq<u8>, x: u8) -> u8
    decreases cs.len(),
{
    if cs.len() == 0 {
        0
    } else {
        cs[0] ^ fmul(x, poly_eval(cs.drop_first(), x))
    }
}

/// The polynomial that hides byte `b`: `b` is its constant term, `rest`
/// the higher coefficients.
pub open spec fn hiding_poly(b: u8, rest: Seq<u8>) -> Seq<u8> {
    seq![b] + rest
}

/// The x-coordinate of the share at position `i` of a split.
pub open spec fn share_x(i: int) -> u8 {
    (i + 1) as u8
}

/// Product of `xs[j]` over `j < n`, `j != i`, in increasing `j`.
pub open spec fn prod_others(xs: Seq<u8>, i: int, n: nat) -> u8
    decreases n,
{
    if n == 0 {
        1
    } else if n - 1 == i {
        prod_others(xs, i, (n - 1) as nat)
    } else {
        fmul(prod_others(xs, i, (n - 1) as nat), xs[n - 1])
    }
}

/// Product of `xs[i] - xs[j]` (that is, `xs[i] ^ xs[j]`) over `j < n`, `j != i`.
pub open spec fn prod_diffs(xs: Seq<u8>, i: int, n: nat) -> u8
    decreases n,
{
    if n == 0 {
        1
    } else if n - 1 == i {
        prod_diffs(xs, i, (n - 1) as nat)
    } else {
        fmul(prod_diffs(xs, i, (n - 1) as nat), xs[i] ^ xs[n - 1])
    }
}

/// The Lagrange basis polynomial of point `i`, evaluated at zero.
pub open spec fn basis_at_zero(xs: Seq<u8>, i: int) -> u8 {
    fmul(prod_others(xs, i, xs.len()), inv(prod_diffs(xs, i, xs.len())))
}

/// Sum of `ys[i]` times the basis of point `i`, over `i < n`.
pub open spec fn interpolate(xs: Seq<u8>, ys: Seq<u8>, n: nat) -> u8
    decreases n,
{
    if n == 0 {
        0
    } else {
        interpolate(xs, ys, (n - 1) as nat) ^ fmul(ys[n - 1], basis_at_zero(xs, n - 1))
    }
}

/// The value at zero of the polynomial through the points `(xs[i], ys[i])`.
pub open spec fn value_at_zero(xs: Seq<u8>, ys: Seq<u8>) -> u8 {
    interpolate(xs, ys, xs.len())
}

/// Byte `p` of every row.
pub open spec fn column(rows: Seq<Vec<u8>>, p: int) -> Seq<u8> {
    Seq::new(rows.len(), |i: int| rows[i]@[p])
}

/// What share `i` of a split of `payload` with coefficients `coeffs` holds.
pub open spec fn share_fragment(payload: Seq<u8>, coeffs: Seq<Vec<u8>>, i: int) -> Seq<u8> {
    Seq::new(payload.len(), |p: int| poly_eval(hiding_poly(payload[p], coeffs[p]@), share_x(i)))
}

/// Evaluates the polynomial with constant term `c` and higher coefficients
/// `rest` at `x`.
pub fn eval_hiding_poly(c: u8, rest: &Vec<u8>, x: u8) -> (r: u8)
    ensures
        r == poly_eval(hiding_poly(c, rest@), x),
{
    let n = rest.len();
    let mut acc: u8 = 0;
    let mut i: usize = n;
    assert(rest@.subrange(n as int, n as int).len() == 0);
    while i > 0
        invariant
            i <= n,
            n == rest.len(),
            acc == poly_eval(rest@.subrange(i as int, n as int), x),
        decreases i,
    {
        i = i - 1;
        assert(rest@.subrange(i as int, n as int).drop_first() =~= rest@.subrange(
            i as int + 1,
            n as int,
        ));
        acc = rest[i] ^ gf_mul(x, acc);
    }
    assert(rest@.subrange(0, n as int) =~= rest@);
    assert(hiding_poly(c, rest@).drop_first() =~= rest@);
    c ^ gf_mul(x, acc)
}

/// Splits `payload` into `total` shares. Byte `p` is hidden in the
/// polynomial with constant term `payload[p]` and higher coefficients
/// `coeffs[p]`; share `i` holds its values at `x = i + 1`.
pub fn split(payload: &Vec<u8>, coeffs: &Vec<Vec<u8>>, total: u8) -> (shares: Vec<Vec<u8>>)
    requires
        coeffs.len() == payload.len(),
    ensures
        shares.len() == total,
        forall|i: int| 0 <= i < total ==> #[trigger] shares[i]@ == share_fragment(payload@, coeffs@, i),
        forall|i: int, p: int|
            0 <= i < total && 0 <= p < payload.len() ==> #[trigger] shares[i]@[p] == poly_eval(
                hiding_poly(payload[p], coeffs[p]@),
                share_x(i),
            ),
{
    let mut shares: Vec<Vec<u8>> = Vec::new();
    let mut i: u8 = 0;
    while i < total
        invariant
            i <= total,
            coeffs.len() == payload.len(),
            shares.len() == i,
            forall|k: int| 0 <= k < i ==> #[trigger] shares[k]@ == share_fragment(payload@, coeffs@, k),
            forall|k: int, p: int|
                0 <= k < i && 0 <= p < payload.len() ==> #[trigger] shares[k]@[p] == poly_eval(
                    hiding_poly(payload[p], coeffs[p]@),
                    share_x(k),
                ),
        decreases total - i,
    {
        let x: u8 = i + 1;
        let mut row: Vec<u8> = Vec::new();
        let mut p: usize = 0;
        while p < payload.len()
            invariant
                p <= payload.len(),
                coeffs.len() == payload.len(),
                x == share_x(i as int),
                row.len() == p,
                forall|q: int|
                    0 <= q < p ==> #[trigger] row[q] == poly_eval(
                        hiding_poly(payload[q], coeffs[q]@),
                        x,
                    ),
            decreases payload.len() - p,
        {
            let v = eval_hiding_poly(payload[p], &coeffs[p], x);
            row.push(v);
            p = p + 1;
        }
        assert(row@ =~= share_fragment(payload@, coeffs@, i as int));
        shares.push(row);
        i = i + 1;
    }
    shares
}

/// Computes `prod_others` and `prod_diffs` of point `i` over all points.
fn basis_products(xs: &Vec<u8>, i: usize) -> (r: (u8, u8))
    requires
        i < xs.len(),
    ensures
        r.0 == prod_others(xs@, i as int, xs.len() as nat),
        r.1 == prod_diffs(xs@, i as int, xs.len() as nat),
{
    let mut num: u8 = 1;
    let mut den: u8 = 1;
    let mut j: usize = 0;
    while j < xs.len()
        invariant
            j <= xs.len(),
            i < xs.len(),
            num == prod_others(xs@, i as int, j as nat),
            den == prod_diffs(xs@, i as int, j as nat),
        decreases xs.len() - j,
    {
        if j != i {
            num = gf_mul(num, xs[j]);
            den = gf_mul(den, xs[i] ^ xs[j]);
        }
        j = j + 1;
    }
    (num, den)
}

/// Reconstructs, byte by byte, the constant terms of the polynomials
/// through the points `(xs[i], ys[i][p])`.
pub fn combine(xs: &Vec<u8>, ys: &Vec<Vec<u8>>, len: usize) -> (r: Vec<u8>)
    requires
        ys.len() == xs.len(),
        forall|i: int| 0 <= i < ys.len() ==> #[trigger] ys[i]@.len() == len,
    ensures
        r.len() == len,
        forall|p: int| 0 <= p < len ==> #[trigger] r[p] == value_at_zero(xs@, column(ys@, p)),
{
    let mut bases: Vec<u8> = Vec::new();
    let mut i: usize = 0;
    while i < xs.len()
        invariant
            i <= xs.len(),
            bases.len() == i,
            forall|k: int| 0 <= k < i ==> #[trigger] bases[k] == basis_at_zero(xs@, k),
        decreases xs.len() - i,
    {
        let (num, den) = basis_products(xs, i);
        let b = gf_mul(num, gf_inv(den));
        bases.push(b);
        i = i + 1;
    }
    let mut r: Vec<u8> = Vec::new();
    let mut p: usize = 0;
    while p < len
        invariant
            p <= len,
            ys.len() == xs.len(),
            bases.len() == xs.len(),
            forall|k: int| 0 <= k < xs.len() ==> #[trigger] bases[k] == basis_at_zero(xs@, k),
            forall|k: int| 0 <= k < ys.len() ==> #[trigger] ys[k]@.len() == len,
            r.len() == p,
            forall|q: int| 0 <= q < p ==> #[trigger] r[q] == value_at_zero(xs@, column(ys@, q)),
        decreases len - p,
    {
        let ghost col = column(ys@, p as int);
        let mut acc: u8 = 0;
        let mut k: usize = 0;
        while k < xs.len()
            invariant
                k <= xs.len(),
                p < len,
                ys.len() == xs.len(),
                bases.len() == xs.len(),
                forall|j: int| 0 <= j < xs.len() ==> #[trigger] bases[j] == basis_at_zero(xs@, j),
                forall|j: int| 0 <= j < ys.len() ==> #[trigger] ys[j]@.len() == len,
                col == column(ys@, p as int),
                acc == interpolate(xs@, col, k as nat),
            decreases xs.len() - k,
        {
            assert(col[k as int] == ys[k as int]@[p as int]);
            acc = acc ^ gf_mul(ys[k][p], bases[k]);
            k = k + 1;
        }
        r.push(acc);
        p = p + 1;
    }
    r
}

/// With one required share, every share of a split is the payload itself,
/// and interpolating from any single share gives the payload back.
pub proof fn lemma_single_share_round_trip(b: u8, i: int, x: u8)
    ensures
        poly_eval(hiding_poly(b, Seq::empty()), share_x(i)) == b,
        value_at_zero(seq![x], seq![b]) == b,
{
    let cs = hiding_poly(b, Seq::empty());
    assert(cs.drop_first() =~= Seq::<u8>::empty());
    lemma_mul_zero(share_x(i));
    assert(poly_eval(cs.drop_first(), share_x(i)) == 0);
    assert(cs[0] == b);
    assert(b ^ 0u8 == b) by (bit_vector);
    let xs = seq![x];
    assert(prod_others(xs, 0, 1) == prod_others(xs, 0, 0));
    assert(prod_diffs(xs, 0, 1) == prod_diffs(xs, 0, 0));
    lemma_inv_one();
    lemma_mul_one(1);
    lemma_mul_one(b);
    assert(interpolate(xs, seq![b], 1) == interpolate(xs, seq![b], 0) ^ fmul(b, basis_at_zero(xs, 0)));
    assert(0u8 ^ b == b) by (bit_vector);
}

} // verus!
