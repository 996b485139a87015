//! How unevenly messages spread over partitions, measured exactly.
//!
//! For partition counts `c` over `n` partitions with total `S` and sum of
//! squares `Q`, the variance is `(n·Q − S²) / n²`. The numerator
//! `n·Q − S²` (n² times the variance) orders distributions as their standard
//! deviations do, and is kept here as `q_minus_floor · n − deficit` so that
//! it needs no integer wider than 128 bits.

use vstd::prelude::*;

use crate::pairs::seq_sum;

verus! {

/// The sum of the squares of a sequence of naturals.
pub open spec fn sum_sq(c: Seq<nat>) -> nat
    decreases c.len(),
{
    if c.len() == 0 {
        0
    } else {
        sum_sq(c.drop_last()) + c.last() * c.last()
    }
}

/// `n²` times the variance of `c`, where `n` is its length: `n·Q − S²`.
pub open spec fn scaled_variance(c: Seq<nat>) -> int {
    c.len() * sum_sq(c) - seq_sum(c) * seq_sum(c)
}

/// The sum of the squared distances of the elements of `c` from `x`.
pub open spec fn dev_sum(c: Seq<nat>, x: int) -> int
    decreases c.len(),
{
    if c.len() == 0 {
        0
    } else {
        dev_sum(c.drop_last(), x) + (c.last() - x) * (c.last() - x)
    }
}

/// An exact representation of `n·Q − S²`: it equals
/// `q_minus_floor · n − deficit` with `deficit < n`.
#[derive(Debug, Clone, Copy, PartialEq, Eq)]
pub struct Spread {
    pub q_minus_floor: u128,
    pub deficit: u128,
}

/// The value that a spread stands for, for `n` partitions.
pub open spec fn spread_value(s: Spread, n: nat) -> int {
    s.q_minus_floor * n - s.deficit
}

proof fn lemma_square_nonneg(x: int)
    ensures
        x * x >= 0,
{
    assert(x * x >= 0) by (nonlinear_arith);
}

/// The squared distances add up to `Q − 2xS + n·x²`.
proof fn lemma_dev_sum_expand(c: Seq<nat>, x: int)
    ensures
        dev_sum(c, x) == sum_sq(c) - 2 * x * seq_sum(c) + c.len() * x * x,
        dev_sum(c, x) >= 0,
    decreases c.len(),
{
    if c.len() == 0 {
        let lc = c.len() as int;
        assert(lc * x * x == 0) by (nonlinear_arith)
            requires
                lc == 0,
        ;
        assert(dev_sum(c, x) == 0);
        assert(sum_sq(c) == 0);
        assert(seq_sum(c) == 0);
        assert(dev_sum(c, x) == sum_sq(c) - 2 * x * seq_sum(c) + c.len() * x * x);
    } else {
        let d = c.drop_last();
        lemma_dev_sum_expand(d, x);
        let y = c.last() as int;
        let q = sum_sq(d) as int;
        let s = seq_sum(d) as int;
        let k = d.len() as int;
        lemma_square_nonneg(y - x);
        assert((y - x) * (y - x) == y * y - 2 * x * y + x * x) by (nonlinear_arith);
        assert(q - 2 * x * s + k * x * x + y * y - 2 * x * y + x * x == (q + y * y) - 2 * x * (s
            + y) + (k + 1) * x * x) by (nonlinear_arith);
        assert(seq_sum(c) == s + y);
        assert(sum_sq(c) == q + y * y);
        assert(dev_sum(c, x) == dev_sum(d, x) + (y - x) * (y - x));
        assert(c.len() == k + 1);
        let dc = dev_sum(c, x);
        let dd = dev_sum(d, x);
        let sc = seq_sum(c) as int;
        let qc = sum_sq(c) as int;
        let lc = c.len() as int;
        assert(dc == qc - 2 * x * sc + lc * x * x) by (nonlinear_arith)
            requires
                dc == dd + (y - x) * (y - x),
                dd == q - 2 * x * s + k * x * x,
                sc == s + y,
                qc == q + y * y,
                lc == k + 1,
        ;
        assert(dev_sum(c, x) == sum_sq(c) - 2 * x * seq_sum(c) + c.len() * x * x);
    }
}

/// Cauchy–Schwarz for partition counts: `n·Q ≥ S²`, so the variance is never
/// negative; and `Q ≤ S²`.
pub proof fn lemma_scaled_variance_nonneg(c: Seq<nat>)
    ensures
        scaled_variance(c) >= 0,
        sum_sq(c) <= seq_sum(c) * seq_sum(c),
    decreases c.len(),
{
    if c.len() > 0 {
        let d = c.drop_last();
        lemma_scaled_variance_nonneg(d);
        let x = c.last() as int;
        lemma_dev_sum_expand(d, x);
        let q = sum_sq(d) as int;
        let s = seq_sum(d) as int;
        let k = d.len() as int;
        assert(k * q - s * s >= 0);
        assert((k + 1) * (q + x * x) - (s + x) * (s + x) == (k * q - s * s) + (q - 2 * x * s + k
            * x * x)) by (nonlinear_arith);
        assert(q <= s * s);
        assert(0 <= x);
        assert(0 <= s);
        assert(q + x * x <= (s + x) * (s + x)) by (nonlinear_arith)
            requires
                q <= s * s,
                0 <= x,
                0 <= s,
        ;
    }
}

/// Spreads compare as the values they stand for: smaller quotient first,
/// and for equal quotients the larger deficit.
pub proof fn lemma_spread_order(a: Spread, b: Spread, n: nat)
    requires
        n > 0,
        a.deficit < n,
        b.deficit < n,
    ensures
        (spread_value(a, n) < spread_value(b, n)) <==> (a.q_minus_floor < b.q_minus_floor || (
        a.q_minus_floor == b.q_minus_floor && a.deficit > b.deficit)),
        (spread_value(a, n) == spread_value(b, n)) <==> (a.q_minus_floor == b.q_minus_floor
            && a.deficit == b.deficit),
{
    let qa = a.q_minus_floor as int;
    let qb = b.q_minus_floor as int;
    let ra = a.deficit as int;
    let rb = b.deficit as int;
    let m = n as int;
    if qa < qb {
        assert(qa * m <= (qb - 1) * m) by (nonlinear_arith)
            requires
                qa < qb,
                m > 0,
        ;
        assert((qb - 1) * m == qb * m - m) by (nonlinear_arith);
    } else if qb < qa {
        assert(qb * m <= (qa - 1) * m) by (nonlinear_arith)
            requires
                qb < qa,
                m > 0,
        ;
        assert((qa - 1) * m == qa * m - m) by (nonlinear_arith);
    }
}

/// The spread of a list of partition counts whose total fits in `usize`.
pub fn spread_of(counts: &Vec<usize>) -> (r: Spread)
    requires
        counts@.len() > 0,
        seq_sum(counts@.map_values(|x: usize| x as nat)) <= usize::MAX,
    ensures
        spread_value(r, counts@.len() as nat) == scaled_variance(
            counts@.map_values(|x: usize| x as nat),
        ),
        r.deficit < counts@.len(),
{
    let ghost c = counts@.map_values(|x: usize| x as nat);
    let n = counts.len();
    let mut s: usize = 0;
    let mut q: u128 = 0;
    let mut i: usize = 0;
    proof {
        assert(c.take(0) =~= Seq::<nat>::empty());
    }
    while i < n
        invariant
            n == counts@.len(),
            c == counts@.map_values(|x: usize| x as nat),
            seq_sum(c) <= usize::MAX,
            i <= n,
            s == seq_sum(c.take(i as int)),
            q == sum_sq(c.take(i as int)),
        decreases n - i,
    {
        proof {
            crate::pairs::lemma_seq_sum_prefix(c, i + 1);
            assert(c.take(i + 1).drop_last() =~= c.take(i as int));
            lemma_scaled_variance_nonneg(c.take(i + 1));
            let t = seq_sum(c.take(i + 1)) as int;
            assert(t * t <= 0xffff_ffff_ffff_ffff_ffff_ffff_ffff_ffff) by (nonlinear_arith)
                requires
                    0 <= t <= 0xffff_ffff_ffff_ffff,
            ;
        }
        let x = counts[i] as u128;
        q = q + x * x;
        s = s + counts[i];
        i = i + 1;
    }
    proof {
        assert(c.take(n as int) =~= c);
        lemma_scaled_variance_nonneg(c);
        let t = s as int;
        assert(t * t <= 0xffff_ffff_ffff_ffff_ffff_ffff_ffff_ffff) by (nonlinear_arith)
            requires
                0 <= t <= 0xffff_ffff_ffff_ffff,
        ;
    }
    let s2 = (s as u128) * (s as u128);
    let nn = n as u128;
    let floor = s2 / nn;
    let deficit = s2 % nn;
    proof {
        let qi = q as int;
        let s2i = s2 as int;
        let ni = n as int;
        assert(ni * qi >= s2i);
        assert(s2i == floor * ni + deficit) by (nonlinear_arith)
            requires
                ni > 0,
                floor == s2i / ni,
                deficit == s2i % ni,
        ;
        assert(floor <= qi) by (nonlinear_arith)
            requires
                ni > 0,
                ni * qi >= s2i,
                s2i == floor * ni + deficit,
                0 <= deficit < ni,
        ;
        assert((qi - floor) * ni - deficit == ni * qi - s2i) by (nonlinear_arith)
            requires
                s2i == floor * ni + deficit,
        ;
    }
    Spread { q_minus_floor: q - floor, deficit }
}

} // verus!
