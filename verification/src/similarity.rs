//! Fixed-point cosine similarity between embedding vectors, and its laws:
//! symmetry, the value on identical and on orthogonal vectors, and the zero
//! cases.

use vstd::prelude::*;
use crate::{COMP_MAX, DIM_MAX, SCALE, valid_vector};
use crate::mathx::{is_sqrt, sqrt_floor, isqrt_u128, lemma_sqrt_exists, lemma_sqrt_unique};
use vstd::arithmetic::div_mod::lemma_div_multiples_vanish;

verus! {

/// Dot product of two integer vectors (over their common prefix).
pub open spec fn dot_spec(a: Seq<i64>, b: Seq<i64>) -> int
    decreases a.len(),
{
    if a.len() == 0 || b.len() == 0 {
        0
    } else {
        a[0] * b[0] + dot_spec(a.drop_first(), b.drop_first())
    }
}

/// Squared Euclidean magnitude of a vector.
pub open spec fn norm_sq_spec(a: Seq<i64>) -> int {
    dot_spec(a, a)
}

/// `num / den` rounded toward zero (for positive `den`), the rounding the
/// executable integer division performs.
pub open spec fn ratio_trunc(num: int, den: int) -> int {
    if num >= 0 {
        num / den
    } else {
        -((-num) / den)
    }
}

/// Clamps `x` into `[-SCALE, SCALE]`.
pub open spec fn clamp_scale(x: int) -> int {
    if x > SCALE {
        SCALE as int
    } else if x < -SCALE {
        -SCALE
    } else {
        x
    }
}

/// Fixed-point cosine similarity: `SCALE` stands for 1.0.  Defined as 0 when
/// the vectors differ in length or either has zero magnitude; otherwise the
/// dot product scaled by `SCALE` and divided by the floor square root of the
/// product of the squared magnitudes, rounded toward zero and clamped.
pub open spec fn cosine_sim_spec(a: Seq<i64>, b: Seq<i64>) -> int {
    if a.len() != b.len() {
        0
    } else {
        let d = dot_spec(a, b);
        let na = norm_sq_spec(a);
        let nb = norm_sq_spec(b);
        if na == 0 || nb == 0 {
            0
        } else {
            clamp_scale(ratio_trunc(d * SCALE, sqrt_floor(na * nb)))
        }
    }
}

/// Unrolls `dot_spec` from the back, the shape the accumulation loop uses.
pub proof fn lemma_dot_push(a: Seq<i64>, b: Seq<i64>, x: i64, y: i64)
    requires
        a.len() == b.len(),
    ensures
        dot_spec(a.push(x), b.push(y)) == dot_spec(a, b) + x * y,
    decreases a.len(),
{
    let p = a.push(x);
    let q = b.push(y);
    assert(p.len() > 0 && q.len() > 0);
    assert(dot_spec(p, q) == p[0] * q[0] + dot_spec(p.drop_first(), q.drop_first()));
    if a.len() == 0 {
        assert(p[0] == x && q[0] == y);
        assert(p.drop_first() =~= Seq::<i64>::empty());
        assert(q.drop_first() =~= Seq::<i64>::empty());
        assert(dot_spec(p.drop_first(), q.drop_first()) == 0);
    } else {
        lemma_dot_push(a.drop_first(), b.drop_first(), x, y);
        assert(p.drop_first() =~= a.drop_first().push(x));
        assert(q.drop_first() =~= b.drop_first().push(y));
        assert(p[0] == a[0] && q[0] == b[0]);
        assert(dot_spec(a, b) == a[0] * b[0] + dot_spec(a.drop_first(), b.drop_first()));
    }
}

/// The dot product is symmetric.
pub proof fn lemma_dot_symmetric(a: Seq<i64>, b: Seq<i64>)
    ensures
        dot_spec(a, b) == dot_spec(b, a),
    decreases a.len(),
{
    if a.len() > 0 && b.len() > 0 {
        lemma_dot_symmetric(a.drop_first(), b.drop_first());
    }
}

/// A squared magnitude is never negative.
pub proof fn lemma_norm_sq_nonneg(a: Seq<i64>)
    ensures
        norm_sq_spec(a) >= 0,
    decreases a.len(),
{
    if a.len() > 0 {
        assert(a[0] * a[0] >= 0) by (nonlinear_arith);
        assert(dot_spec(a.drop_first(), a.drop_first()) >= 0) by {
            lemma_norm_sq_nonneg(a.drop_first());
        }
    }
}

/// Cosine similarity is symmetric.
pub proof fn lemma_cosine_symmetric(a: Seq<i64>, b: Seq<i64>)
    ensures
        cosine_sim_spec(a, b) == cosine_sim_spec(b, a),
{
    if a.len() == b.len() {
        lemma_dot_symmetric(a, b);
        assert(norm_sq_spec(a) * norm_sq_spec(b) == norm_sq_spec(b) * norm_sq_spec(a))
            by (nonlinear_arith);
    }
}

/// Cosine similarity of a non-zero vector with itself is exactly `SCALE`,
/// the fixed-point rendering of 1.0.
pub proof fn lemma_cosine_identical(a: Seq<i64>)
    requires
        norm_sq_spec(a) != 0,
    ensures
        cosine_sim_spec(a, a) == SCALE,
{
    let na = norm_sq_spec(a);
    lemma_norm_sq_nonneg(a);
    assert(na >= 1);
    assert(is_sqrt(na * na, na)) by (nonlinear_arith)
        requires
            na >= 1,
    ;
    lemma_sqrt_unique(na * na, na);
    assert(ratio_trunc(na * SCALE, na) == SCALE) by {
        assert(na * SCALE >= 0) by (nonlinear_arith)
            requires
                na >= 1,
        ;
        assert(na * SCALE / na == SCALE) by {
            lemma_div_multiples_vanish(SCALE as int, na);
            assert(na * (SCALE as int) == (SCALE as int) * na) by (nonlinear_arith);
        }
    }
}

/// Cosine similarity of orthogonal vectors (zero dot product) is 0.
pub proof fn lemma_cosine_orthogonal(a: Seq<i64>, b: Seq<i64>)
    requires
        dot_spec(a, b) == 0,
    ensures
        cosine_sim_spec(a, b) == 0,
{
    if a.len() == b.len() {
        let na = norm_sq_spec(a);
        let nb = norm_sq_spec(b);
        if na != 0 && nb != 0 {
            lemma_norm_sq_nonneg(a);
            lemma_norm_sq_nonneg(b);
            assert(na * nb >= 1) by (nonlinear_arith)
                requires
                    na >= 1 && nb >= 1,
            ;
            lemma_sqrt_exists(na * nb);
            let m = sqrt_floor(na * nb);
            assert(m >= 1) by {
                if m <= 0 {
                    assert((m + 1) * (m + 1) <= 1) by (nonlinear_arith)
                        requires
                            0 <= m <= 0,
                    ;
                }
            }
            assert(ratio_trunc(0, m) == 0) by {
                vstd::arithmetic::div_mod::lemma_div_of0(m);
            }
        }
    }
}

/// Cosine similarity is 0 whenever the lengths differ or a magnitude is zero.
pub proof fn lemma_cosine_zero_cases(a: Seq<i64>, b: Seq<i64>)
    ensures
        a.len() != b.len() ==> cosine_sim_spec(a, b) == 0,
        norm_sq_spec(a) == 0 ==> cosine_sim_spec(a, b) == 0,
        norm_sq_spec(b) == 0 ==> cosine_sim_spec(a, b) == 0,
{
}

/// Computes [`cosine_sim_spec`] exactly, in integer arithmetic.
pub fn cosine_similarity(a: &Vec<i64>, b: &Vec<i64>) -> (r: i64)
    requires
        valid_vector(a@),
        valid_vector(b@),
    ensures
        r as int == cosine_sim_spec(a@, b@),
        -SCALE <= r <= SCALE,
{
    let ghost cm = COMP_MAX as int;
    let ghost cm2 = 1000000000000int;
    let ghost bound = 65536000000000000int;
    proof {
        assert(cm * cm == cm2) by (nonlinear_arith)
            requires
                cm == 1000000 && cm2 == 1000000000000,
        ;
        assert((DIM_MAX as int) * cm2 == bound) by (nonlinear_arith)
            requires
                cm2 == 1000000000000 && bound == 65536000000000000,
        ;
    }
    if a.len() != b.len() {
        return 0;
    }
    let n = a.len();
    let mut dot: i128 = 0;
    let mut na: i128 = 0;
    let mut nb: i128 = 0;
    let mut i: usize = 0;
    proof {
        assert(a@.take(0) =~= Seq::<i64>::empty());
        assert(b@.take(0) =~= Seq::<i64>::empty());
    }
    while i < n
        invariant
            valid_vector(a@),
            valid_vector(b@),
            a@.len() == b@.len() == n,
            i <= n,
            cm == COMP_MAX as int,
            cm * cm == cm2,
            cm2 == 1000000000000int,
            bound == 65536000000000000int,
            dot as int == dot_spec(a@.take(i as int), b@.take(i as int)),
            na as int == norm_sq_spec(a@.take(i as int)),
            nb as int == norm_sq_spec(b@.take(i as int)),
            -(i as int) * cm2 <= dot as int <= (i as int) * cm2,
            0 <= na as int <= (i as int) * cm2,
            0 <= nb as int <= (i as int) * cm2,
        decreases n - i,
    {
        let x = a[i];
        let y = b[i];
        proof {
            assert(x == a@[i as int] && y == b@[i as int]);
            assert(-cm <= x as int <= cm && -cm <= y as int <= cm);
            assert(-cm2 <= (x as int) * (y as int) <= cm2) by (nonlinear_arith)
                requires
                    -cm <= x as int <= cm,
                    -cm <= y as int <= cm,
                    cm > 0,
                    cm * cm == cm2,
            ;
            assert(0 <= (x as int) * (x as int) <= cm2) by (nonlinear_arith)
                requires
                    -cm <= x as int <= cm,
                    cm > 0,
                    cm * cm == cm2,
            ;
            assert(0 <= (y as int) * (y as int) <= cm2) by (nonlinear_arith)
                requires
                    -cm <= y as int <= cm,
                    cm > 0,
                    cm * cm == cm2,
            ;
            assert((i as int + 1) * cm2 == (i as int) * cm2 + cm2) by (nonlinear_arith);
            assert((i as int + 1) * cm2 <= (DIM_MAX as int) * cm2) by (nonlinear_arith)
                requires
                    0 <= i as int + 1 <= DIM_MAX as int,
                    cm2 > 0,
            ;
            lemma_dot_push(a@.take(i as int), b@.take(i as int), x, y);
            lemma_dot_push(a@.take(i as int), a@.take(i as int), x, x);
            lemma_dot_push(b@.take(i as int), b@.take(i as int), y, y);
            assert(a@.take(i as int).push(x) =~= a@.take(i as int + 1));
            assert(b@.take(i as int).push(y) =~= b@.take(i as int + 1));
        }
        dot = dot + (x as i128) * (y as i128);
        na = na + (x as i128) * (x as i128);
        nb = nb + (y as i128) * (y as i128);
        i = i + 1;
    }
    proof {
        assert(a@.take(n as int) =~= a@);
        assert(b@.take(n as int) =~= b@);
        assert((n as int) * cm2 <= bound) by (nonlinear_arith)
            requires
                0 <= n as int <= DIM_MAX as int,
                cm2 > 0,
                (DIM_MAX as int) * cm2 == bound,
        ;
    }
    if na == 0 || nb == 0 {
        return 0;
    }
    proof {
        assert(1 <= na as int <= bound && 1 <= nb as int <= bound);
        assert((na as int) * (nb as int) <= bound * bound) by (nonlinear_arith)
            requires
                0 <= na as int <= bound,
                0 <= nb as int <= bound,
        ;
        assert((na as int) * (nb as int) >= 1) by (nonlinear_arith)
            requires
                na as int >= 1,
                nb as int >= 1,
        ;
        assert(bound * bound == 4294967296000000000000000000000000int) by (nonlinear_arith)
            requires
                bound == 65536000000000000int,
        ;
        assert(4294967296000000000000000000000000int < 0x10000000000000000000000000000);
    }
    let nn = (na as u128) * (nb as u128);
    let m = isqrt_u128(nn);
    proof {
        assert(is_sqrt(nn as int, m as int));
        assert(m >= 1) by {
            if m == 0 {
                assert((0int + 1) * (0int + 1) == 1) by (nonlinear_arith);
                assert((nn as int) < 1);
            }
        }
    }
    let neg = dot < 0;
    let dabs: u128 = if neg {
        (-dot) as u128
    } else {
        dot as u128
    };
    proof {
        assert(0 <= dabs as int <= bound);
        assert((dabs as int) * (SCALE as int) <= bound * (SCALE as int)) by (nonlinear_arith)
            requires
                0 <= (dabs as int),
                (dabs as int) <= bound,
                (SCALE as int) > 0,
        ;
        assert(bound * (SCALE as int) == 65536000000000000000int) by (nonlinear_arith)
            requires
                bound == 65536000000000000int,
                SCALE == 1000,
        ;
    }
    let q: u128 = dabs * (SCALE as u128) / m;
    let clamped: i64 = if q >= SCALE as u128 {
        SCALE
    } else {
        q as i64
    };
    let r = if neg {
        -clamped
    } else {
        clamped
    };
    proof {
        let d = dot_spec(a@, b@);
        let prod = norm_sq_spec(a@) * norm_sq_spec(b@);
        assert(nn as int == prod);
        assert(m as int == sqrt_floor(prod));
        if neg {
            assert(dabs as int == -d);
            assert((dabs as int) * (SCALE as int) == -(d * (SCALE as int))) by (nonlinear_arith)
                requires
                    dabs as int == -d,
            ;
            assert(q as int == (-(d * SCALE)) / (m as int));
            assert(ratio_trunc(d * SCALE, m as int) == -(q as int));
        } else {
            assert(dabs as int == d);
            assert(q as int == (d * SCALE) / (m as int));
            assert(d * SCALE >= 0) by (nonlinear_arith)
                requires
                    d >= 0,
                    (SCALE as int) > 0,
            ;
            assert(ratio_trunc(d * SCALE, m as int) == q as int);
        }
        assert(r as int == clamp_scale(ratio_trunc(d * SCALE, sqrt_floor(prod))));
    }
    r
}

} // verus!
