use crate::field::{
    congruent, lemma_congruent_difference, lemma_congruent_product, lemma_congruent_sum,
    lemma_reduce_congruent, modulus,
};
use vstd::prelude::*;

verus! {

/// The value at `x` of the polynomial with the given coefficients, lowest
/// degree first, over the integers.
pub open spec fn eval(coeffs: Seq<int>, x: int) -> int
    decreases coeffs.len(),
{
    if coeffs.len() == 0 {
        0
    } else {
        coeffs[0] + x * eval(coeffs.skip(1), x)
    }
}

/// The `len` entries of `a` found from `offset` on in steps of `stride`.
pub open spec fn strided(a: Seq<int>, offset: int, stride: int, len: nat) -> Seq<int> {
    Seq::new(len, |j: int| a[offset + j * stride])
}

/// `e` holds the entries of `s` at even places and `o` those at odd places.
pub open spec fn interleaved(s: Seq<int>, e: Seq<int>, o: Seq<int>) -> bool {
    &&& s.len() == 2 * e.len()
    &&& o.len() == e.len()
    &&& forall|j: int| 0 <= j < e.len() ==> e[j] == s[2 * j] && o[j] == s[2 * j + 1]
}

/// A polynomial is the sum of its even part and `x` times its odd part, both
/// taken at `x * x`.
pub proof fn lemma_eval_even_odd(s: Seq<int>, e: Seq<int>, o: Seq<int>, x: int)
    requires
        interleaved(s, e, o),
    ensures
        eval(s, x) == eval(e, x * x) + x * eval(o, x * x),
    decreases e.len(),
{
    if e.len() > 0 {
        let s1 = s.skip(1);
        let s2 = s.skip(2);
        let e2 = e.skip(1);
        let o2 = o.skip(1);
        assert(s1.skip(1) =~= s2);
        assert forall|j: int| 0 <= j < e2.len() implies e2[j] == s2[2 * j] && o2[j] == s2[2 * j
            + 1] by {
            assert(e[j + 1] == s[2 * (j + 1)]);
            assert(o[j + 1] == s[2 * (j + 1) + 1]);
        }
        lemma_eval_even_odd(s2, e2, o2, x);
        let xx = x * x;
        let ee = eval(e2, xx);
        let oo = eval(o2, xx);
        assert(eval(s1, x) == s[1] + x * eval(s2, x));
        assert(eval(s, x) == s[0] + x * (s[1] + x * (ee + x * oo)));
        assert(e[0] == s[2 * 0int] && o[0] == s[2 * 0int + 1]);
        assert(s[0] + x * (s[1] + x * (ee + x * oo)) == (s[0] + (x * x) * ee) + x * (s[1] + (x * x)
            * oo)) by (nonlinear_arith);
    }
}

/// Congruent coefficients at congruent points give congruent values.
pub proof fn lemma_eval_congruent(a: Seq<int>, b: Seq<int>, x: int, y: int)
    requires
        a.len() == b.len(),
        forall|j: int| 0 <= j < a.len() ==> congruent(a[j], b[j]),
        congruent(x, y),
    ensures
        congruent(eval(a, x), eval(b, y)),
    decreases a.len(),
{
    if a.len() > 0 {
        lemma_eval_congruent(a.skip(1), b.skip(1), x, y);
        lemma_congruent_product(x, y, eval(a.skip(1), x), eval(b.skip(1), y));
        lemma_congruent_sum(a[0], b[0], x * eval(a.skip(1), x), y * eval(b.skip(1), y));
    }
}

/// Zero coefficients at the top do not change the value.
pub proof fn lemma_eval_zero_padded(a: Seq<int>, b: Seq<int>, x: int)
    requires
        a.len() <= b.len(),
        forall|j: int| 0 <= j < a.len() ==> b[j] == a[j],
        forall|j: int| a.len() <= j < b.len() ==> b[j] == 0,
    ensures
        eval(b, x) == eval(a, x),
    decreases b.len(),
{
    if b.len() > 0 {
        if a.len() == 0 {
            lemma_eval_zero_padded(a, b.skip(1), x);
            assert(x * 0 == 0);
        } else {
            lemma_eval_zero_padded(a.skip(1), b.skip(1), x);
        }
    }
}

/// A strided selection splits into the selections of twice the stride that
/// start at the same place and one stride later.
pub proof fn lemma_strided_interleaved(a: Seq<int>, offset: int, stride: int, half: nat)
    ensures
        interleaved(
            strided(a, offset, stride, 2 * half),
            strided(a, offset, 2 * stride, half),
            strided(a, offset + stride, 2 * stride, half),
        ),
{
    let s = strided(a, offset, stride, 2 * half);
    let e = strided(a, offset, 2 * stride, half);
    let o = strided(a, offset + stride, 2 * stride, half);
    assert forall|j: int| 0 <= j < e.len() implies e[j] == s[2 * j] && o[j] == s[2 * j + 1] by {
        assert(j * (2 * stride) == (2 * j) * stride) by (nonlinear_arith);
        assert(stride + j * (2 * stride) == (2 * j + 1) * stride) by (nonlinear_arith);
    }
}

/// One butterfly of the fast Fourier transform: from the values `ev` and `ov`
/// of the even and odd parts at `x * x`, and a representative `w` of `x`, the
/// sum `ev + w * ov` is the value at `x` and the difference `ev - w * ov` the
/// value at `-x`.
pub proof fn lemma_butterfly(
    s: Seq<int>,
    e: Seq<int>,
    o: Seq<int>,
    x: int,
    w: int,
    ev: int,
    ov: int,
)
    requires
        interleaved(s, e, o),
        congruent(w, x),
        congruent(ev, eval(e, x * x)),
        congruent(ov, eval(o, x * x)),
    ensures
        congruent(ev + (w * ov) % modulus(), eval(s, x)),
        congruent(ev - (w * ov) % modulus(), eval(s, -x)),
{
    let ee = eval(e, x * x);
    let oo = eval(o, x * x);
    lemma_eval_even_odd(s, e, o, x);
    lemma_eval_even_odd(s, e, o, -x);
    assert((-x) * (-x) == x * x) by (nonlinear_arith);
    assert((-x) * oo == -(x * oo)) by (nonlinear_arith);
    lemma_congruent_product(w, x, ov, oo);
    lemma_reduce_congruent(w * ov);
    lemma_congruent_sum(ev, ee, (w * ov) % modulus(), x * oo);
    lemma_congruent_difference(ev, ee, (w * ov) % modulus(), x * oo);
}

} // verus!
