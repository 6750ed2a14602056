use crate::dft::{
    eval, lemma_butterfly, lemma_eval_congruent, lemma_eval_zero_padded,
    lemma_strided_interleaved, strided,
};
use crate::error::Error;
use crate::field::{
    congruent, lemma_canonical_unique, lemma_congruent_product, lemma_reduce_congruent, modulus,
};
use crate::g1::{dlogs, G1Point};
use crate::inversion::inverse;
use crate::scalar::{largest_root_of_unity, values, Scalar};
use crate::sums::lemma_pow_congruent;
use crate::unity::lemma_root_order;
use vstd::arithmetic::div_mod::{lemma_mul_mod_noop_left, lemma_small_mod};
use vstd::arithmetic::power::{
    lemma0_pow, lemma1_pow, lemma_pow0, lemma_pow1, lemma_pow_adds, lemma_pow_distributes,
    lemma_pow_mod_noop, lemma_pow_multiplies, pow,
};
use vstd::arithmetic::power2::{
    lemma2_to64, lemma_pow2_adds, lemma_pow2_pos, lemma_pow2_strictly_increases,
    lemma_pow2_unfold, pow2,
};
use vstd::prelude::*;

verus! {

/// The multiplicative subgroup of the `n`-th roots of unity of the scalar
/// field, `n` a power of two, in the order `w^0, w^1, ..., w^(n-1)` of the
/// powers of its generator `w`.
#[derive(Debug)]
pub struct Domain {
    /// The roots of unity, `roots[i]` being the `i`-th power of the generator.
    roots: Vec<Scalar>,
    /// The number of roots as a field element.
    domain_size: Scalar,
    /// The inverse of the number of roots.
    domain_size_inv: Scalar,
    /// The generator of the subgroup.
    generator: Scalar,
    /// The inverse of the generator.
    generator_inv: Scalar,
    /// The binary logarithm of the number of roots.
    log_size: u32,
}

/// The largest domain that can be built: the field has subgroups of every
/// power of two up to `2^32`, and the roots must fit in memory.
pub open spec fn max_domain_size() -> int {
    if usize::MAX >= 0x1_0000_0000 {
        0x1_0000_0000
    } else {
        0x8000_0000
    }
}

/// `2^log` is the smallest power of two that is at least `degree + 1`.
pub open spec fn is_log_size_for(degree: nat, log: nat) -> bool {
    &&& pow2(log) >= degree + 1
    &&& log == 0 || pow2((log - 1) as nat) < degree + 1
}

/// A power `2^log` with `log` at most `bound` is at most `2^bound`.
proof fn lemma_pow2_bounded(log: nat, bound: nat)
    requires
        log <= bound,
    ensures
        pow2(log) <= pow2(bound),
{
    if log < bound {
        lemma_pow2_strictly_increases(log, bound);
    }
}

/// The power `2^(32 - log)` of the largest root of unity generates the
/// subgroup of order `2^log`.
proof fn lemma_generator_order(log: nat)
    requires
        log <= 32,
    ensures
        congruent(
            pow(pow(largest_root_of_unity(), pow2((32 - log) as nat)) % modulus(), pow2(log)),
            1,
        ),
        log > 0 ==> congruent(
            pow(
                pow(largest_root_of_unity(), pow2((32 - log) as nat)) % modulus(),
                pow2((log - 1) as nat),
            ),
            -1,
        ),
{
    let root = largest_root_of_unity();
    let e = pow2((32 - log) as nat);
    lemma_root_order();
    lemma_pow_mod_noop(pow(root, e), pow2(log), modulus());
    lemma_pow_multiplies(root, e, pow2(log));
    lemma_pow2_adds((32 - log) as nat, log);
    if log > 0 {
        let h = pow2((log - 1) as nat);
        lemma_pow_mod_noop(pow(root, e), h, modulus());
        lemma_pow_multiplies(root, e, h);
        lemma_pow2_adds((32 - log) as nat, (log - 1) as nat);
    }
}

impl Domain {
    /// The roots of unity, entry `i` being the `i`-th power of the generator.
    pub closed spec fn roots_view(self) -> Seq<Scalar> {
        self.roots@
    }

    /// The generator of the subgroup as an integer.
    pub closed spec fn omega(self) -> int {
        self.generator.value()
    }

    /// The inverse of the generator as an integer.
    pub closed spec fn omega_inv(self) -> int {
        self.generator_inv.value()
    }

    /// The number of roots as the integer of a field element.
    pub closed spec fn size_value(self) -> int {
        self.domain_size.value()
    }

    /// The inverse of the number of roots as an integer.
    pub closed spec fn size_inv(self) -> int {
        self.domain_size_inv.value()
    }

    /// The binary logarithm of the number of roots.
    pub closed spec fn log(self) -> nat {
        self.log_size as nat
    }

    /// The number of roots.
    pub open spec fn size(self) -> nat {
        self.roots_view().len()
    }

    /// Every domain is the subgroup of order `2^log` with its roots in the
    /// order of the generator's powers.
    #[verifier::type_invariant]
    pub open spec fn wf(self) -> bool {
        &&& self.log() <= 32
        &&& self.size() == pow2(self.log())
        &&& 0 <= self.omega() < modulus()
        &&& 0 <= self.omega_inv() < modulus()
        &&& 0 <= self.size_inv() < modulus()
        &&& self.log() > 0 ==> congruent(pow(self.omega(), pow2((self.log() - 1) as nat)), -1)
        &&& congruent(pow(self.omega(), pow2(self.log())), 1)
        &&& forall|i: int|
            0 <= i < self.size() ==> (#[trigger] self.roots_view()[i]).value() == pow(
                self.omega(),
                i as nat,
            ) % modulus()
        &&& self.size_value() == pow2(self.log())
        &&& (self.size_value() * self.size_inv()) % modulus() == 1
        &&& (self.omega() * self.omega_inv()) % modulus() == 1
    }

    /// The domain is the one that `new` builds for `degree`: the smallest
    /// subgroup with more than `degree` roots, generated by the matching
    /// power of the field's root of unity of order `2^32`.
    pub open spec fn built_for(self, degree: nat) -> bool {
        &&& self.wf()
        &&& is_log_size_for(degree, self.log())
        &&& self.omega() == pow(largest_root_of_unity(), pow2((32 - self.log()) as nat))
            % modulus()
    }

    /// Builds the smallest domain that can hold a polynomial of the given
    /// degree: its size is the smallest power of two above `degree`. A
    /// degree for which that size is more than the largest supported one is
    /// refused.
    pub fn new(degree: usize) -> (r: Result<Domain, Error>)
        ensures
            r.is_ok() == (degree + 1 <= max_domain_size()),
            r.is_ok() ==> r.unwrap().built_for(degree as nat),
            r.is_err() ==> r.unwrap_err() == Error::Construction,
    {
        proof {
            lemma2_to64();
        }
        let mut size: u64 = 1;
        let mut log: u32 = 0;
        while size <= degree as u64
            invariant
                log <= 32,
                size == pow2(log as nat),
                log == 0 || pow2((log - 1) as nat) < degree + 1,
                pow2(32) == 0x1_0000_0000,
            decreases 32 - log,
        {
            if log == 32 {
                return Err(Error::Construction);
            }
            proof {
                lemma_pow2_unfold((log + 1) as nat);
                lemma_pow2_bounded((log + 1) as nat, 32);
            }
            size = size * 2;
            log = log + 1;
        }
        proof {
            lemma_pow2_bounded(log as nat, 32);
            if log < 32 {
                lemma_pow2_bounded(log as nat, 31);
            }
        }
        if size > usize::MAX as u64 {
            return Err(Error::Construction);
        }
        let n = size as usize;
        let mut exponent: u64 = 1;
        let mut j: u32 = log;
        while j < 32
            invariant
                log <= j <= 32,
                exponent == pow2((j - log) as nat),
                pow2(32) == 0x1_0000_0000,
            decreases 32 - j,
        {
            proof {
                lemma_pow2_unfold((j + 1 - log) as nat);
                lemma_pow2_bounded((j + 1 - log) as nat, 32);
            }
            exponent = exponent * 2;
            j = j + 1;
        }
        let generator = Scalar::root_of_unity().pow(exponent);
        let ghost g = generator.value();
        proof {
            use_type_invariant(&generator);
            lemma_generator_order(log as nat);
            lemma_pow0(g);
            lemma_small_mod(1, modulus() as nat);
        }
        let mut roots: Vec<Scalar> = Vec::new();
        let mut current = Scalar::one();
        let mut i: usize = 0;
        while i < n
            invariant
                i <= n,
                roots.len() == i,
                g == generator.value(),
                current.value() == pow(g, i as nat) % modulus(),
                forall|k: int|
                    0 <= k < i ==> (#[trigger] roots@[k]).value() == pow(g, k as nat) % modulus(),
            decreases n - i,
        {
            roots.push(current);
            proof {
                lemma_mul_mod_noop_left(pow(g, i as nat), g, modulus());
                lemma_pow_adds(g, i as nat, 1);
                lemma_pow1(g);
            }
            current = current.mul(&generator);
            i += 1;
        }
        let domain_size = Scalar::from_u64(size);
        let domain_size_inv = inverse(domain_size);
        let generator_inv = inverse(generator);
        proof {
            use_type_invariant(&domain_size_inv);
            use_type_invariant(&generator_inv);
            lemma_pow2_pos(log as nat);
            lemma_small_mod(size as nat, modulus() as nat);
            lemma_small_mod(g as nat, modulus() as nat);
            if g == 0 {
                lemma0_pow(pow2(log as nat));
            }
        }
        Ok(Domain { roots, domain_size, domain_size_inv, generator, generator_inv, log_size: log })
    }

    /// The roots of unity, in the order of the generator's powers.
    pub fn roots(&self) -> (r: &Vec<Scalar>)
        ensures
            r@ == self.roots_view(),
    {
        &self.roots
    }

    /// The generator of the subgroup.
    pub fn generator(&self) -> (r: Scalar)
        ensures
            r.value() == self.omega(),
    {
        self.generator
    }

    /// The inverse of the generator.
    pub fn generator_inv(&self) -> (r: Scalar)
        ensures
            r.value() == self.omega_inv(),
    {
        self.generator_inv
    }

    /// The number of roots as a field element.
    pub fn domain_size(&self) -> (r: Scalar)
        ensures
            r.value() == self.size_value(),
    {
        self.domain_size
    }

    /// The inverse of the number of roots.
    pub fn domain_size_inv(&self) -> (r: Scalar)
        ensures
            r.value() == self.size_inv(),
    {
        self.domain_size_inv
    }

    /// The binary logarithm of the number of roots.
    pub fn log_size(&self) -> (r: u32)
        ensures
            r == self.log(),
    {
        self.log_size
    }

    /// Entry `i` of the transform of the `len` entries of `a` found from
    /// `offset` on in steps of `stride`: their polynomial's value at the
    /// `i`-th root of the subgroup of order `len`.
    pub open spec fn spectrum(self, a: Seq<int>, offset: int, stride: int, len: nat, i: int) -> int {
        eval(strided(a, offset, stride, len), pow(self.omega(), (i * stride) as nat)) % modulus()
    }

    /// The selection of one entry is a constant polynomial.
    proof fn lemma_single(self, a: Seq<int>, offset: int, stride: int)
        requires
            0 <= offset < a.len(),
            0 <= a[offset] < modulus(),
        ensures
            self.spectrum(a, offset, stride, 1, 0) == a[offset],
    {
        let s = strided(a, offset, stride, 1);
        let x = pow(self.omega(), (0 * stride) as nat);
        assert(s[0] == a[offset + 0 * stride]);
        assert(eval(s.skip(1), x) == 0);
        assert(x * 0 == 0);
        lemma_small_mod(a[offset] as nat, modulus() as nat);
    }

    /// One level of the transform: entries `i` and `i + half` of the
    /// transform of a selection follow from entry `i` of the transforms of
    /// its even and odd halves.
    proof fn lemma_level(
        self,
        a: Seq<int>,
        offset: int,
        stride: int,
        half: nat,
        i: int,
        ev: int,
        ov: int,
        w: int,
    )
        requires
            self.wf(),
            half >= 1,
            stride >= 1,
            2 * half * stride == self.size(),
            0 <= i < half,
            ev == self.spectrum(a, offset, 2 * stride, half, i),
            ov == self.spectrum(a, offset + stride, 2 * stride, half, i),
            w == pow(self.omega(), (i * stride) as nat) % modulus(),
        ensures
            (ev + (w * ov) % modulus()) % modulus() == self.spectrum(
                a,
                offset,
                stride,
                2 * half,
                i,
            ),
            (ev - (w * ov) % modulus()) % modulus() == self.spectrum(
                a,
                offset,
                stride,
                2 * half,
                i + half,
            ),
    {
        let g = self.omega();
        let s = strided(a, offset, stride, 2 * half);
        let e = strided(a, offset, 2 * stride, half);
        let o = strided(a, offset + stride, 2 * stride, half);
        assert(i * stride >= 0 && half * stride >= 1 && (i + half) * stride == i * stride + half
            * stride && i * stride + i * stride == i * (2 * stride) && 2 * (half * stride) == 2
            * half * stride) by (nonlinear_arith)
            requires
                i >= 0,
                stride >= 1,
                half >= 1,
        ;
        let x = pow(g, (i * stride) as nat);
        let h = pow(g, (half * stride) as nat);
        lemma_strided_interleaved(a, offset, stride, half);
        lemma_pow_adds(g, (i * stride) as nat, (i * stride) as nat);
        lemma_reduce_congruent(x);
        lemma_reduce_congruent(eval(e, x * x));
        lemma_reduce_congruent(eval(o, x * x));
        lemma_butterfly(s, e, o, x, w, ev, ov);
        lemma_pow_adds(g, (i * stride) as nat, (half * stride) as nat);
        assert(self.log_size > 0) by {
            if self.log_size == 0 {
                lemma2_to64();
            }
        }
        lemma_pow2_unfold(self.log_size as nat);
        assert(congruent(h, -1));
        lemma_congruent_product(x, x, h, -1);
        assert(x * (-1) == -x);
        lemma_eval_congruent(s, s, -x, x * h);
    }

    /// The transform of the `len` entries of `input` found from `offset` on
    /// in steps of `stride`, by the radix-2 recursion on their even and odd
    /// halves.
    fn fft_scalars(
        &self,
        input: &Vec<Scalar>,
        offset: usize,
        stride: usize,
        len: usize,
        Ghost(log_len): Ghost<nat>,
    ) -> (out: Vec<Scalar>)
        requires
            self.wf(),
            input.len() == self.roots.len(),
            len == pow2(log_len),
            len * stride == self.roots.len(),
            offset < stride,
        ensures
            out.len() == len,
            forall|i: int|
                0 <= i < len ==> (#[trigger] out@[i]).value() == self.spectrum(
                    values(input@),
                    offset as int,
                    stride as int,
                    len as nat,
                    i,
                ),
        decreases len,
    {
        let ghost a = values(input@);
        proof {
            lemma2_to64();
            assert(offset < len * stride) by (nonlinear_arith)
                requires
                    offset < stride,
                    len >= 1,
            ;
        }
        let mut out: Vec<Scalar> = Vec::new();
        if len == 1 {
            let only = input[offset];
            proof {
                use_type_invariant(&only);
                self.lemma_single(a, offset as int, stride as int);
            }
            out.push(only);
            return out;
        }
        let half = len / 2;
        proof {
            assert(log_len > 0) by {
                lemma2_to64();
            }
            lemma_pow2_unfold(log_len);
            lemma_pow2_pos((log_len - 1) as nat);
            assert(2 * half * stride == len * stride && half * (stride * 2) == len * stride
                && stride * 2 <= len * stride) by (nonlinear_arith)
                requires
                    2 * half == len,
                    half >= 1,
                    stride >= 0,
            ;
        }
        let even = self.fft_scalars(input, offset, stride * 2, half, Ghost((log_len - 1) as nat));
        let odd = self.fft_scalars(
            input,
            offset + stride,
            stride * 2,
            half,
            Ghost((log_len - 1) as nat),
        );
        let mut i: usize = 0;
        while i < half
            invariant
                self.wf(),
                i <= half,
                half >= 1,
                len == 2 * half,
                stride >= 1,
                2 * half * stride == self.roots.len(),
                out.len() == i,
                even.len() == half,
                odd.len() == half,
                a == values(input@),
                forall|k: int|
                    0 <= k < half ==> (#[trigger] even@[k]).value() == self.spectrum(
                        a,
                        offset as int,
                        2 * stride,
                        half as nat,
                        k,
                    ),
                forall|k: int|
                    0 <= k < half ==> (#[trigger] odd@[k]).value() == self.spectrum(
                        a,
                        offset + stride,
                        2 * stride,
                        half as nat,
                        k,
                    ),
                forall|k: int|
                    0 <= k < i ==> (#[trigger] out@[k]).value() == self.spectrum(
                        a,
                        offset as int,
                        stride as int,
                        len as nat,
                        k,
                    ),
            decreases half - i,
        {
            proof {
                assert(i * stride < 2 * half * stride) by (nonlinear_arith)
                    requires
                        i < half,
                        stride >= 1,
                ;
            }
            let w = self.roots[i * stride];
            let t = w.mul(&odd[i]);
            let y = even[i].add(&t);
            proof {
                self.lemma_level(
                    a,
                    offset as int,
                    stride as int,
                    half as nat,
                    i as int,
                    even@[i as int].value(),
                    odd@[i as int].value(),
                    w.value(),
                );
            }
            out.push(y);
            i += 1;
        }
        i = 0;
        while i < half
            invariant
                self.wf(),
                i <= half,
                half >= 1,
                len == 2 * half,
                stride >= 1,
                2 * half * stride == self.roots.len(),
                out.len() == half + i,
                even.len() == half,
                odd.len() == half,
                a == values(input@),
                forall|k: int|
                    0 <= k < half ==> (#[trigger] even@[k]).value() == self.spectrum(
                        a,
                        offset as int,
                        2 * stride,
                        half as nat,
                        k,
                    ),
                forall|k: int|
                    0 <= k < half ==> (#[trigger] odd@[k]).value() == self.spectrum(
                        a,
                        offset + stride,
                        2 * stride,
                        half as nat,
                        k,
                    ),
                forall|k: int|
                    0 <= k < half + i ==> (#[trigger] out@[k]).value() == self.spectrum(
                        a,
                        offset as int,
                        stride as int,
                        len as nat,
                        k,
                    ),
            decreases half - i,
        {
            proof {
                assert(i * stride < 2 * half * stride) by (nonlinear_arith)
                    requires
                        i < half,
                        stride >= 1,
                ;
            }
            let w = self.roots[i * stride];
            let t = w.mul(&odd[i]);
            let y = even[i].sub(&t);
            proof {
                self.lemma_level(
                    a,
                    offset as int,
                    stride as int,
                    half as nat,
                    i as int,
                    even@[i as int].value(),
                    odd@[i as int].value(),
                    w.value(),
                );
            }
            out.push(y);
            i += 1;
        }
        out
    }
    /// The same transform on points of G1: sums of points and multiples of
    /// points by roots take the place of sums and products of scalars.
    fn fft_points(
        &self,
        input: &Vec<G1Point>,
        offset: usize,
        stride: usize,
        len: usize,
        Ghost(log_len): Ghost<nat>,
    ) -> (out: Vec<G1Point>)
        requires
            self.wf(),
            input.len() == self.roots.len(),
            len == pow2(log_len),
            len * stride == self.roots.len(),
            offset < stride,
        ensures
            out.len() == len,
            forall|i: int|
                0 <= i < len ==> (#[trigger] out@[i]).dlog() == self.spectrum(
                    dlogs(input@),
                    offset as int,
                    stride as int,
                    len as nat,
                    i,
                ),
        decreases len,
    {
        let ghost a = dlogs(input@);
        proof {
            lemma2_to64();
            assert(offset < len * stride) by (nonlinear_arith)
                requires
                    offset < stride,
                    len >= 1,
            ;
        }
        let mut out: Vec<G1Point> = Vec::new();
        if len == 1 {
            let only = input[offset];
            proof {
                use_type_invariant(&only);
                only.lemma_dlog_range();
                self.lemma_single(a, offset as int, stride as int);
            }
            out.push(only);
            return out;
        }
        let half = len / 2;
        proof {
            assert(log_len > 0) by {
                lemma2_to64();
            }
            lemma_pow2_unfold(log_len);
            lemma_pow2_pos((log_len - 1) as nat);
            assert(2 * half * stride == len * stride && half * (stride * 2) == len * stride
                && stride * 2 <= len * stride) by (nonlinear_arith)
                requires
                    2 * half == len,
                    half >= 1,
                    stride >= 0,
            ;
        }
        let even = self.fft_points(input, offset, stride * 2, half, Ghost((log_len - 1) as nat));
        let odd = self.fft_points(
            input,
            offset + stride,
            stride * 2,
            half,
            Ghost((log_len - 1) as nat),
        );
        let mut i: usize = 0;
        while i < half
            invariant
                self.wf(),
                i <= half,
                half >= 1,
                len == 2 * half,
                stride >= 1,
                2 * half * stride == self.roots.len(),
                out.len() == i,
                even.len() == half,
                odd.len() == half,
                a == dlogs(input@),
                forall|k: int|
                    0 <= k < half ==> (#[trigger] even@[k]).dlog() == self.spectrum(
                        a,
                        offset as int,
                        2 * stride,
                        half as nat,
                        k,
                    ),
                forall|k: int|
                    0 <= k < half ==> (#[trigger] odd@[k]).dlog() == self.spectrum(
                        a,
                        offset + stride,
                        2 * stride,
                        half as nat,
                        k,
                    ),
                forall|k: int|
                    0 <= k < i ==> (#[trigger] out@[k]).dlog() == self.spectrum(
                        a,
                        offset as int,
                        stride as int,
                        len as nat,
                        k,
                    ),
            decreases half - i,
        {
            proof {
                assert(i * stride < 2 * half * stride) by (nonlinear_arith)
                    requires
                        i < half,
                        stride >= 1,
                ;
            }
            let w = self.roots[i * stride];
            let t = odd[i].mul(&w);
            let y = even[i].add(&t);
            proof {
                self.lemma_level(
                    a,
                    offset as int,
                    stride as int,
                    half as nat,
                    i as int,
                    even@[i as int].dlog(),
                    odd@[i as int].dlog(),
                    w.value(),
                );
                assert(odd@[i as int].dlog() * w.value() == w.value() * odd@[i as int].dlog())
                    by (nonlinear_arith);
            }
            out.push(y);
            i += 1;
        }
        i = 0;
        while i < half
            invariant
                self.wf(),
                i <= half,
                half >= 1,
                len == 2 * half,
                stride >= 1,
                2 * half * stride == self.roots.len(),
                out.len() == half + i,
                even.len() == half,
                odd.len() == half,
                a == dlogs(input@),
                forall|k: int|
                    0 <= k < half ==> (#[trigger] even@[k]).dlog() == self.spectrum(
                        a,
                        offset as int,
                        2 * stride,
                        half as nat,
                        k,
                    ),
                forall|k: int|
                    0 <= k < half ==> (#[trigger] odd@[k]).dlog() == self.spectrum(
                        a,
                        offset + stride,
                        2 * stride,
                        half as nat,
                        k,
                    ),
                forall|k: int|
                    0 <= k < half + i ==> (#[trigger] out@[k]).dlog() == self.spectrum(
                        a,
                        offset as int,
                        stride as int,
                        len as nat,
                        k,
                    ),
            decreases half - i,
        {
            proof {
                assert(i * stride < 2 * half * stride) by (nonlinear_arith)
                    requires
                        i < half,
                        stride >= 1,
                ;
            }
            let w = self.roots[i * stride];
            let t = odd[i].mul(&w);
            let y = even[i].sub(&t);
            proof {
                self.lemma_level(
                    a,
                    offset as int,
                    stride as int,
                    half as nat,
                    i as int,
                    even@[i as int].dlog(),
                    odd@[i as int].dlog(),
                    w.value(),
                );
                assert(odd@[i as int].dlog() * w.value() == w.value() * odd@[i as int].dlog())
                    by (nonlinear_arith);
            }
            out.push(y);
            i += 1;
        }
        out
    }

    /// `evals` is the transform of `coeffs`: the values of the polynomial
    /// with these coefficients at the roots, in their order.
    pub open spec fn is_transform(self, coeffs: Seq<int>, evals: Seq<int>) -> bool {
        &&& evals.len() == self.size()
        &&& forall|i: int|
            0 <= i < self.size() ==> #[trigger] evals[i] == eval(coeffs, pow(self.omega(), i as nat))
                % modulus()
    }

    /// `coeffs` is the inverse transform of `evals`: entry `i` is the value
    /// of the polynomial with coefficients `evals` at the `i`-th power of
    /// the inverse of the generator, divided by the number of roots.
    pub open spec fn is_inverse_transform(self, evals: Seq<int>, coeffs: Seq<int>) -> bool {
        &&& coeffs.len() == self.size()
        &&& forall|i: int|
            0 <= i < self.size() ==> #[trigger] coeffs[i] == (self.size_inv() * eval(
                evals,
                pow(self.omega_inv(), i as nat),
            )) % modulus()
    }

    /// The input followed by as many zeros as the domain has more roots.
    fn zero_padded(&self, input: &[Scalar]) -> (out: Vec<Scalar>)
        requires
            input.len() <= self.roots.len(),
        ensures
            out.len() == self.roots.len(),
            forall|i: int| 0 <= i < input.len() ==> out@[i] == input@[i],
            forall|i: int| input.len() <= i < out.len() ==> (#[trigger] out@[i]).value() == 0,
    {
        let n = self.roots.len();
        let mut out: Vec<Scalar> = Vec::new();
        let mut i: usize = 0;
        while i < n
            invariant
                i <= n,
                n == self.roots.len(),
                input.len() <= n,
                out.len() == i,
                forall|k: int| 0 <= k < i && k < input.len() ==> out@[k] == input@[k],
                forall|k: int| input.len() <= k < i ==> (#[trigger] out@[k]).value() == 0,
            decreases n - i,
        {
            if i < input.len() {
                out.push(input[i]);
            } else {
                out.push(Scalar::zero());
            }
            i += 1;
        }
        out
    }

    /// The input followed by as many neutral elements as the domain has more
    /// roots.
    fn identity_padded(&self, input: &[G1Point]) -> (out: Vec<G1Point>)
        requires
            input.len() <= self.roots.len(),
        ensures
            out.len() == self.roots.len(),
            forall|i: int| 0 <= i < input.len() ==> out@[i] == input@[i],
            forall|i: int| input.len() <= i < out.len() ==> (#[trigger] out@[i]).dlog() == 0,
    {
        let n = self.roots.len();
        let mut out: Vec<G1Point> = Vec::new();
        let mut i: usize = 0;
        while i < n
            invariant
                i <= n,
                n == self.roots.len(),
                input.len() <= n,
                out.len() == i,
                forall|k: int| 0 <= k < i && k < input.len() ==> out@[k] == input@[k],
                forall|k: int| input.len() <= k < i ==> (#[trigger] out@[k]).dlog() == 0,
            decreases n - i,
        {
            if i < input.len() {
                out.push(input[i]);
            } else {
                out.push(G1Point::identity());
            }
            i += 1;
        }
        out
    }

    /// The whole of a sequence is its selection from the start in steps of
    /// one, and padding it with zeros does not change its polynomial.
    proof fn lemma_whole(self, short: Seq<int>, padded: Seq<int>, i: int)
        requires
            short.len() <= padded.len(),
            forall|j: int| 0 <= j < short.len() ==> padded[j] == short[j],
            forall|j: int| short.len() <= j < padded.len() ==> padded[j] == 0,
            0 <= i,
        ensures
            self.spectrum(padded, 0, 1, padded.len(), i) == eval(
                short,
                pow(self.omega(), i as nat),
            ) % modulus(),
    {
        assert(strided(padded, 0, 1, padded.len()) =~= padded);
        lemma_eval_zero_padded(short, padded, pow(self.omega(), i as nat));
    }

    /// The place among the roots of the inverse of the `i`-th root.
    pub open spec fn inverse_index(self, i: int) -> int {
        if i == 0 {
            0
        } else {
            self.size() - i
        }
    }

    /// The root at the inverse index is the matching power of the inverse
    /// of the generator.
    pub proof fn lemma_inverse_root(self, i: int)
        requires
            self.wf(),
            0 <= i < self.size(),
        ensures
            congruent(
                pow(self.omega(), self.inverse_index(i) as nat),
                pow(self.omega_inv(), i as nat),
            ),
    {
        let g = self.omega();
        let gi = self.omega_inv();
        let k = self.inverse_index(i) as nat;
        let a = pow(g, k);
        let b = pow(gi, i as nat);
        let w = pow(g, i as nat);
        lemma_pow_adds(g, k, i as nat);
        lemma_pow0(g);
        assert(congruent(a * w, 1));
        lemma_pow_distributes(gi, g, i as nat);
        assert(gi * g == g * gi) by (nonlinear_arith);
        lemma_pow_congruent(gi * g, 1, i as nat);
        lemma1_pow(i as nat);
        assert(congruent(b * w, 1));
        lemma_congruent_product(a, a, b * w, 1);
        lemma_congruent_product(b, b, a * w, 1);
        assert(a * (b * w) == b * (a * w)) by (nonlinear_arith);
        assert(a * 1 == a && b * 1 == b);
    }

    /// The transform at a root and the transform at the matching power of
    /// the inverse generator agree.
    proof fn lemma_scaled_at_inverse(self, a: Seq<int>, i: int, f: int, y: int)
        requires
            self.wf(),
            0 <= i < self.size(),
            f == eval(a, pow(self.omega(), self.inverse_index(i) as nat)) % modulus(),
            y == (f * self.size_inv()) % modulus(),
        ensures
            y == (self.size_inv() * eval(a, pow(self.omega_inv(), i as nat)))
                % modulus(),
    {
        let c = self.size_inv();
        let e = eval(a, pow(self.omega(), self.inverse_index(i) as nat));
        let e2 = eval(a, pow(self.omega_inv(), i as nat));
        self.lemma_inverse_root(i);
        lemma_eval_congruent(
            a,
            a,
            pow(self.omega(), self.inverse_index(i) as nat),
            pow(self.omega_inv(), i as nat),
        );
        lemma_mul_mod_noop_left(e, c, modulus());
        lemma_congruent_product(e, e2, c, c);
        assert(e2 * c == c * e2) by (nonlinear_arith);
    }

    /// The forward transform: from the coefficients of a polynomial, lowest
    /// degree first, to its values at the roots. Fewer coefficients than
    /// roots stand for a polynomial of lower degree; more are refused.
    pub fn fft(&self, coefficients: &[Scalar]) -> (r: Result<Vec<Scalar>, Error>)
        ensures
            r.is_ok() == (coefficients.len() <= self.size()),
            r.is_err() ==> r.unwrap_err() == Error::LengthMismatch,
            r.is_ok() ==> self.is_transform(values(coefficients@), values(r.unwrap()@)),
    {
        proof {
            use_type_invariant(self);
        }
        let n = self.roots.len();
        if coefficients.len() > n {
            return Err(Error::LengthMismatch);
        }
        let padded = self.zero_padded(coefficients);
        let out = self.fft_scalars(&padded, 0, 1, n, Ghost(self.log_size as nat));
        proof {
            assert forall|i: int| 0 <= i < n implies #[trigger] values(out@)[i] == eval(
                values(coefficients@),
                pow(self.omega(), i as nat),
            ) % modulus() by {
                self.lemma_whole(values(coefficients@), values(padded@), i);
                assert(out@[i].value() == self.spectrum(values(padded@), 0, 1, n as nat, i));
            }
        }
        Ok(out)
    }

    /// The inverse transform: from the values of a polynomial at the roots
    /// to its coefficients. Fewer values than roots are completed with
    /// zeros; more are refused.
    pub fn ifft(&self, evaluations: &[Scalar]) -> (r: Result<Vec<Scalar>, Error>)
        ensures
            r.is_ok() == (evaluations.len() <= self.size()),
            r.is_err() ==> r.unwrap_err() == Error::LengthMismatch,
            r.is_ok() ==> self.is_inverse_transform(values(evaluations@), values(r.unwrap()@)),
    {
        proof {
            use_type_invariant(self);
        }
        let n = self.roots.len();
        if evaluations.len() > n {
            return Err(Error::LengthMismatch);
        }
        let padded = self.zero_padded(evaluations);
        let forward = self.fft_scalars(&padded, 0, 1, n, Ghost(self.log_size as nat));
        let mut out: Vec<Scalar> = Vec::new();
        let mut i: usize = 0;
        while i < n
            invariant
                self.wf(),
                i <= n,
                n == self.roots.len(),
                forward.len() == n,
                padded.len() == n,
                out.len() == i,
                forall|k: int|
                    0 <= k < n ==> (#[trigger] forward@[k]).value() == self.spectrum(
                        values(padded@),
                        0,
                        1,
                        n as nat,
                        k,
                    ),
                forall|k: int|
                    0 <= k < i ==> (#[trigger] out@[k]).value() == (self.size_inv()
                        * eval(values(padded@), pow(self.omega_inv(), k as nat)))
                        % modulus(),
            decreases n - i,
        {
            let k = if i == 0 {
                0
            } else {
                n - i
            };
            let y = forward[k].mul(&self.domain_size_inv);
            proof {
                self.lemma_whole(values(padded@), values(padded@), k as int);
                self.lemma_scaled_at_inverse(
                    values(padded@),
                    i as int,
                    forward@[k as int].value(),
                    y.value(),
                );
            }
            out.push(y);
            i += 1;
        }
        proof {
            assert forall|i: int| 0 <= i < n implies #[trigger] values(out@)[i] == (
            self.size_inv() * eval(
                values(evaluations@),
                pow(self.omega_inv(), i as nat),
            )) % modulus() by {
                lemma_eval_zero_padded(
                    values(evaluations@),
                    values(padded@),
                    pow(self.omega_inv(), i as nat),
                );
                assert(out@[i].value() == (self.size_inv() * eval(
                    values(padded@),
                    pow(self.omega_inv(), i as nat),
                )) % modulus());
            }
        }
        Ok(out)
    }

    /// The inverse transform on points of G1. Applied to the powers
    /// `[tau^j]G` of a secret `tau` it gives the points `[L_i(tau)]G` of the
    /// domain's Lagrange polynomials, without the secret. Fewer points than
    /// roots are completed with the neutral element; more are refused.
    pub fn ifft_g1(&self, points: Vec<G1Point>) -> (r: Result<Vec<G1Point>, Error>)
        ensures
            r.is_ok() == (points.len() <= self.size()),
            r.is_err() ==> r.unwrap_err() == Error::LengthMismatch,
            r.is_ok() ==> self.is_inverse_transform(dlogs(points@), dlogs(r.unwrap()@)),
    {
        proof {
            use_type_invariant(self);
        }
        let n = self.roots.len();
        if points.len() > n {
            return Err(Error::LengthMismatch);
        }
        let padded = self.identity_padded(points.as_slice());
        let forward = self.fft_points(&padded, 0, 1, n, Ghost(self.log_size as nat));
        let mut out: Vec<G1Point> = Vec::new();
        let mut i: usize = 0;
        while i < n
            invariant
                self.wf(),
                i <= n,
                n == self.roots.len(),
                forward.len() == n,
                padded.len() == n,
                out.len() == i,
                forall|k: int|
                    0 <= k < n ==> (#[trigger] forward@[k]).dlog() == self.spectrum(
                        dlogs(padded@),
                        0,
                        1,
                        n as nat,
                        k,
                    ),
                forall|k: int|
                    0 <= k < i ==> (#[trigger] out@[k]).dlog() == (self.size_inv()
                        * eval(dlogs(padded@), pow(self.omega_inv(), k as nat)))
                        % modulus(),
            decreases n - i,
        {
            let k = if i == 0 {
                0
            } else {
                n - i
            };
            let y = forward[k].mul(&self.domain_size_inv);
            proof {
                self.lemma_whole(dlogs(padded@), dlogs(padded@), k as int);
                self.lemma_scaled_at_inverse(
                    dlogs(padded@),
                    i as int,
                    forward@[k as int].dlog(),
                    y.dlog(),
                );
            }
            out.push(y);
            i += 1;
        }
        proof {
            assert forall|i: int| 0 <= i < n implies #[trigger] dlogs(out@)[i] == (
            self.size_inv() * eval(
                dlogs(points@),
                pow(self.omega_inv(), i as nat),
            )) % modulus() by {
                lemma_eval_zero_padded(
                    dlogs(points@),
                    dlogs(padded@),
                    pow(self.omega_inv(), i as nat),
                );
                assert(out@[i].dlog() == (self.size_inv() * eval(
                    dlogs(padded@),
                    pow(self.omega_inv(), i as nat),
                )) % modulus());
            }
        }
        Ok(out)
    }
}

/// Building a domain is deterministic: two domains that `new` built for one
/// degree hold the same roots in the same order, and agree in all their
/// other parts.
pub proof fn lemma_new_is_deterministic(a: Domain, b: Domain, degree: nat)
    requires
        a.built_for(degree),
        b.built_for(degree),
    ensures
        a.roots_view() == b.roots_view(),
        a.log() == b.log(),
        a.omega() == b.omega(),
        a.omega_inv() == b.omega_inv(),
        a.size_value() == b.size_value(),
        a.size_inv() == b.size_inv(),
{
    let ka = a.log();
    let kb = b.log();
    if ka < kb {
        lemma_pow2_bounded(ka, (kb - 1) as nat);
    }
    if kb < ka {
        lemma_pow2_bounded(kb, (ka - 1) as nat);
    }
    assert forall|i: int| 0 <= i < a.size() implies a.roots_view()[i] == b.roots_view()[i] by {
        Scalar::lemma_value_injective(a.roots_view()[i], b.roots_view()[i]);
    }
    assert(a.roots_view() =~= b.roots_view());
    lemma_product_one_unique(a.omega(), a.omega_inv(), b.omega_inv());
    lemma_product_one_unique(a.size_value(), a.size_inv(), b.size_inv());
}

/// Two canonical elements whose products with one element are one are equal.
proof fn lemma_product_one_unique(x: int, u: int, v: int)
    requires
        0 <= u < modulus(),
        0 <= v < modulus(),
        (x * u) % modulus() == 1,
        (x * v) % modulus() == 1,
    ensures
        u == v,
{
    lemma_small_mod(1, modulus() as nat);
    lemma_congruent_product(u, u, x * v, 1);
    lemma_congruent_product(v, v, x * u, 1);
    assert(u * (x * v) == v * (x * u)) by (nonlinear_arith);
    assert(u * 1 == u && v * 1 == v);
    lemma_canonical_unique(u, v);
}

} // verus!
