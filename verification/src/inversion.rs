use crate::field::{
    congruent, is_inverse_of, lemma_inverse_involution, lemma_inverse_unique, lemma_peel_inverse,
    modulus,
};
use crate::scalar::{values, Scalar};
use vstd::arithmetic::div_mod::*;
use vstd::prelude::*;

verus! {

/// Product, over the integers, of the nonzero entries of `v[start..end]`.
pub open spec fn nonzero_product(v: Seq<int>, start: int, end: int) -> int
    decreases end - start,
{
    if end <= start {
        1
    } else if v[end - 1] == 0 {
        nonzero_product(v, start, end - 1)
    } else {
        nonzero_product(v, start, end - 1) * v[end - 1]
    }
}

/// Number of nonzero entries of `v[start..end]`.
pub open spec fn nonzero_count(v: Seq<int>, start: int, end: int) -> nat
    decreases end - start,
{
    if end <= start {
        0
    } else if v[end - 1] == 0 {
        nonzero_count(v, start, end - 1)
    } else {
        nonzero_count(v, start, end - 1) + 1
    }
}

/// A range without nonzero entries has the empty product.
proof fn lemma_no_nonzero_entries(v: Seq<int>, start: int, end: int)
    requires
        nonzero_count(v, start, end) == 0,
    ensures
        nonzero_product(v, start, end) == 1,
    decreases end - start,
{
    if end > start {
        lemma_no_nonzero_entries(v, start, end - 1);
    }
}

/// Entry `i` of `after` is the inverse of entry `i` of `before`, and a zero
/// entry is left as it was.
pub open spec fn inverted_at(before: Seq<Scalar>, after: Seq<Scalar>, i: int) -> bool {
    &&& is_inverse_of(after[i].value(), before[i].value())
    &&& before[i].value() == 0 ==> after[i] == before[i]
}

/// `after` holds the inverses of the entries of `before[start..end]` and is
/// `before` everywhere else.
pub open spec fn inverted_between(
    before: Seq<Scalar>,
    after: Seq<Scalar>,
    start: int,
    end: int,
) -> bool {
    &&& after.len() == before.len()
    &&& forall|i: int| start <= i < end ==> #[trigger] inverted_at(before, after, i)
    &&& forall|i: int|
        0 <= i < before.len() && !(start <= i < end) ==> #[trigger] after[i] == before[i]
}

/// Inverts a field element; the inverse of zero is zero.
pub fn inverse(x: Scalar) -> (r: Scalar)
    ensures
        is_inverse_of(r.value(), x.value()),
        x.value() == 0 ==> r.value() == 0,
{
    proof {
        use_type_invariant(&x);
        lemma_small_mod(x.value() as nat, modulus() as nat);
    }
    match x.invert() {
        Some(inv) => {
            proof {
                use_type_invariant(&inv);
            }
            inv
        },
        None => Scalar::zero(),
    }
}

/// Inverts the entries of `v[start..end]` in place with one field inversion:
/// a forward pass collects the running products of the nonzero entries, the
/// last of them is inverted, and a backward pass peels one inverse off per
/// entry. Zero entries take no part and stay as they are.
pub fn invert_range(v: &mut [Scalar], start: usize, end: usize)
    requires
        start <= end <= old(v).len(),
    ensures
        inverted_between(old(v)@, final(v)@, start as int, end as int),
{
    let ghost before = v@;
    let ghost orig = values(v@);
    let mut prod: Vec<Scalar> = Vec::new();
    let mut tmp = Scalar::one();
    let mut i = start;
    proof {
        lemma_small_mod(1, modulus() as nat);
    }
    while i < end
        invariant
            start <= i <= end <= v.len(),
            v@ == before,
            orig == values(before),
            prod.len() == nonzero_count(orig, start as int, i as int),
            tmp.value() == nonzero_product(orig, start as int, i as int) % modulus(),
            tmp.value() != 0,
            forall|j: int|
                start <= j <= i ==> #[trigger] nonzero_count(orig, start as int, j) <= prod.len(),
            forall|j: int|
                start <= j <= i && #[trigger] nonzero_count(orig, start as int, j) > 0
                    ==> prod@[nonzero_count(orig, start as int, j) - 1].value()
                    == nonzero_product(orig, start as int, j) % modulus(),
        decreases end - i,
    {
        let f = v[i];
        if !f.is_zero() {
            let ghost p = nonzero_product(orig, start as int, i as int);
            proof {
                lemma_mul_mod_noop_left(p, f.value(), modulus());
            }
            tmp = tmp.mul(&f);
            prod.push(tmp);
        }
        i += 1;
    }
    let ghost total = nonzero_product(orig, start as int, end as int);
    tmp = inverse(tmp);
    proof {
        lemma_mod_twice(total, modulus());
        lemma_mul_mod_noop_left(total, tmp.value(), modulus());
        assert(total * tmp.value() == tmp.value() * total) by (nonlinear_arith);
    }
    let mut k = prod.len();
    let mut j = end;
    while j > start
        invariant
            start <= j <= end <= v.len(),
            v.len() == before.len(),
            orig == values(before),
            k == nonzero_count(orig, start as int, j as int),
            (tmp.value() * nonzero_product(orig, start as int, j as int)) % modulus() == 1,
            forall|idx: int| j <= idx < end ==> #[trigger] inverted_at(before, v@, idx),
            forall|idx: int|
                0 <= idx < before.len() && !(j <= idx < end) ==> #[trigger] v@[idx] == before[idx],
            forall|l: int|
                start <= l <= end ==> #[trigger] nonzero_count(orig, start as int, l) <= prod.len(),
            forall|l: int|
                start <= l <= end && #[trigger] nonzero_count(orig, start as int, l) > 0
                    ==> prod@[nonzero_count(orig, start as int, l) - 1].value()
                    == nonzero_product(orig, start as int, l) % modulus(),
        decreases j - start,
    {
        let ghost entered = v@;
        j -= 1;
        let f = v[j];
        proof {
            use_type_invariant(&f);
            lemma_small_mod(f.value() as nat, modulus() as nat);
            assert(v@[j as int] == before[j as int]);
            assert(orig[j as int] == f.value());
        }
        if !f.is_zero() {
            k -= 1;
            let ghost p = nonzero_product(orig, start as int, j as int);
            let s = if k > 0 {
                assert(nonzero_count(orig, start as int, j as int) == k);
                prod[k - 1]
            } else {
                proof {
                    lemma_no_nonzero_entries(orig, start as int, j as int);
                }
                Scalar::one()
            };
            proof {
                lemma_mod_twice(p, modulus());
                assert(congruent(s.value(), p));
                lemma_peel_inverse(tmp.value(), s.value(), p, f.value());
            }
            let new_tmp = tmp.mul(&f);
            let inv = tmp.mul(&s);
            v[j] = inv;
            tmp = new_tmp;
        }
        proof {
            assert(inverted_at(before, v@, j as int));
            assert forall|idx: int| j < idx < end implies #[trigger] inverted_at(
                before,
                v@,
                idx,
            ) by {
                assert(inverted_at(before, entered, idx));
            }
        }
    }
}

/// Inverts every entry of `v` in place on the calling thread, with one field
/// inversion for the whole of `v`; zero entries stay zero.
pub fn serial_batch_inversion(v: &mut [Scalar])
    ensures
        inverted_between(old(v)@, final(v)@, 0, old(v)@.len() as int),
{
    let n = v.len();
    invert_range(v, 0, n)
}

/// `rayon::current_num_threads`: the size of the current thread pool, which
/// depends on the machine and on how the pool was set up.
#[verifier::external_body]
fn worker_count() -> (r: usize) {
    rayon::current_num_threads()
}

/// Inverting the chunk that follows an inverted prefix extends the prefix.
proof fn lemma_inverted_extend(
    before: Seq<Scalar>,
    mid: Seq<Scalar>,
    after: Seq<Scalar>,
    start: int,
    end: int,
)
    requires
        0 <= start <= end <= before.len(),
        inverted_between(before, mid, 0, start),
        inverted_between(mid, after, start, end),
    ensures
        inverted_between(before, after, 0, end),
{
    assert forall|i: int| 0 <= i < end implies #[trigger] inverted_at(before, after, i) by {
        if i < start {
            assert(inverted_at(before, mid, i));
            assert(after[i] == mid[i]);
        } else {
            assert(inverted_at(mid, after, i));
            assert(mid[i] == before[i]);
        }
    }
    assert forall|i: int| 0 <= i < before.len() && !(0 <= i < end) implies #[trigger] after[i]
        == before[i] by {
        assert(after[i] == mid[i]);
        assert(mid[i] == before[i]);
    }
}

/// Inverts every entry of `v` in place, chunk by chunk: the vector is cut
/// into contiguous chunks of `max(len / workers, 1)` entries (one chunk when
/// `workers` is zero) and each chunk is inverted on its own. The result does
/// not depend on `workers`.
pub fn batch_inversion_chunked(v: &mut [Scalar], workers: usize)
    ensures
        inverted_between(old(v)@, final(v)@, 0, old(v)@.len() as int),
{
    let ghost before = v@;
    let n = v.len();
    let share = if workers == 0 {
        n
    } else {
        n / workers
    };
    let chunk = if share == 0 {
        1
    } else {
        share
    };
    let mut start: usize = 0;
    while start < n
        invariant
            start <= n,
            n == before.len(),
            chunk >= 1,
            inverted_between(before, v@, 0, start as int),
        decreases n - start,
    {
        let end = if n - start < chunk {
            n
        } else {
            start + chunk
        };
        let ghost mid = v@;
        invert_range(v, start, end);
        proof {
            lemma_inverted_extend(before, mid, v@, start as int, end as int);
        }
        start = end;
    }
}

/// Inverts every entry of `v` in place; zero entries stay zero. The slice
/// is cut into the chunks that the workers of the thread pool would share,
/// and the chunks are inverted one after the other on the calling thread.
pub fn batch_inversion(v: &mut [Scalar])
    ensures
        inverted_between(old(v)@, final(v)@, 0, old(v)@.len() as int),
{
    let workers = worker_count();
    batch_inversion_chunked(v, workers)
}

/// Inverts every entry of `elements` in place; zero entries stay zero.
pub fn batch_inverse(elements: &mut [Scalar])
    ensures
        inverted_between(old(elements)@, final(elements)@, 0, old(elements)@.len() as int),
{
    batch_inversion(elements)
}

/// Inverting a batch and then inverting each entry again gives the batch
/// back: if `once` holds the inverses of `batch` and `twice` those of `once`,
/// then `twice` is `batch`.
pub proof fn lemma_batch_inversion_round_trip(
    batch: Seq<Scalar>,
    once: Seq<Scalar>,
    twice: Seq<Scalar>,
)
    requires
        forall|i: int| 0 <= i < batch.len() ==> (#[trigger] batch[i]).is_canonical(),
        inverted_between(batch, once, 0, batch.len() as int),
        once.len() == twice.len(),
        forall|i: int|
            0 <= i < once.len() ==> is_inverse_of(#[trigger] twice[i].value(), once[i].value()),
    ensures
        twice == batch,
{
    assert forall|i: int| 0 <= i < batch.len() implies twice[i] == batch[i] by {
        assert(inverted_at(batch, once, i));
        assert(batch[i].is_canonical());
        lemma_inverse_involution(batch[i].value(), once[i].value());
        lemma_inverse_unique(once[i].value(), twice[i].value(), batch[i].value());
        Scalar::lemma_value_injective(twice[i], batch[i]);
    }
    assert(twice =~= batch);
}

} // verus!
