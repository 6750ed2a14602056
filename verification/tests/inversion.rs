use ff::Field;
use kzg_core::inversion::{batch_inversion_chunked, invert_range, serial_batch_inversion};
use kzg_core::{batch_inverse, batch_inversion, inverse, Scalar};

fn outside(x: &Scalar) -> blstrs::Scalar {
    blstrs::Scalar::from_bytes_le(&x.to_bytes_le()).unwrap()
}

fn sample(len: u64) -> Vec<Scalar> {
    (0..len)
        .map(|i| {
            if i % 4 == 2 {
                Scalar::zero()
            } else {
                Scalar::from_u64(i * i + 7 * i + 3)
            }
        })
        .collect()
}

#[test]
fn inverse_of_zero_is_zero() {
    assert_eq!(inverse(Scalar::zero()), Scalar::zero());
}

#[test]
fn inverse_of_one_is_one() {
    assert_eq!(inverse(Scalar::one()), Scalar::one());
}

#[test]
fn inverse_times_the_element_is_one() {
    for k in [2u64, 3, 1234567, u64::MAX] {
        let x = Scalar::from_u64(k);
        let inv = inverse(x);
        assert_eq!(outside(&x) * outside(&inv), blstrs::Scalar::one());
        assert_eq!(inverse(inv), x);
    }
}

#[test]
fn inverse_of_two() {
    // (r + 1) / 2 for the field order r
    let half = blstrs::Scalar::from(2u64).invert().unwrap();
    assert_eq!(inverse(Scalar::from_u64(2)).to_bytes_le(), half.to_bytes_le());
    assert_eq!(
        half.to_bytes_le(),
        [
            0x01, 0x00, 0x00, 0x80, 0xff, 0xff, 0xff, 0x7f, 0xff, 0x2d, 0xff, 0x7f, 0x01, 0xd2,
            0xde, 0xa9, 0x02, 0xec, 0xd0, 0x04, 0x04, 0xec, 0x9c, 0x19, 0xa4, 0xbe, 0xce, 0x94,
            0xa9, 0xd3, 0xf6, 0x39
        ]
    );
}

#[test]
fn batch_inverse_then_inverse_gives_the_batch_back() {
    let input: Vec<Scalar> = (1..40u64).map(|i| Scalar::from_u64(i * 1000003)).collect();
    let mut batch = input.clone();
    batch_inverse(&mut batch);
    for (x, inv) in input.iter().zip(batch.iter()) {
        assert_eq!(outside(x) * outside(inv), blstrs::Scalar::one());
    }
    let again: Vec<Scalar> = batch.iter().map(|x| inverse(*x)).collect();
    assert_eq!(again, input);
    batch_inverse(&mut batch);
    assert_eq!(batch, input);
}

#[test]
fn batch_inverse_leaves_zeros_alone() {
    let input = sample(23);
    let mut batch = input.clone();
    batch_inverse(&mut batch);
    for (x, inv) in input.iter().zip(batch.iter()) {
        if *x == Scalar::zero() {
            assert_eq!(*inv, Scalar::zero());
        } else {
            assert_eq!(*inv, inverse(*x));
        }
    }
}

#[test]
fn batch_inverse_of_zeros_and_of_nothing() {
    let mut zeros = vec![Scalar::zero(); 5];
    batch_inverse(&mut zeros);
    assert_eq!(zeros, vec![Scalar::zero(); 5]);
    let mut nothing: Vec<Scalar> = Vec::new();
    batch_inverse(&mut nothing);
    assert!(nothing.is_empty());
    let mut single = vec![Scalar::from_u64(4)];
    batch_inversion(&mut single);
    assert_eq!(single, vec![inverse(Scalar::from_u64(4))]);
}

#[test]
fn batch_inversion_does_not_depend_on_the_number_of_workers() {
    let input = sample(37);
    let expected: Vec<Scalar> = input.iter().map(|x| inverse(*x)).collect();
    for workers in [0usize, 1, 2, 3, 5, 8, 36, 37, 38, 1000] {
        let mut batch = input.clone();
        batch_inversion_chunked(&mut batch, workers);
        assert_eq!(batch, expected);
    }
    let mut batch = input.clone();
    batch_inversion(&mut batch);
    assert_eq!(batch, expected);
}

#[test]
fn batch_inversion_of_a_part_of_a_slice() {
    let input = sample(10);
    let mut batch = input.clone();
    batch_inversion(&mut batch[3..7]);
    for i in 0..10 {
        if (3..7).contains(&i) {
            assert_eq!(batch[i], inverse(input[i]));
        } else {
            assert_eq!(batch[i], input[i]);
        }
    }
}

#[test]
fn serial_batch_inversion_inverts_the_whole_slice() {
    let input = sample(12);
    let expected: Vec<Scalar> = input.iter().map(|x| inverse(*x)).collect();
    let mut batch = input.clone();
    serial_batch_inversion(&mut batch);
    assert_eq!(batch, expected);
}

#[test]
fn invert_range_leaves_the_rest_alone() {
    let input = sample(12);
    let mut batch = input.clone();
    invert_range(&mut batch, 4, 9);
    for i in 0..12 {
        if (4..9).contains(&i) {
            assert_eq!(batch[i], inverse(input[i]));
        } else {
            assert_eq!(batch[i], input[i]);
        }
    }
    invert_range(&mut batch, 5, 5);
    invert_range(&mut batch, 12, 12);
    invert_range(&mut batch, 4, 9);
    assert_eq!(batch, input);
}
