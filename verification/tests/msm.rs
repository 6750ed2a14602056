use group::prime::PrimeCurveAffine;
use kzg_core::{g1_lincomb, Error, G1Point, Scalar};

fn multiple(k: u64) -> G1Point {
    let point: blstrs::G1Affine = (blstrs::G1Affine::generator() * blstrs::Scalar::from(k)).into();
    G1Point::from_compressed(point.to_compressed()).unwrap()
}

#[test]
fn lincomb_of_mismatched_lengths_fails_on_every_call() {
    let points = vec![multiple(1), multiple(2), multiple(3)];
    let scalars = vec![Scalar::from_u64(1), Scalar::from_u64(2)];
    for _ in 0..3 {
        assert_eq!(
            g1_lincomb(&points, &scalars).unwrap_err(),
            Error::LengthMismatch
        );
        assert_eq!(
            g1_lincomb(&points[..1], &scalars).unwrap_err(),
            Error::LengthMismatch
        );
        assert_eq!(
            g1_lincomb(&points, &[]).unwrap_err(),
            Error::LengthMismatch
        );
        assert_eq!(
            g1_lincomb(&[], &scalars).unwrap_err(),
            Error::LengthMismatch
        );
    }
}

#[test]
fn lincomb_of_nothing_is_the_identity() {
    assert_eq!(g1_lincomb(&[], &[]).unwrap(), G1Point::identity());
}

#[test]
fn lincomb_is_the_weighted_sum() {
    // 2 * 3 + 5 * 7 + 11 * 13 = 184
    let points = vec![multiple(3), multiple(7), multiple(13)];
    let scalars = vec![
        Scalar::from_u64(2),
        Scalar::from_u64(5),
        Scalar::from_u64(11),
    ];
    assert_eq!(g1_lincomb(&points, &scalars).unwrap(), multiple(184));
}

#[test]
fn lincomb_of_one_point() {
    assert_eq!(
        g1_lincomb(&[multiple(6)], &[Scalar::from_u64(7)]).unwrap(),
        multiple(42)
    );
}

#[test]
fn lincomb_with_identity_points_and_zero_scalars() {
    let points = vec![
        G1Point::identity(),
        multiple(4),
        multiple(9),
        G1Point::identity(),
    ];
    let scalars = vec![
        Scalar::from_u64(5),
        Scalar::zero(),
        Scalar::from_u64(3),
        Scalar::zero(),
    ];
    assert_eq!(g1_lincomb(&points, &scalars).unwrap(), multiple(27));
    let all_neutral = vec![G1Point::identity(); 3];
    let ones = vec![Scalar::one(); 3];
    assert_eq!(
        g1_lincomb(&all_neutral, &ones).unwrap(),
        G1Point::identity()
    );
}

#[test]
fn lincomb_of_many_points() {
    let count = 70u64;
    let points: Vec<G1Point> = (1..=count).map(multiple).collect();
    let scalars: Vec<Scalar> = (1..=count).map(Scalar::from_u64).collect();
    let expected: u64 = (1..=count).map(|k| k * k).sum();
    assert_eq!(g1_lincomb(&points, &scalars).unwrap(), multiple(expected));
}

#[test]
fn points_round_trip_through_their_encoding() {
    let point = multiple(99);
    let bytes = point.to_compressed();
    assert_eq!(bytes.len(), kzg_core::G1_POINT_SERIALISED_SIZE);
    assert_eq!(G1Point::from_compressed(bytes).unwrap(), point);
    assert_eq!(
        G1Point::generator().to_compressed(),
        blstrs::G1Affine::generator().to_compressed()
    );
    assert_eq!(
        G1Point::identity().to_compressed(),
        blstrs::G1Affine::identity().to_compressed()
    );
}

#[test]
fn bytes_that_encode_no_point_are_refused() {
    assert!(G1Point::from_compressed([0u8; 48]).is_none());
    assert!(G1Point::from_compressed([0xffu8; 48]).is_none());
}

#[test]
fn lincomb_of_many_points_with_identity_points_and_zero_scalars() {
    let count = 100u64;
    let points: Vec<G1Point> = (1..=count)
        .map(|k| {
            if k % 7 == 0 {
                G1Point::identity()
            } else {
                multiple(k)
            }
        })
        .collect();
    let scalars: Vec<Scalar> = (1..=count)
        .map(|k| {
            if k % 5 == 0 {
                Scalar::zero()
            } else {
                Scalar::from_u64(k + 1)
            }
        })
        .collect();
    let expected: u64 = (1..=count)
        .filter(|k| k % 7 != 0 && k % 5 != 0)
        .map(|k| k * (k + 1))
        .sum();
    assert_eq!(g1_lincomb(&points, &scalars).unwrap(), multiple(expected));
}

#[test]
fn lincomb_with_large_scalars() {
    // (-1) * [5]G + (-2) * [3]G = [-11]G
    let minus = |k: u64| Scalar::from_bytes_le((-blstrs::Scalar::from(k)).to_bytes_le()).unwrap();
    let got = g1_lincomb(&[multiple(5), multiple(3)], &[minus(1), minus(2)]).unwrap();
    let expected: blstrs::G1Affine =
        (blstrs::G1Affine::generator() * -blstrs::Scalar::from(11u64)).into();
    assert_eq!(got.to_compressed(), expected.to_compressed());
}
