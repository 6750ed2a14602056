use ff::Field;
use group::prime::PrimeCurveAffine;
use kzg_core::{g1_lincomb, CommitKey, CommitKeyLagrange, Domain, Error, G1Point, Polynomial, Scalar};

fn scalar_in(x: &blstrs::Scalar) -> Scalar {
    Scalar::from_bytes_le(x.to_bytes_le()).unwrap()
}

fn scalar_out(x: &Scalar) -> blstrs::Scalar {
    blstrs::Scalar::from_bytes_le(&x.to_bytes_le()).unwrap()
}

fn point_in(p: &blstrs::G1Affine) -> G1Point {
    G1Point::from_compressed(p.to_compressed()).unwrap()
}

fn point_out(p: &G1Point) -> blstrs::G1Affine {
    blstrs::G1Affine::from_compressed(&p.to_compressed()).unwrap()
}

fn eval_coeff_poly(poly: &[blstrs::Scalar], input_point: &blstrs::Scalar) -> blstrs::Scalar {
    let mut result = blstrs::Scalar::zero();
    for (index, coeff) in poly.iter().enumerate() {
        result += input_point.pow_vartime(&[index as u64]) * coeff;
    }
    result
}

fn monomial_srs(secret: u64, count: usize) -> Vec<G1Point> {
    let secret = blstrs::Scalar::from(secret);
    (0..count)
        .map(|index| {
            let secret_exp = secret.pow_vartime(&[index as u64]);
            let point: blstrs::G1Affine = (blstrs::G1Affine::generator() * secret_exp).into();
            point_in(&point)
        })
        .collect()
}

#[test]
fn transform_srs() {
    let degree = 16;

    let domain = Domain::new(degree).unwrap();

    // f(x) -- These are the coefficients of the polynomial
    let f_x_coeffs: Vec<_> = (0..degree as u64)
        .into_iter()
        .map(blstrs::Scalar::from)
        .collect();

    // Evaluate f(x) over the domain -- To get the evaluation form of f(x)
    let f_x_evaluations: Vec<_> = domain
        .roots()
        .iter()
        .map(|root| scalar_in(&eval_coeff_poly(&f_x_coeffs, &scalar_out(root))))
        .collect();
    let f_x_coeffs: Vec<_> = f_x_coeffs.iter().map(scalar_in).collect();

    let secret = blstrs::Scalar::from(1234567u64);
    let monomial_srs: Vec<G1Point> = (0..degree)
        .map(|index| {
            let secret_exp = secret.pow_vartime(&[index as u64]);
            let point: blstrs::G1Affine = (blstrs::G1Affine::generator() * secret_exp).into();
            point_in(&point)
        })
        .collect();

    // Commit to f(x) in monomial form
    let expected_commitment = g1_lincomb(&monomial_srs, &f_x_coeffs).unwrap();

    // Commit to f(x) in lagrange form
    let commit_key = CommitKey::new(monomial_srs).unwrap();
    let lagrange_srs = commit_key.into_lagrange(&domain).unwrap();
    let got_commitment = g1_lincomb(lagrange_srs.points(), &f_x_evaluations).unwrap();

    assert_eq!(expected_commitment, got_commitment)
}

#[test]
fn transform_srs_over_a_domain_of_the_key_size() {
    let domain = Domain::new(7).unwrap();
    assert_eq!(domain.roots().len(), 8);
    let coeffs: Vec<Scalar> = (0..8u64).map(|x| Scalar::from_u64(3 * x + 1)).collect();
    let evaluations = domain.fft(&coeffs).unwrap();
    let srs = monomial_srs(987654321, 8);

    let expected = g1_lincomb(&srs, &coeffs).unwrap();
    let lagrange = CommitKey::new(srs).unwrap().into_lagrange(&domain).unwrap();
    let got = lagrange.commit(&Polynomial::new(evaluations)).unwrap();
    assert_eq!(expected, got);
}

#[test]
fn lagrange_key_points_are_the_lagrange_polynomials_at_the_secret() {
    // With secret 1 every monomial point is the generator, and the Lagrange
    // polynomials of a domain that holds 1 as its first root are 1, 0, 0, ...
    let domain = Domain::new(3).unwrap();
    let lagrange = CommitKey::new(monomial_srs(1, 4))
        .unwrap()
        .into_lagrange(&domain)
        .unwrap();
    let points = lagrange.points();
    assert_eq!(points.len(), 4);
    assert_eq!(point_out(&points[0]), blstrs::G1Affine::generator());
    for point in &points[1..] {
        assert_eq!(point_out(point), blstrs::G1Affine::identity());
    }
}

#[test]
fn commit_key_needs_a_point() {
    assert_eq!(CommitKey::new(Vec::new()).unwrap_err(), Error::Construction);
    assert!(CommitKey::new(vec![G1Point::generator()]).is_ok());
}

#[test]
fn lagrange_key_needs_two_points() {
    assert_eq!(
        CommitKeyLagrange::new(Vec::new()).unwrap_err(),
        Error::Construction
    );
    assert_eq!(
        CommitKeyLagrange::new(vec![G1Point::generator()]).unwrap_err(),
        Error::Construction
    );
    let key = CommitKeyLagrange::new(vec![G1Point::generator(), G1Point::identity()]).unwrap();
    assert_eq!(key.max_degree(), 1);
    assert_eq!(key.points().len(), 2);
}

#[test]
fn max_degree_is_one_less_than_the_number_of_points() {
    let key = CommitKeyLagrange::new(monomial_srs(5, 9)).unwrap();
    assert_eq!(key.max_degree(), 8);
}

#[test]
fn into_lagrange_refuses_a_key_larger_than_the_domain() {
    let domain = Domain::new(3).unwrap();
    let key = CommitKey::new(monomial_srs(5, 5)).unwrap();
    assert_eq!(
        key.into_lagrange(&domain).unwrap_err(),
        Error::LengthMismatch
    );
}

#[test]
fn into_lagrange_refuses_a_domain_of_one_root() {
    let domain = Domain::new(0).unwrap();
    assert_eq!(domain.roots().len(), 1);
    let key = CommitKey::new(monomial_srs(5, 1)).unwrap();
    assert_eq!(key.into_lagrange(&domain).unwrap_err(), Error::Construction);
}

#[test]
fn commit_refuses_a_polynomial_of_another_length() {
    let key = CommitKeyLagrange::new(monomial_srs(5, 4)).unwrap();
    let short = Polynomial::new(vec![Scalar::one(); 3]);
    let long = Polynomial::new(vec![Scalar::one(); 5]);
    assert_eq!(key.commit(&short).unwrap_err(), Error::LengthMismatch);
    assert_eq!(key.commit(&long).unwrap_err(), Error::LengthMismatch);
    assert!(key.commit(&Polynomial::new(vec![Scalar::one(); 4])).is_ok());
}

#[test]
fn commit_is_the_weighted_sum_of_the_key() {
    let srs = monomial_srs(3, 4);
    let key = CommitKeyLagrange::new(srs.clone()).unwrap();
    let values: Vec<Scalar> = vec![
        Scalar::from_u64(2),
        Scalar::zero(),
        Scalar::from_u64(5),
        Scalar::from_u64(7),
    ];
    let got = key.commit(&Polynomial::new(values)).unwrap();
    // 2 * 1 + 0 * 3 + 5 * 9 + 7 * 27 = 236
    let expected: blstrs::G1Affine =
        (blstrs::G1Affine::generator() * blstrs::Scalar::from(236u64)).into();
    assert_eq!(point_out(&got), expected);
}
