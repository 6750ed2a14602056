use kzg_core::polynomial::{dot, hadamard};
use kzg_core::{Coefficients, Domain, Error, Polynomial, Scalar};

fn outside(x: &Scalar) -> blstrs::Scalar {
    blstrs::Scalar::from_bytes_le(&x.to_bytes_le()).unwrap()
}

fn inside(x: &blstrs::Scalar) -> Scalar {
    Scalar::from_bytes_le(x.to_bytes_le()).unwrap()
}

fn minus(x: u64) -> Scalar {
    inside(&-blstrs::Scalar::from(x))
}

fn sample(len: u64) -> Vec<Scalar> {
    (0..len)
        .map(|i| Scalar::from_u64(i * i * 31 + 17 * i + 5))
        .collect()
}

#[test]
fn coefficient_form_evaluates_by_horner() {
    // 3 + 2x + x^2 at 5 is 38
    let p = Coefficients::new(vec![
        Scalar::from_u64(3),
        Scalar::from_u64(2),
        Scalar::from_u64(1),
    ]);
    assert_eq!(p.evaluate(&Scalar::from_u64(5)), Scalar::from_u64(38));
    assert_eq!(p.evaluate(&Scalar::zero()), Scalar::from_u64(3));
    assert_eq!(p.evaluate(&Scalar::one()), Scalar::from_u64(6));
    let nothing = Coefficients::new(Vec::new());
    assert_eq!(nothing.evaluate(&Scalar::from_u64(9)), Scalar::zero());
}

#[test]
fn coefficient_form_divides_by_a_linear_factor() {
    // (x^3 - 8) / (x - 2) = x^2 + 2x + 4
    let cube = Coefficients::new(vec![
        Scalar::zero(),
        Scalar::zero(),
        Scalar::zero(),
        Scalar::one(),
    ]);
    let quotient = cube.divide_by_linear(&Scalar::from_u64(2));
    assert_eq!(
        quotient.coefficients,
        vec![Scalar::from_u64(4), Scalar::from_u64(2), Scalar::one()]
    );
    // (x^2 - 1 - 0) / (x - 1) = x + 1
    let square = Coefficients::new(vec![minus(1), Scalar::zero(), Scalar::one()]);
    let quotient = square.divide_by_linear(&Scalar::one());
    assert_eq!(quotient.coefficients, vec![Scalar::one(), Scalar::one()]);
}

#[test]
fn coefficient_division_leaves_no_remainder() {
    let p = Coefficients::new(sample(9));
    let z = Scalar::from_u64(77);
    let q = p.divide_by_linear(&z);
    assert_eq!(q.coefficients.len(), 8);
    let at_z = outside(&p.evaluate(&z));
    for x in [0u64, 1, 2, 77, 1000, u64::MAX] {
        let x = Scalar::from_u64(x);
        let left = (outside(&x) - outside(&z)) * outside(&q.evaluate(&x));
        let right = outside(&p.evaluate(&x)) - at_z;
        assert_eq!(left, right);
    }
}

#[test]
fn coefficient_division_of_short_polynomials() {
    let z = Scalar::from_u64(3);
    assert!(Coefficients::new(Vec::new())
        .divide_by_linear(&z)
        .coefficients
        .is_empty());
    assert!(Coefficients::new(vec![Scalar::from_u64(5)])
        .divide_by_linear(&z)
        .coefficients
        .is_empty());
    // (7x + 5 - 26) / (x - 3) = 7
    let line = Coefficients::new(vec![Scalar::from_u64(5), Scalar::from_u64(7)]);
    assert_eq!(
        line.divide_by_linear(&z).coefficients,
        vec![Scalar::from_u64(7)]
    );
}

#[test]
fn evaluation_at_a_root_is_the_stored_value() {
    let domain = Domain::new(7).unwrap();
    let p = Polynomial::new(sample(8));
    for (root, value) in domain.roots().iter().zip(p.evaluations.iter()) {
        assert_eq!(p.evaluate(root, &domain).unwrap(), *value);
    }
}

#[test]
fn evaluation_away_from_the_roots_is_the_interpolated_value() {
    let domain = Domain::new(7).unwrap();
    let coefficients = Coefficients::new(sample(8));
    let p = Polynomial::new(domain.fft(&coefficients.coefficients).unwrap());
    for z in [0u64, 2, 3, 42, 1234567, u64::MAX] {
        let z = Scalar::from_u64(z);
        assert_eq!(p.evaluate(&z, &domain).unwrap(), coefficients.evaluate(&z));
    }
}

#[test]
fn evaluation_of_a_line_over_two_roots() {
    // The line through (1, 8) and (-1, -2) is 3 + 5x; at 10 it is 53.
    let domain = Domain::new(1).unwrap();
    let p = Polynomial::new(vec![Scalar::from_u64(8), minus(2)]);
    assert_eq!(
        p.evaluate(&Scalar::from_u64(10), &domain).unwrap(),
        Scalar::from_u64(53)
    );
    assert_eq!(
        p.evaluate(&Scalar::zero(), &domain).unwrap(),
        Scalar::from_u64(3)
    );
}

#[test]
fn evaluation_refuses_a_polynomial_of_another_length() {
    let domain = Domain::new(7).unwrap();
    let z = Scalar::from_u64(3);
    assert_eq!(
        Polynomial::new(sample(7)).evaluate(&z, &domain).unwrap_err(),
        Error::LengthMismatch
    );
    assert_eq!(
        Polynomial::new(sample(9)).evaluate(&z, &domain).unwrap_err(),
        Error::LengthMismatch
    );
    assert_eq!(
        Polynomial::new(sample(9))
            .divide_by_linear(&z, &domain)
            .unwrap_err(),
        Error::LengthMismatch
    );
}

fn quotient_through_coefficients(domain: &Domain, p: &Polynomial, z: &Scalar) -> Vec<Scalar> {
    let coefficients = Coefficients::new(domain.ifft(&p.evaluations).unwrap());
    let quotient = coefficients.divide_by_linear(z);
    domain.fft(&quotient.coefficients).unwrap()
}

#[test]
fn quotient_away_from_the_roots() {
    let domain = Domain::new(7).unwrap();
    let p = Polynomial::new(sample(8));
    for z in [0u64, 5, 99999] {
        let z = Scalar::from_u64(z);
        let (y, q) = p.divide_by_linear(&z, &domain).unwrap();
        assert_eq!(y, p.evaluate(&z, &domain).unwrap());
        assert_eq!(q.evaluations, quotient_through_coefficients(&domain, &p, &z));
        for i in 0..8 {
            let left = outside(&q.evaluations[i]) * (outside(&domain.roots()[i]) - outside(&z));
            assert_eq!(left, outside(&p.evaluations[i]) - outside(&y));
        }
    }
}

#[test]
fn quotient_at_a_root() {
    let domain = Domain::new(7).unwrap();
    let p = Polynomial::new(sample(8));
    for k in 0..8 {
        let z = domain.roots()[k];
        let (y, q) = p.divide_by_linear(&z, &domain).unwrap();
        assert_eq!(y, p.evaluations[k]);
        assert_eq!(q.evaluations, quotient_through_coefficients(&domain, &p, &z));
    }
}

#[test]
fn quotient_of_a_line_over_two_roots() {
    // (3 + 5x - 53) / (x - 10) = 5, and at the root 1: (3 + 5x - 8) / (x - 1) = 5
    let domain = Domain::new(1).unwrap();
    let p = Polynomial::new(vec![Scalar::from_u64(8), minus(2)]);
    let five = vec![Scalar::from_u64(5), Scalar::from_u64(5)];
    let (y, q) = p.divide_by_linear(&Scalar::from_u64(10), &domain).unwrap();
    assert_eq!(y, Scalar::from_u64(53));
    assert_eq!(q.evaluations, five);
    let (y, q) = p.divide_by_linear(&Scalar::one(), &domain).unwrap();
    assert_eq!(y, Scalar::from_u64(8));
    assert_eq!(q.evaluations, five);
}

#[test]
fn dot_and_hadamard_products() {
    let a = vec![
        Scalar::from_u64(2),
        Scalar::from_u64(3),
        Scalar::from_u64(5),
    ];
    let b = vec![
        Scalar::from_u64(7),
        Scalar::from_u64(11),
        Scalar::from_u64(13),
    ];
    assert_eq!(dot(&a, &b), Scalar::from_u64(112));
    assert_eq!(
        hadamard(&a, &b),
        vec![
            Scalar::from_u64(14),
            Scalar::from_u64(33),
            Scalar::from_u64(65)
        ]
    );
    assert_eq!(dot(&[], &[]), Scalar::zero());
    assert!(hadamard(&[], &[]).is_empty());
}
