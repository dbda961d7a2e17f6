use bf_vm::crypto::field::FieldElement;
use bf_vm::crypto::polynomial::{Polynomial, PolynomialError};

#[test]
fn test_polynomial_add() {
    // 5 * x^3 + 7 * x^2 + 10
    let a = Polynomial::new(vec![
        FieldElement::from(5),
        FieldElement::from(7),
        FieldElement::from(0),
        FieldElement::from(10),
    ]);
    // 10 * x^2 + x + 2
    let b = Polynomial::new(vec![
        FieldElement::from(10),
        FieldElement::from(1),
        FieldElement::from(2),
    ]);

    let c = a + b;
    assert_eq!(
        c.0,
        vec![
            FieldElement::from(5),
            FieldElement::from(17),
            FieldElement::from(1),
            FieldElement::from(12),
        ]
    )
}

#[test]
fn test_polynomial_sub() {
    // 5 * x^3 + 7 * x^2 + 10
    let a = Polynomial::new(vec![
        FieldElement::from(5),
        FieldElement::from(7),
        FieldElement::from(0),
        FieldElement::from(10),
    ]);
    // 10 * x^2 + x + 2
    let b = Polynomial::new(vec![
        FieldElement::from(10),
        FieldElement::from(1),
        FieldElement::from(2),
    ]);

    let c = a - b;
    assert_eq!(
        c.0,
        vec![
            FieldElement::from(5),
            FieldElement::from(-FieldElement::from(3)),
            FieldElement::from(-FieldElement::from(1)),
            FieldElement::from(8),
        ]
    )
}

#[test]
fn test_polynomial_mul() {
    // 5 * x^3 + 7 * x^2 + 10
    let a = Polynomial::new(vec![
        FieldElement::from(5),
        FieldElement::from(7),
        FieldElement::from(0),
        FieldElement::from(10),
    ]);
    // 10 * x^2 + x + 2
    let b = Polynomial::new(vec![
        FieldElement::from(10),
        FieldElement::from(1),
        FieldElement::from(2),
    ]);

    let c = a * b;
    assert_eq!(
        c.0,
        vec![
            FieldElement(50),
            FieldElement(75),
            FieldElement(17),
            FieldElement(114),
            FieldElement(10),
            FieldElement(20)
        ]
    )
}

#[test]
fn test_linear_interpolation() {
    // interpolate over (2,4), (0,2)
    let x_values = vec![FieldElement::from(2), FieldElement::from(0)];
    let y_values = vec![FieldElement::from(4), FieldElement::from(2)];
    // should return y = x + 2
    let interpolated =
        Polynomial::interpolate_lagrange_polynomial(x_values.clone(), y_values.clone()).unwrap();
    for (i, x) in x_values.into_iter().enumerate() {
        let y_expected = interpolated.evaluation(x);
        assert_eq!(y_values[i], y_expected);
    }
}

#[test]
fn test_quadratic_interpolation() {
    // interpolate over (0,0), (1,1), (2,4)
    let x_values = vec![
        FieldElement::from(0),
        FieldElement::from(1),
        FieldElement::from(2),
    ];
    let y_values = vec![
        FieldElement::from(0),
        FieldElement::from(1),
        FieldElement::from(4),
    ];
    let interpolated =
        Polynomial::interpolate_lagrange_polynomial(x_values.clone(), y_values.clone()).unwrap();
    for (i, x) in x_values.into_iter().enumerate() {
        let y_expected = interpolated.evaluation(x);
        assert_eq!(y_values[i], y_expected);
    }
}

#[test]
fn test_cubic_interpolation() {
    let x_values = vec![
        -FieldElement::from(1),
        FieldElement::from(0),
        FieldElement::from(1),
        FieldElement::from(2),
    ];
    let y_values = vec![
        -FieldElement::from(1),
        FieldElement::from(0),
        FieldElement::from(1),
        FieldElement::from(8),
    ];
    let interpolated =
        Polynomial::interpolate_lagrange_polynomial(x_values.clone(), y_values.clone()).unwrap();
    for (i, x) in x_values.into_iter().enumerate() {
        let y_expected = interpolated.evaluation(x);
        assert_eq!(y_values[i], y_expected);
    }
}

#[test]
fn test_interpolation_with_zero_y_values() {
    let x_values = vec![
        -FieldElement::from(1),
        FieldElement::from(0),
        FieldElement::from(1),
    ];
    let y_values = vec![
        FieldElement::from(1),
        FieldElement::from(0),
        FieldElement::from(1),
    ];
    let interpolated =
        Polynomial::interpolate_lagrange_polynomial(x_values.clone(), y_values.clone()).unwrap();
    for (i, x) in x_values.into_iter().enumerate() {
        let y_expected = interpolated.evaluation(x);
        assert_eq!(y_values[i], y_expected);
    }
}

#[test]
fn test_constant_polynomial_interpolation() {
    let x_values = vec![
        FieldElement::from(1),
        FieldElement::from(2),
        FieldElement::from(3),
    ];
    let y_values = vec![
        FieldElement::from(5),
        FieldElement::from(5),
        FieldElement::from(5),
    ];
    let interpolated =
        Polynomial::interpolate_lagrange_polynomial(x_values.clone(), y_values.clone()).unwrap();
    for (i, x) in x_values.into_iter().enumerate() {
        let y_expected = interpolated.evaluation(x);
        assert_eq!(y_values[i], y_expected);
    }
}

#[test]
fn test_interpolation_with_repeated_x_values() {
    let x_values = vec![
        FieldElement::from(1),
        FieldElement::from(1),
        FieldElement::from(2),
    ];
    let y_values = vec![
        FieldElement::from(1),
        FieldElement::from(1),
        FieldElement::from(2),
    ];
    let result = Polynomial::interpolate_lagrange_polynomial(x_values, y_values);
    assert!(
        result.is_err(),
        "Expected an error due to repeated x values"
    );
    if let Err(e) = result {
        assert_eq!(
            e.to_string(),
            "Duplicate x values are not allowed",
            "Unexpected error message"
        );
    }
}

#[test]
fn interpolation_length_mismatch() {
    let result = Polynomial::interpolate_lagrange_polynomial(
        vec![FieldElement(1), FieldElement(2)],
        vec![FieldElement(1)],
    );
    assert_eq!(result.unwrap_err(), PolynomialError::LengthMismatch);
    assert_eq!(
        PolynomialError::LengthMismatch.to_string(),
        "x values and y values should be same length"
    );
}

#[test]
fn interpolation_duplicate_is_reported_as_duplicate() {
    let result = Polynomial::interpolate_lagrange_polynomial(
        vec![FieldElement(3), FieldElement(9), FieldElement(3)],
        vec![FieldElement(1), FieldElement(2), FieldElement(3)],
    );
    assert_eq!(result.unwrap_err(), PolynomialError::DuplicateX);
}

#[test]
fn interpolation_round_trip_sixteen_points() {
    let xs: Vec<FieldElement> = (0..16u64).map(|i| FieldElement(i * i * 977 + 3)).collect();
    let ys: Vec<FieldElement> = (0..16u64)
        .map(|i| FieldElement((i * 18446744069414584) % 18446744069414584321))
        .collect();
    let poly = Polynomial::interpolate_lagrange_polynomial(xs.clone(), ys.clone()).unwrap();
    assert_eq!(poly.0.len(), 16);
    for (x, y) in xs.iter().zip(ys.iter()) {
        assert_eq!(poly.evaluation(*x), *y);
    }
}

#[test]
fn interpolation_single_point_is_constant() {
    let poly =
        Polynomial::interpolate_lagrange_polynomial(vec![FieldElement(4)], vec![FieldElement(9)])
            .unwrap();
    assert_eq!(poly.0, vec![FieldElement(9)]);
}

#[test]
fn cubic_through_cube_points_is_x_cubed() {
    let xs = vec![-FieldElement(1), FieldElement(0), FieldElement(1), FieldElement(2)];
    let ys = vec![-FieldElement(1), FieldElement(0), FieldElement(1), FieldElement(8)];
    let poly = Polynomial::interpolate_lagrange_polynomial(xs, ys).unwrap();
    assert_eq!(
        poly.0,
        vec![FieldElement(1), FieldElement(0), FieldElement(0), FieldElement(0)]
    );
    assert_eq!(poly.evaluation(FieldElement(3)), FieldElement(27));
}

#[test]
fn evaluation_is_highest_degree_first() {
    // 2x^2 + 3x + 4 at x = 10
    let p = Polynomial::new(vec![FieldElement(2), FieldElement(3), FieldElement(4)]);
    assert_eq!(p.evaluation(FieldElement(10)), FieldElement(234));
    assert_eq!(p.evaluation(FieldElement(0)), FieldElement(4));
    assert_eq!(p.degree(), 2);
}

#[test]
fn add_then_sub_gives_back() {
    let p = Polynomial::new(vec![FieldElement(5), FieldElement(7), FieldElement(0), FieldElement(10)]);
    let q = Polynomial::new(vec![FieldElement(10), FieldElement(18446744069414584320), FieldElement(2)]);
    let r = (p + q) - Polynomial::new(vec![FieldElement(10), FieldElement(18446744069414584320), FieldElement(2)]);
    assert_eq!(r.0, vec![FieldElement(5), FieldElement(7), FieldElement(0), FieldElement(10)]);
}

#[test]
fn sub_with_longer_right_operand() {
    // x - (x^2 + 1) = -x^2 + x - 1
    let a = Polynomial::new(vec![FieldElement(1), FieldElement(0)]);
    let b = Polynomial::new(vec![FieldElement(1), FieldElement(0), FieldElement(1)]);
    let c = a - b;
    assert_eq!(
        c.0,
        vec![-FieldElement(1), FieldElement(1), -FieldElement(1)]
    );
}

#[test]
fn multiply_by_one() {
    let p = Polynomial::new(vec![FieldElement(5), FieldElement(7), FieldElement(9)]);
    let r = p * Polynomial::new(vec![FieldElement(1)]);
    assert_eq!(r.0, vec![FieldElement(5), FieldElement(7), FieldElement(9)]);
}

#[test]
fn scale_then_evaluate() {
    let p = Polynomial::new(vec![FieldElement(2), FieldElement(3), FieldElement(4)]);
    let k = FieldElement(18446744069414584000);
    let x = FieldElement(123456);
    let scaled = p.scale(k);
    assert_eq!(scaled.0, vec![k * FieldElement(2), k * FieldElement(3), k * FieldElement(4)]);
    assert_eq!(scaled.evaluation(x), k * p.evaluation(x));
}
