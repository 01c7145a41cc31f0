use quack::arithmetic::{ModularInteger, MonicPolynomialEvaluator};

#[test]
fn test_eval_no_modulus() {
    // f(x) = x^2 + 2*x - 3
    // f(0) = -3
    // f(1) = 0
    // f(2) = 5
    // f(3) = 12
    let coeffs = vec![ModularInteger::new(2), -ModularInteger::new(3)];
    assert_eq!(MonicPolynomialEvaluator::eval(&coeffs, 0), -ModularInteger::new(3));
    assert_eq!(MonicPolynomialEvaluator::eval(&coeffs, 1), 0);
    assert_eq!(MonicPolynomialEvaluator::eval(&coeffs, 2), 5);
    assert_eq!(MonicPolynomialEvaluator::eval(&coeffs, 3), 12);
}

#[test]
fn test_eval_with_modulus() {
    // f(x) = (x - 1000)(x - 20000)(x - 65000) over the field:
    // x^3 + 45042*x^2 + 17102*x + 64328
    let coeffs = vec![
        ModularInteger::new(45042),
        ModularInteger::new(17102),
        ModularInteger::new(64328),
    ];

    // Test zeros.
    assert_eq!(MonicPolynomialEvaluator::eval(&coeffs, 1000), 0);
    assert_eq!(MonicPolynomialEvaluator::eval(&coeffs, 20000), 0);
    assert_eq!(MonicPolynomialEvaluator::eval(&coeffs, 65000), 0);

    // Test other points.
    assert_ne!(MonicPolynomialEvaluator::eval(&coeffs, 1001), 0);
    assert_ne!(MonicPolynomialEvaluator::eval(&coeffs, 19999), 0);
    assert_ne!(MonicPolynomialEvaluator::eval(&coeffs, 64999), 0);
}

#[test]
fn test_factor() {
    // f(x) = x^2 + 2*x - 3
    // f(x) = 0 when x = -3, 1
    let coeffs = vec![ModularInteger::new(2), -ModularInteger::new(3)];
    let mut roots = MonicPolynomialEvaluator::factor(&coeffs).unwrap();
    assert_eq!(roots.len(), 2);
    roots.sort();
    assert_eq!(roots, vec![1, ModularInteger::new(0).modulus() - 3]);
}

#[test]
fn factor_finds_every_root_in_ascending_order() {
    // (x - 65000)(x - 7)(x - 300)
    let e1 = ModularInteger::new(65000) + ModularInteger::new(7) + ModularInteger::new(300);
    let e2 = ModularInteger::new(65000) * ModularInteger::new(7)
        + ModularInteger::new(65000) * ModularInteger::new(300)
        + ModularInteger::new(7) * ModularInteger::new(300);
    let e3 = ModularInteger::new(65000) * ModularInteger::new(7) * ModularInteger::new(300);
    let coeffs = vec![-e1, e2, -e3];
    assert_eq!(MonicPolynomialEvaluator::factor(&coeffs), Ok(vec![7, 300, 65000]));
}

#[test]
fn factor_fails_without_enough_distinct_roots() {
    // x^2 - 17 has no root: 17 is no square in the field.
    let coeffs = vec![ModularInteger::new(0), -ModularInteger::new(17)];
    assert_eq!(
        MonicPolynomialEvaluator::factor(&coeffs),
        Err("could not factor polynomial".to_string())
    );
    // (x - 5)^2 has one root only.
    let coeffs = vec![-ModularInteger::new(10), ModularInteger::new(25)];
    assert_eq!(
        MonicPolynomialEvaluator::factor(&coeffs),
        Err("could not factor polynomial".to_string())
    );
}

#[test]
fn eval_of_a_linear_polynomial() {
    let coeffs = vec![ModularInteger::new(65520)];
    assert_eq!(MonicPolynomialEvaluator::eval(&coeffs, 1), 0);
    assert_eq!(MonicPolynomialEvaluator::eval(&coeffs, 0), 65520);
    // The argument is reduced first: 65522 is 1.
    assert_eq!(MonicPolynomialEvaluator::eval(&coeffs, 65522), 0);
}
