use calculator::decimal::{simplify, Decimal};
use calculator::error::CalcError;

fn lit(s: &str) -> Decimal {
    Decimal::from_literal(s).unwrap()
}

#[test]
fn test_decimal_simplify() {
    let origin = Decimal::_new(1140514000, 5);
    println!("{:?}\n{}", &origin, origin.format());
    let simplified = simplify(&origin);
    println!("{:?}\n{}", &simplified, simplified.format());
    assert_eq!(simplified.mantissa, 1140514);
    assert_eq!(simplified.scale, 2);
}

#[test]
fn test_decimal_pow() {
    let examples = vec![
        lit("2").pow(&lit("8")).unwrap(),
        lit("0.1").pow(&lit("4")).unwrap(),
        lit("0.002").pow(&lit("4")).unwrap(),
        lit("2.1").pow(&lit("4")).unwrap(),
        lit("0.00").pow(&lit("4")).unwrap(),
        lit("0.233").pow(&lit("1")).unwrap(),
        lit("0.002").pow(&lit("0")).unwrap(),
    ];
    for example in examples {
        println!("Result: {}", example.format());
    }
    assert_eq!(lit("2").pow(&lit("8")).unwrap().format(), "256.0");
    assert_eq!(lit("0.1").pow(&lit("4")).unwrap().format(), "0.0001");
    assert_eq!(lit("2.1").pow(&lit("4")).unwrap().format(), "19.4481");
    assert_eq!(lit("0.00").pow(&lit("4")).unwrap().format(), "0.0");
    assert_eq!(lit("0.002").pow(&lit("0")).unwrap().format(), "1.0");
}

#[test]
fn test_decimal_from() {
    let examples = vec!["0.0", "1.00", "1.14514", "2.333"];
    for example in examples {
        let dec = Decimal::from_literal(&example.to_string()).unwrap();
        println!("{:?}\n{}\n", &dec, dec.format());
    }
    assert_eq!(lit("0.0").mantissa, 0);
    assert_eq!(lit("0.0").scale, 0);
    assert_eq!(lit("1.00").mantissa, 1);
    assert_eq!(lit("1.00").scale, 0);
    assert_eq!(lit("1.14514").mantissa, 114514);
    assert_eq!(lit("1.14514").scale, 5);
}

#[test]
fn test_decimal_display() {
    let examples = vec![
        Decimal::_new(1, 2),
        Decimal::_new(233, 2),
        Decimal::_new(-2333, 2),
        Decimal::_new(233, 3),
        Decimal::_new(-233, 3),
    ];
    for example in &examples {
        println!("{:?}\n{}\n", example, example.format());
    }
    assert_eq!(examples[0].format(), "0.01");
    assert_eq!(examples[1].format(), "2.33");
    assert_eq!(examples[2].format(), "-23.33");
    assert_eq!(examples[3].format(), "0.233");
    assert_eq!(examples[4].format(), "-0.233");
}

#[test]
fn test_decimal_add() {
    let examples = vec![
        Decimal::_new(1140000, 4).add(&Decimal::_new(514, 3)).unwrap(),
        Decimal::_new(100, 1).add(&Decimal::_new(9, 1)).unwrap(),
    ];
    for example in &examples {
        println!("Data: {:?}\nResult: {}\n", example, example.format());
    }
    assert_eq!(examples[0].format(), "114.5140");
    assert_eq!(examples[1].format(), "10.9");
}

#[test]
fn test_decimal_sub() {
    let examples = vec![
        Decimal::_new(114514, 5).sub(&Decimal::_new(114514, 5)).unwrap(),
        Decimal::_new(2333, 3).sub(&Decimal::_new(003, 2)).unwrap(),
        Decimal::_new(100, 1).sub(&Decimal::_new(9, 1)).unwrap(),
    ];
    for example in &examples {
        println!("Result: {}", example.format());
    }
    assert_eq!(examples[0].format(), "0.0");
    assert_eq!(examples[1].format(), "2.303");
    assert_eq!(examples[2].format(), "9.1");
}

#[test]
fn test_decimal_mul() {
    let examples = vec![
        lit(&10.to_string()).mul(&lit(&2.333.to_string())).unwrap(),
    ];
    for example in &examples {
        println!("Result: {}", example.format());
    }
    assert_eq!(examples[0].format(), "23.330");
    assert!(examples[0] == lit("23.33"));
}

#[test]
fn test_decimal_div() {
    let result = lit(&1.14.to_string()).div(&lit(&10.to_string())).unwrap();
    println!("{}", result.format());
    assert_eq!(result.format(), "0.114");
    let result = lit(&23.3.to_string()).div(&lit(&0.1.to_string())).unwrap();
    println!("{}", result.format());
    assert_eq!(result.format(), "233.0");
    let result = lit(&2333.to_string()).div(&lit(&0.2.to_string())).unwrap();
    println!("{}", result.format());
    assert_eq!(result.format(), "11665.0");
}

#[test]
fn test_decimal_div_zero_reported() {
    let result = lit("1").div(&lit("0"));
    assert_eq!(result, Err(CalcError::DivisionByZero));
}

#[test]
fn test_decimal_partial_eq() {
    let result = lit("1.00") == lit("1");
    println!("Result: {}", result);
    assert!(result);
}

#[test]
fn test_decimal() {
    let examples = vec![
        lit(&0.1.to_string())
            .add(&lit(&0.1.to_string()))
            .unwrap()
            .add(&lit(&0.1.to_string()))
            .unwrap(),
    ];
    for example in &examples {
        println!("Result: {}", example.format());
    }
    assert_eq!(examples[0].format(), "0.3");
}

#[test]
fn decimal_test_decimal_from() {
    let dec = Decimal::from_literal(&0.0_f64.to_string()).unwrap();
    println!("{:?}\n{}\n", &dec, dec.format());
    let dec = Decimal::from_literal(&1.0_f64.to_string()).unwrap();
    println!("{:?}\n{}\n", &dec, dec.format());
    let dec = Decimal::from_literal(&1.14514_f64.to_string()).unwrap();
    println!("{:?}\n{}\n", &dec, dec.format());
    assert_eq!(dec.format(), "1.14514");
}

#[test]
fn decimal_test_decimal_display() {
    let examples = vec![
        Decimal::_new(1, 2),
        Decimal::_new(233, 2),
        Decimal::_new(-2333, 2),
        Decimal::_new(233, 3),
        Decimal::_new(-233, 3),
    ];
    for example in &examples {
        println!("{:?}\n{}\n", example, example.format());
    }
}

#[test]
fn decimal_test_decimal_add() {
    let examples = vec![
        Decimal::_new(114000, 3).add(&Decimal::_new(514, 3)).unwrap(),
        Decimal::_new(100, 1).add(&Decimal::_new(9, 1)).unwrap(),
    ];
    for example in &examples {
        println!("Result: {}", example.format());
    }
    assert_eq!(examples[0].format(), "114.514");
}

#[test]
fn decimal_test_decimal_sub() {
    let examples = vec![
        Decimal::_new(114514, 5).sub(&Decimal::_new(114514, 5)).unwrap(),
        Decimal::_new(2333, 3).sub(&Decimal::_new(003, 2)).unwrap(),
        Decimal::_new(100, 1).sub(&Decimal::_new(9, 1)).unwrap(),
    ];
    for example in &examples {
        println!("Result: {}", example.format());
    }
}

#[test]
fn decimal_test_decimal_mul() {
    let examples = vec![
        Decimal::_new(11, 1).mul(&Decimal::_new(2, 0)).unwrap(),
        Decimal::_new(114, 2).mul(&Decimal::_new(1, 1)).unwrap(),
        Decimal::_new(233, 3).mul(&Decimal::_new(0, 1)).unwrap(),
        Decimal::_new(4, 1).mul(&Decimal::_new(5, 0)).unwrap(),
        Decimal::_new(233, 0).mul(&Decimal::_new(10, 0)).unwrap(),
    ];
    for example in &examples {
        println!("Result: {}", example.format());
    }
    assert_eq!(examples[0].format(), "2.2");
    assert_eq!(examples[1].format(), "0.114");
    assert_eq!(examples[4].format(), "2330.0");
}

#[test]
fn decimal_test_decimal_div() {
    let result = lit(&1.14.to_string()).div(&lit(&10.0_f64.to_string())).unwrap();
    println!("{}", result.format());
    let result = lit(&23.3.to_string()).div(&lit(&0.1.to_string())).unwrap();
    println!("{}", result.format());
    let result = lit(&2333.0_f64.to_string()).div(&lit(&0.2.to_string())).unwrap();
    println!("{}", result.format());
}

#[test]
fn decimal_test_decimal() {
    let examples = vec![
        lit(&0.1.to_string())
            .add(&lit(&0.1.to_string()))
            .unwrap()
            .add(&lit(&0.1.to_string()))
            .unwrap(),
    ];
    for example in &examples {
        println!("Result: {}", example.format());
    }
    println!("{}", 1_f64 / 0_f64);
}

#[test]
fn exactness_of_chained_addition() {
    let sum = lit("0.1").add(&lit("0.1")).unwrap().add(&lit("0.1")).unwrap();
    assert_eq!(sum.format(), "0.3");
    let sum = lit("0.7").add(&lit("0.1")).unwrap().add(&lit("0.2")).unwrap();
    assert_eq!(sum.format(), "1.0");
}

#[test]
fn round_trip_of_canonical_text() {
    for text in ["1", "1.00", "-0.05", "123.456", "0", "0.0001", "-171"] {
        let d = lit(text);
        let back = Decimal::from_literal(&d.format()).unwrap();
        assert_eq!(back, d);
        assert_eq!(back.format(), d.format());
    }
}

#[test]
fn equality_modulo_representation() {
    assert!(lit("1.00") == lit("1"));
    assert!(lit("1.01") != lit("1"));
    assert!(lit("-0.50") == lit("-0.5"));
    assert!(Decimal::_new(10, 1) == Decimal::_new(1, 0));
}

#[test]
fn division_is_inverse_of_multiplication() {
    let cases = [("1.14", "10"), ("23.3", "0.1"), ("2333", "0.2"), ("-171", "4")];
    for (a_text, b_text) in cases {
        let a = lit(a_text);
        let b = lit(b_text);
        let q = a.div(&b).unwrap();
        let back = q.mul(&b).unwrap();
        assert_eq!(back, a);
    }
}

#[test]
fn pow_domain_errors() {
    assert_eq!(lit("2").pow(&lit("8")).unwrap().format(), "256.0");
    assert_eq!(lit("2").pow(&lit("-1")), Err(CalcError::UnsupportedExponent));
    assert_eq!(lit("2").pow(&lit("2.5")), Err(CalcError::UnsupportedExponent));
}

#[test]
fn overflow_is_reported() {
    let huge = "9999999999999999999999999999999999999999";
    assert_eq!(Decimal::from_literal(huge), Err(CalcError::ArithmeticOverflow));
    assert_eq!(lit("10").pow(&lit("60")), Err(CalcError::ArithmeticOverflow));
    assert_eq!(lit("0.1").pow(&lit("300")), Err(CalcError::ArithmeticOverflow));
    let big = lit("99999999999999999999999999999999999999");
    assert_eq!(big.mul(&big), Err(CalcError::ArithmeticOverflow));
}

#[test]
fn malformed_literals_are_reported() {
    for text in ["", ".", "-", "1.2.3", "abc", "1-2", "--1", "+5"] {
        assert_eq!(
            Decimal::from_literal(text),
            Err(CalcError::MalformedNumber),
            "literal {:?}",
            text
        );
    }
}

#[test]
fn literal_shapes_accepted() {
    assert_eq!(lit("1.").format(), "1.0");
    assert_eq!(lit(".5").format(), "0.5");
    assert_eq!(lit("-1.5").format(), "-1.5");
    assert_eq!(lit("-0.00").format(), "0.0");
    assert_eq!(lit("007").format(), "7.0");
}

#[test]
fn format_pads_small_negative_values() {
    assert_eq!(Decimal::_new(-5, 2).format(), "-0.05");
    assert_eq!(Decimal::_new(5, 2).format(), "0.05");
    assert_eq!(Decimal::zero().format(), "0.0");
    assert_eq!(Decimal::_new(-1050, 2).format(), "-10.50");
}

#[test]
fn division_that_never_terminates_is_reported() {
    assert_eq!(lit("1").div(&lit("3")), Err(CalcError::ArithmeticOverflow));
    assert_eq!(lit("10").div(&lit("7")), Err(CalcError::ArithmeticOverflow));
}

#[test]
fn negation_and_subtraction() {
    assert_eq!(lit("1.5").neg().unwrap().format(), "-1.5");
    assert_eq!(lit("-1.5").neg().unwrap().format(), "1.5");
    assert_eq!(lit("0.3").sub(&lit("0.1")).unwrap().format(), "0.2");
}
