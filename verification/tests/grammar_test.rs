use roman_arithmetic::{eval, int_to_roman, Grammar, Rule};

#[test]
fn test_unit_test() {
    let test_cases = vec![
        ("X + V * II", "XX"),
        ("(X + V) * II", "XXX"),
        ("C - L + X", "LX"),
        ("M / (II * V)", "C"),
        ("IV * V + X", "XXX"),
        ("L + X * (X - V) / II", "LXXV"),
    ];

    for (input, expected) in test_cases {
        let pair = Grammar::parse(Rule::program, input)
            .unwrap_or_else(|e| panic!("Failed to parse '{}': {:?}", input, e));
        let result_int = eval(&pair).unwrap();
        let result_str = int_to_roman(result_int).unwrap();
        assert_eq!(
            result_str, expected,
            "Logic error for input: '{}'. Got {}, expected {}.",
            input, result_str, expected
        );
    }
}

// === Roman Sub-rules ===

#[test]
fn test_roman_thousands() {
    let inputs = ["M", "MM", "MMM"];
    for &input in &inputs {
        let result = Grammar::parse(Rule::roman_thousands, input).expect("no pair");
        assert_eq!(result.as_str(), input);
    }
}

#[test]
fn test_roman_hundreds() {
    let inputs = ["C", "CC", "CCC", "CD", "D", "DC", "DCC", "DCCC", "CM"];
    for &input in &inputs {
        let result = Grammar::parse(Rule::roman_hundreds, input).expect("no pair");
        assert_eq!(result.as_str(), input);
    }
}

#[test]
fn test_roman_tens() {
    let inputs = ["X", "XX", "XXX", "XL", "L", "LX", "LXX", "LXXX", "XC"];
    for &input in &inputs {
        let result = Grammar::parse(Rule::roman_tens, input).expect("no pair");
        assert_eq!(result.as_str(), input);
    }
}

#[test]
fn test_roman_units() {
    let inputs = ["I", "II", "III", "IV", "V", "VI", "VII", "VIII", "IX"];
    for &input in &inputs {
        let result = Grammar::parse(Rule::roman_units, input).expect("no pair");
        assert_eq!(result.as_str(), input);
    }
}

// === Roman ===

#[test]
fn test_roman() {
    let inputs = ["IX", "LII", "MDCXX", "I", "L", "CX", "CCC", "MMMCMXCIX"];
    for &input in &inputs {
        let result = Grammar::parse(Rule::roman, input).expect("no pair");
        assert_eq!(result.as_str(), input, "Failed on input: {}", input);
    }
}

#[test]
fn test_fail_roman() {
    let inputs = ["", "A", "i", "AXA"];
    for &input in &inputs {
        let result = Grammar::parse(Rule::roman, input);
        assert!(result.is_err(), "Have to fail on input: {} but {:?}", input, result);
    }
}

// === Operator Add ===

#[test]
fn test_operator_add() {
    let inputs = ["+", "-"];
    for &input in &inputs {
        let result = Grammar::parse(Rule::operator_add, input).expect("no pair");
        assert_eq!(result.as_str(), input);
    }
}

#[test]
fn test_fail_operator_add() {
    let inputs = ["*", "/", "_", " "];
    for &input in &inputs {
        let result = Grammar::parse(Rule::operator_add, input);
        assert!(result.is_err(), "Should fail on: {}", input);
    }
}

// === Operator Mul ===

#[test]
fn test_operator_mul() {
    let inputs = ["*", "/"];
    for &input in &inputs {
        let result = Grammar::parse(Rule::operator_mul, input).expect("no pair");
        assert_eq!(result.as_str(), input);
    }
}

#[test]
fn test_fail_operator_mul() {
    let inputs = ["+", "-", "x", "%", " "];
    for &input in &inputs {
        let result = Grammar::parse(Rule::operator_mul, input);
        assert!(result.is_err(), "Should fail on: {}", input);
    }
}

// === Operator Unary ===

#[test]
fn test_operator_unary() {
    let inputs = ["+", "-"];
    for &input in &inputs {
        let result = Grammar::parse(Rule::operator_unary, input).expect("no pair");
        assert_eq!(result.as_str(), input);
    }
}

#[test]
fn test_fail_operator_unary() {
    let inputs = ["*", "/", " ", "$"];
    for &input in &inputs {
        let result = Grammar::parse(Rule::operator_unary, input);
        assert!(result.is_err(), "Should fail on: {}", input);
    }
}

// === Group ===

#[test]
fn test_group() {
    let inputs = ["(I)", "(X+V)", "(M*D)", "((I))"];
    for &input in &inputs {
        let result = Grammar::parse(Rule::group, input).expect("no pair");
        assert_eq!(result.as_str(), input);
    }
}

#[test]
fn test_fail_group() {
    let inputs = ["I", "(I", "I)", "()", "( )"];
    for &input in &inputs {
        let result = Grammar::parse(Rule::group, input);
        assert!(result.is_err(), "Should fail on: {}", input);
    }
}

// === Factor ===

#[test]
fn test_factor() {
    let inputs = ["X", "(X)", "-X", "+(V)", "-(-I)"];
    for &input in &inputs {
        let result = Grammar::parse(Rule::factor, input).expect("no pair");
        assert_eq!(result.as_str(), input);
    }
}

// === Strong Term ===

#[test]
fn test_strong_term() {
    let inputs = ["X", "X*V", "X/I", "X*V/I", "(X+I)*V"];
    for &input in &inputs {
        let result = Grammar::parse(Rule::strong_term, input).expect("no pair");
        assert_eq!(result.as_str(), input);
    }
}

#[test]
fn test_fail_strong_term() {
    let hard_fails = ["*", "/"];
    for &input in &hard_fails {
        let result = Grammar::parse(Rule::strong_term, input);
        assert!(result.is_err(), "Should fail on: {}", input);
    }
}

// === Term ===

#[test]
fn test_term() {
    let inputs = ["X", "X+V", "X-I", "X*V+I", "X+V*I"];
    for &input in &inputs {
        let result = Grammar::parse(Rule::term, input).expect("no pair");
        assert_eq!(result.as_str(), input);
    }
}

// === Expr ===

#[test]
fn test_expr() {
    let inputs = ["X", "X+V", "X*V"];
    for &input in &inputs {
        let result = Grammar::parse(Rule::expr, input).expect("no pair");
        assert_eq!(result.as_str(), input);
    }
}
