use roman_arithmetic::{eval, int_to_roman, roman_to_int, CodecError, EvalError, Grammar, Rule};

fn run(input: &str) -> Result<i64, EvalError> {
    let pair = Grammar::parse(Rule::program, input)
        .unwrap_or_else(|e| panic!("Failed to parse '{}': {:?}", input, e));
    eval(&pair)
}

#[test]
fn round_trip_every_representable_value() {
    let mut n: i64 = 1;
    while n <= 3999 {
        let s = int_to_roman(n).unwrap();
        assert_eq!(roman_to_int(&s) as i64, n, "round trip failed at {}", n);
        n += 1;
    }
}

#[test]
fn rendering_is_canonical_for_every_value() {
    let mut n: i64 = 1;
    while n <= 3999 {
        let s = int_to_roman(n).unwrap();
        let chars: Vec<char> = s.chars().collect();
        let mut run_len: usize = 1;
        for k in 1..chars.len() {
            if chars[k] == chars[k - 1] {
                run_len += 1;
            } else {
                run_len = 1;
            }
            assert!(run_len <= 3, "four repeats in {} at {}", s, n);
        }
        n += 1;
    }
}

#[test]
fn rendering_uses_subtractive_pairs() {
    assert_eq!(int_to_roman(4).unwrap(), "IV");
    assert_eq!(int_to_roman(9).unwrap(), "IX");
    assert_eq!(int_to_roman(40).unwrap(), "XL");
    assert_eq!(int_to_roman(90).unwrap(), "XC");
    assert_eq!(int_to_roman(400).unwrap(), "CD");
    assert_eq!(int_to_roman(900).unwrap(), "CM");
    assert_eq!(int_to_roman(1994).unwrap(), "MCMXCIV");
    assert_eq!(int_to_roman(3999).unwrap(), "MMMCMXCIX");
    assert_eq!(int_to_roman(3888).unwrap(), "MMMDCCCLXXXVIII");
}

#[test]
fn decoding_standalone_numerals() {
    assert_eq!(roman_to_int("I"), 1);
    assert_eq!(roman_to_int("LVIII"), 58);
    assert_eq!(roman_to_int("MCMXCIV"), 1994);
    assert_eq!(roman_to_int("MMMCMXCIX"), 3999);
}

#[test]
fn grammar_rejects_non_canonical_numerals() {
    for input in ["IIII", "VV", "IC", ""] {
        let result = Grammar::parse(Rule::roman, input);
        assert!(result.is_err(), "Should fail on: {:?}", input);
    }
    assert!(Grammar::parse(Rule::program, "IIII + I").is_err());
    assert!(Grammar::parse(Rule::program, "X + VV").is_err());
}

#[test]
fn precedence_of_multiplication() {
    assert_eq!(run("X + V * II").unwrap(), 20);
    assert_eq!(int_to_roman(run("X + V * II").unwrap()).unwrap(), "XX");
}

#[test]
fn grouping_overrides_precedence() {
    assert_eq!(run("(X + V) * II").unwrap(), 30);
    assert_eq!(int_to_roman(run("(X + V) * II").unwrap()).unwrap(), "XXX");
}

#[test]
fn unary_and_nested_groups() {
    assert_eq!(run("-(-I)").unwrap(), 1);
    assert_eq!(run("+(V)").unwrap(), 5);
    assert_eq!(run("-(X) + XI").unwrap(), 1);
}

#[test]
fn division_truncates() {
    assert_eq!(run("M / (II * V)").unwrap(), 100);
    assert_eq!(int_to_roman(run("M / (II * V)").unwrap()).unwrap(), "C");
    assert_eq!(run("VII / II").unwrap(), 3);
    // -3 / 2 truncates toward zero, not toward minus infinity
    assert_eq!(run("(I - IV) / II").unwrap(), -1);
}

#[test]
fn left_associativity() {
    assert_eq!(run("C - L + X").unwrap(), 60);
    assert_eq!(int_to_roman(run("C - L + X").unwrap()).unwrap(), "LX");
    assert_ne!(run("C - L + X").unwrap(), 40);
    assert_eq!(run("C / X / II").unwrap(), 5);
}

#[test]
fn division_by_zero_is_an_error() {
    let pair = Grammar::parse(Rule::program, "X / (I - I)").expect("parse must succeed");
    assert_eq!(eval(&pair), Err(EvalError::DivisionByZero));
}

#[test]
fn overflow_is_an_error() {
    assert_eq!(run("MMM * MMM * MMM * MMM * MMM * MMM"), Err(EvalError::Overflow));
}

#[test]
fn whitespace_insensitivity() {
    let tight = Grammar::parse(Rule::program, "X+V").unwrap();
    let spaced = Grammar::parse(Rule::program, "X + V").unwrap();
    assert_eq!(tight.node, spaced.node);
    assert_eq!(eval(&tight).unwrap(), 15);
    assert_eq!(eval(&spaced).unwrap(), 15);
    let padded = Grammar::parse(Rule::program, "  X\t+\nV  ").unwrap();
    assert_eq!(tight.node, padded.node);
}

#[test]
fn span_covers_first_to_last_token() {
    let pair = Grammar::parse(Rule::program, "  X + V ").unwrap();
    assert_eq!(pair.as_str(), "X + V");
    assert_eq!(pair.rule, Rule::program);
}

#[test]
fn non_representable_results_are_errors() {
    assert_eq!(int_to_roman(0), Err(CodecError::NonRepresentable));
    assert_eq!(int_to_roman(-7), Err(CodecError::NonRepresentable));
    assert_eq!(int_to_roman(4000), Err(CodecError::NonRepresentable));
    assert!(int_to_roman(run("I - V").unwrap()).is_err());
}

#[test]
fn syntax_errors_are_reported() {
    for input in ["X * * V", "(X", "X)", "X V", "X @ V", "", "   ", "X +", "* X"] {
        assert!(Grammar::parse(Rule::program, input).is_err(), "Should fail on: {:?}", input);
    }
}

#[test]
fn whitespace_cannot_stand_inside_a_numeral() {
    assert!(Grammar::parse(Rule::roman, "X X").is_err());
    let pair = Grammar::parse(Rule::program, "X X");
    assert!(pair.is_err());
}
