use rollpoly::{evaluate, DiceParser};

#[test]
fn test_evaluate_simple_dice() {
    let mut parser = DiceParser::new("2d6");
    let expr = parser.parse().unwrap();
    let results = evaluate(&expr).unwrap();

    assert_eq!(results.len(), 2);
    for &result in &results {
        assert!(result >= 1 && result <= 6);
    }
}

#[test]
fn test_evaluate_keep_highest() {
    let mut parser = DiceParser::new("4d6K3");
    let expr = parser.parse().unwrap();
    let results = evaluate(&expr).unwrap();

    assert_eq!(results.len(), 3);
    // Results should be in descending order
    for i in 1..results.len() {
        assert!(results[i - 1] >= results[i]);
    }
    for &result in &results {
        assert!(result >= 1 && result <= 6);
    }
}

#[test]
fn test_evaluate_arithmetic() {
    let mut parser = DiceParser::new("2d6 + 3");
    let expr = parser.parse().unwrap();
    let results = evaluate(&expr).unwrap();

    assert_eq!(results.len(), 3); // 2 dice + 1 constant
                                  // First two should be dice results
    for &result in &results[0..2] {
        assert!(result >= 1 && result <= 6);
    }
    // Last should be the constant
    assert_eq!(results[2], 3);
}

#[test]
fn test_evaluate_multiplication() {
    let mut parser = DiceParser::new("2d6 * 3");
    let expr = parser.parse().unwrap();
    let results = evaluate(&expr).unwrap();

    assert_eq!(results.len(), 1); // Single result (the product)
                                  // Result should be between (1+1)*3=6 and (6+6)*3=36
    assert!(results[0] >= 6 && results[0] <= 36);
    // Should be divisible by 3
    assert_eq!(results[0] % 3, 0);
}

#[test]
fn test_evaluate_division() {
    let mut parser = DiceParser::new("6d6 / 2");
    let expr = parser.parse().unwrap();
    let results = evaluate(&expr).unwrap();

    assert_eq!(results.len(), 1); // Single result (the quotient)
                                  // Result should be between (6*1)/2=3 and (6*6)/2=18
    assert!(results[0] >= 3 && results[0] <= 18);
}

#[test]
fn test_evaluate_success_counting() {
    let mut parser = DiceParser::new("5d10>6");
    let expr = parser.parse().unwrap();
    let results = evaluate(&expr).unwrap();

    assert_eq!(results.len(), 1);
    let success_count = results[0];
    assert!(success_count >= 0 && success_count <= 5);
}

#[test]
fn test_evaluate_exploding_dice() {
    let mut parser = DiceParser::new("2d6!");
    let expr = parser.parse().unwrap();
    let results = evaluate(&expr).unwrap();

    // Should have at least 2 dice (the original rolls)
    assert!(results.len() >= 2);
    for &result in &results {
        assert!(result >= 1 && result <= 6);
    }
}

#[test]
fn test_evaluate_constant() {
    let mut parser = DiceParser::new("42");
    let expr = parser.parse().unwrap();
    let results = evaluate(&expr).unwrap();

    assert_eq!(results, vec![42]);
}

#[test]
fn test_evaluate_complex_expression() {
    let mut parser = DiceParser::new("4d6K3 + 2d8 - 1");
    let expr = parser.parse().unwrap();
    let results = evaluate(&expr).unwrap();

    // Should have: 3 kept dice + 2 dice + 1 constant (negated) = 6 elements
    assert_eq!(results.len(), 6);

    // Last element should be -1 (the negated constant)
    assert_eq!(results[5], -1);
}

#[test]
fn test_evaluate_multiplication_with_dice() {
    let mut parser = DiceParser::new("1d6 * 2d4");
    let expr = parser.parse().unwrap();
    let results = evaluate(&expr).unwrap();

    assert_eq!(results.len(), 1); // Single result (the product)
                                  // Result should be between 1*2=2 and 6*8=48
    assert!(results[0] >= 2 && results[0] <= 48);
}
