use calculator::{EvalError, Evaluator, LexError, RunError, Token, Tokenizer};

fn eval_line(e: &mut Evaluator, line: &str) -> Result<i64, RunError> {
    e.run(line)
}

fn tokens_of(line: &str) -> Result<Vec<Token>, LexError> {
    let mut t = Tokenizer::new(line);
    t.run()
}

#[test]
fn assignment_then_lookup_and_rebinding() {
    let mut e = Evaluator::new();
    assert_eq!(eval_line(&mut e, "x = 5").unwrap(), 5);
    assert_eq!(eval_line(&mut e, "x").unwrap(), 5);
    assert_eq!(eval_line(&mut e, "x = 10").unwrap(), 10);
    assert_eq!(eval_line(&mut e, "x + 1").unwrap(), 11);
}

#[test]
fn precedence_and_grouping() {
    let mut e = Evaluator::new();
    assert_eq!(eval_line(&mut e, "1 + 2 * 3").unwrap(), 7);
    assert_eq!(eval_line(&mut e, "(1 + 2) * 3").unwrap(), 9);
}

#[test]
fn division_truncates() {
    let mut e = Evaluator::new();
    assert_eq!(eval_line(&mut e, "3 / 2").unwrap(), 1);
    assert_eq!(eval_line(&mut e, "0 - 7 / 2").unwrap(), -3);
    assert_eq!(eval_line(&mut e, "(0 - 7) / 2").unwrap(), -3);
}

#[test]
fn division_by_zero_leaves_variables_unchanged() {
    let mut e = Evaluator::new();
    assert_eq!(eval_line(&mut e, "x = 3").unwrap(), 3);
    let r = eval_line(&mut e, "10 / 0");
    assert!(matches!(r, Err(RunError::Eval(EvalError::DivisionByZero))));
    let r = eval_line(&mut e, "x = 10 / 0");
    assert!(matches!(r, Err(RunError::Eval(EvalError::DivisionByZero))));
    assert_eq!(eval_line(&mut e, "x").unwrap(), 3);
}

#[test]
fn unknown_identifier() {
    let mut e = Evaluator::new();
    match eval_line(&mut e, "y + 1") {
        Err(RunError::Eval(EvalError::UnknownIdentifier(name))) => assert_eq!(name, "y"),
        other => panic!("unexpected result {:?}", other),
    }
}

#[test]
fn unbalanced_parenthesis() {
    let mut e = Evaluator::new();
    let r = eval_line(&mut e, "(1 + 2");
    assert!(matches!(
        r,
        Err(RunError::Eval(EvalError::UnexpectedEndOfInput))
            | Err(RunError::Eval(EvalError::UnexpectedToken { .. }))
    ));
}

#[test]
fn parenthesis_closed_by_wrong_token() {
    let mut e = Evaluator::new();
    match eval_line(&mut e, "(1 + 2 3") {
        Err(RunError::Eval(EvalError::UnexpectedToken { expected, actual })) => {
            assert_eq!(expected, Token::RParen);
            assert_eq!(actual, Token::Value(3));
        }
        other => panic!("unexpected result {:?}", other),
    }
}

#[test]
fn pure_expression_is_idempotent() {
    let mut e = Evaluator::new();
    assert_eq!(eval_line(&mut e, "a = 4").unwrap(), 4);
    let first = eval_line(&mut e, "a * (a - 1) / 3").unwrap();
    let second = eval_line(&mut e, "a * (a - 1) / 3").unwrap();
    assert_eq!(first, 4);
    assert_eq!(first, second);
    assert_eq!(eval_line(&mut e, "a").unwrap(), 4);
}

#[test]
fn tokenize_assignment() {
    let ts = tokens_of("a1_b = 42").unwrap();
    assert_eq!(
        ts,
        vec![Token::Ident("a1_b".to_string()), Token::Equals, Token::Value(42)]
    );
}

#[test]
fn tokenize_all_punctuation() {
    let ts = tokens_of("=+-*/()").unwrap();
    assert_eq!(
        ts,
        vec![
            Token::Equals,
            Token::OpPlus,
            Token::OpMinus,
            Token::OpMult,
            Token::OpDiv,
            Token::LParen,
            Token::RParen
        ]
    );
}

#[test]
fn tokenize_skips_leading_and_inner_whitespace() {
    let ts = tokens_of(" \t12  *x").unwrap();
    assert_eq!(
        ts,
        vec![Token::Value(12), Token::OpMult, Token::Ident("x".to_string())]
    );
}

#[test]
fn tokenize_empty_line() {
    assert_eq!(tokens_of("").unwrap(), Vec::<Token>::new());
}

#[test]
fn trailing_whitespace_ends_the_content_early() {
    assert!(matches!(tokens_of("1 "), Err(LexError::UnexpectedEnd)));
}

#[test]
fn unexpected_character() {
    assert!(matches!(tokens_of("1 % 2"), Err(LexError::UnexpectedChar('%'))));
    let mut e = Evaluator::new();
    assert!(matches!(
        eval_line(&mut e, "2 $"),
        Err(RunError::Lex(LexError::UnexpectedChar('$')))
    ));
}

#[test]
fn number_out_of_range() {
    match tokens_of("99999999999999999999") {
        Err(LexError::InvalidNumber(s)) => assert_eq!(s, "99999999999999999999"),
        other => panic!("unexpected result {:?}", other),
    }
}

#[test]
fn largest_literal() {
    let mut e = Evaluator::new();
    assert_eq!(
        eval_line(&mut e, "9223372036854775807").unwrap(),
        i64::MAX
    );
}

#[test]
fn overflow_is_an_error() {
    let mut e = Evaluator::new();
    let r = eval_line(&mut e, "9223372036854775807 + 1");
    assert!(matches!(r, Err(RunError::Eval(EvalError::Overflow))));
    let r = eval_line(&mut e, "3037000500 * 3037000500");
    assert!(matches!(r, Err(RunError::Eval(EvalError::Overflow))));
}

#[test]
fn left_associative_subtraction_and_division() {
    let mut e = Evaluator::new();
    assert_eq!(eval_line(&mut e, "10 - 3 - 2").unwrap(), 5);
    assert_eq!(eval_line(&mut e, "100 / 10 / 5").unwrap(), 2);
    assert_eq!(eval_line(&mut e, "2 * (3 + 4) - 6 / (1 + 1)").unwrap(), 11);
}

#[test]
fn expected_factor() {
    let mut e = Evaluator::new();
    match eval_line(&mut e, "1 + *") {
        Err(RunError::Eval(EvalError::ExpectedFactor(t))) => assert_eq!(t, Token::OpMult),
        other => panic!("unexpected result {:?}", other),
    }
}

#[test]
fn expected_identifier_in_assignment() {
    let mut e = Evaluator::new();
    match eval_line(&mut e, "1 = 2") {
        Err(RunError::Eval(EvalError::ExpectedIdentifier(t))) => assert_eq!(t, Token::Value(1)),
        other => panic!("unexpected result {:?}", other),
    }
}

#[test]
fn operator_at_end_of_input() {
    let mut e = Evaluator::new();
    let r = eval_line(&mut e, "1 +");
    assert!(matches!(r, Err(RunError::Eval(EvalError::UnexpectedEndOfInput))));
}

#[test]
fn trailing_tokens_are_left_unconsumed() {
    let mut e = Evaluator::new();
    assert_eq!(eval_line(&mut e, "1 + 2 3").unwrap(), 3);
}

#[test]
fn failed_lex_keeps_variables() {
    let mut e = Evaluator::new();
    assert_eq!(eval_line(&mut e, "v = 7").unwrap(), 7);
    assert!(matches!(eval_line(&mut e, "v = 1 #"), Err(RunError::Lex(_))));
    assert_eq!(eval_line(&mut e, "v").unwrap(), 7);
}

#[test]
fn evaluate_tokens_directly() {
    let mut e = Evaluator::new();
    let ts = vec![
        Token::Value(1),
        Token::OpPlus,
        Token::Value(2),
        Token::OpMult,
        Token::Value(3),
    ];
    assert_eq!(e.evaluate(ts).unwrap(), 7);
    let ts = vec![Token::Ident("z".to_string()), Token::Equals, Token::Value(4)];
    assert_eq!(e.evaluate(ts).unwrap(), 4);
    assert_eq!(e.run("z * z").unwrap(), 16);
}

fn nested(depth: usize) -> String {
    let mut s = String::new();
    for _ in 0..depth {
        s.push('(');
    }
    s.push('7');
    for _ in 0..depth {
        s.push(')');
    }
    s
}

#[test]
fn nesting_at_the_limit_is_evaluated() {
    let mut e = Evaluator::new();
    assert_eq!(e.run(&nested(calculator::eval::MAX_NESTING)).unwrap(), 7);
}

#[test]
fn nesting_past_the_limit_is_refused() {
    let mut e = Evaluator::new();
    let r = e.run(&nested(calculator::eval::MAX_NESTING + 1));
    assert!(matches!(r, Err(RunError::Eval(EvalError::NestingTooDeep))));
}
