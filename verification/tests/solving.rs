use equation_solver::ast::{Expression, Statement};
use equation_solver::environment::Environment;
use equation_solver::error::{FailureReason, SolveError, TerminalStatus};
use equation_solver::log::Rule;
use equation_solver::natural::Natural;
use equation_solver::numeric::NumericValue;
use equation_solver::solve::{solve, solve_for};
use equation_solver::token::{Token, TokenType};

fn whole(n: i64) -> NumericValue {
    NumericValue::integer(n >= 0, Natural::from_u64(n.unsigned_abs()))
}

fn frac(n: i64, d: u64) -> NumericValue {
    NumericValue::ratio(n >= 0, whole(n.abs()), whole(d as i64)).unwrap()
}

fn num(n: i64) -> Expression {
    Expression::Numeric(whole(n))
}

fn var(name: &str) -> Expression {
    Expression::Variable(Token::ident(name))
}

fn bin(l: Expression, op: TokenType, r: Expression) -> Expression {
    Expression::Binary { lhs: Box::new(l), op: Token::operator(op), rhs: Box::new(r) }
}

fn rel(l: Expression, op: TokenType, r: Expression) -> Statement {
    Statement::Equation { lhs: l, op: Some(Token::operator(op)), rhs: Some(r) }
}

fn value_of(e: &Expression) -> &NumericValue {
    match e {
        Expression::Numeric(v) => v,
        _ => panic!("not a number"),
    }
}

fn is_unknown(e: &Expression, name: &str) -> bool {
    match e {
        Expression::Variable(t) => t.lexeme == name,
        _ => false,
    }
}

fn sides(s: &Statement) -> (&Expression, TokenType, &Expression) {
    match s {
        Statement::Equation { lhs, op: Some(op), rhs: Some(rhs) } => (lhs, op.token, rhs),
        _ => panic!("not a relation"),
    }
}

#[test]
fn linear_equation_is_solved_exactly() {
    // 2*x + 3 = 7
    let stmt = rel(
        bin(bin(num(2), TokenType::Star, var("x")), TokenType::Plus, num(3)),
        TokenType::Eq,
        num(7),
    );
    let s = solve(&stmt, &Environment::new()).unwrap();
    assert_eq!(s.status, TerminalStatus::Solved);
    let (lhs, op, rhs) = sides(&s.statement);
    assert!(is_unknown(lhs, "x"));
    assert_eq!(op, TokenType::Eq);
    assert!(value_of(rhs).equals(&whole(2)));
    assert_eq!(s.roots.len(), 1);
    assert!(value_of(&s.roots[0]).equals(&whole(2)));
    assert_eq!(s.log.len(), 3);
    assert_eq!(s.log.get(0).unwrap().rule, Rule::MoveTerm);
    assert_eq!(s.log.get(1).unwrap().rule, Rule::CombineLikeTerms);
    assert_eq!(s.log.get(2).unwrap().rule, Rule::DivideByCoefficient);
    let (last_lhs, _, last_rhs) = sides(&s.log.last().unwrap().statement);
    assert!(is_unknown(last_lhs, "x"));
    assert!(value_of(last_rhs).equals(&whole(2)));
}

#[test]
fn linear_equation_with_fraction_result() {
    // 3*x + 1 = 2  gives  x = 1/3
    let stmt = rel(
        bin(bin(num(3), TokenType::Star, var("x")), TokenType::Plus, num(1)),
        TokenType::Eq,
        num(2),
    );
    let s = solve(&stmt, &Environment::new()).unwrap();
    assert_eq!(s.status, TerminalStatus::Solved);
    assert!(value_of(&s.roots[0]).equals(&frac(1, 3)));
    assert!(!value_of(&s.roots[0]).equals(&frac(1, 2)));
}

#[test]
fn solved_equation_takes_no_step() {
    let stmt = rel(var("x"), TokenType::Eq, num(5));
    let s = solve(&stmt, &Environment::new()).unwrap();
    assert_eq!(s.status, TerminalStatus::Solved);
    assert_eq!(s.log.len(), 0);
    let (lhs, _, rhs) = sides(&s.statement);
    assert!(is_unknown(lhs, "x"));
    assert!(value_of(rhs).equals(&whole(5)));
}

#[test]
fn identity_holds_for_every_value() {
    let stmt = rel(num(5), TokenType::Eq, num(5));
    let s = solve(&stmt, &Environment::new()).unwrap();
    assert_eq!(s.status, TerminalStatus::InfiniteSolutions);
    assert_eq!(s.log.len(), 0);
}

#[test]
fn identity_holds_for_no_value() {
    let stmt = rel(num(5), TokenType::Eq, num(6));
    let s = solve(&stmt, &Environment::new()).unwrap();
    assert_eq!(s.status, TerminalStatus::NoSolution);
}

#[test]
fn inequality_flips_for_negative_coefficient() {
    // -2*x < 6  gives  x > -3
    let stmt = rel(bin(num(-2), TokenType::Star, var("x")), TokenType::Less, num(6));
    let target = String::from("x");
    let s = solve_for(&stmt, &Environment::new(), &target).unwrap();
    assert_eq!(s.status, TerminalStatus::Solved);
    let (lhs, op, rhs) = sides(&s.statement);
    assert!(is_unknown(lhs, "x"));
    assert_eq!(op, TokenType::Greater);
    assert!(value_of(rhs).equals(&whole(-3)));
    assert_eq!(s.log.len(), 2);
    assert_eq!(s.log.get(0).unwrap().rule, Rule::FlipInequality);
    assert_eq!(s.log.get(0).unwrap().rule.name(), "flip-inequality");
    let (flipped_lhs, flipped_op, flipped_rhs) = sides(&s.log.get(0).unwrap().statement);
    assert_eq!(flipped_op, TokenType::Greater);
    assert!(value_of(flipped_rhs).equals(&whole(-6)));
    match flipped_lhs {
        Expression::Binary { lhs, .. } => assert!(value_of(lhs).equals(&whole(2))),
        _ => panic!("not a product"),
    }
    assert_eq!(s.log.get(1).unwrap().rule, Rule::DivideByCoefficient);
}

#[test]
fn quadratic_with_two_whole_roots() {
    // x^2 - 5*x + 6 = 0
    let stmt = rel(
        bin(
            bin(
                bin(var("x"), TokenType::Up, num(2)),
                TokenType::Minus,
                bin(num(5), TokenType::Star, var("x")),
            ),
            TokenType::Plus,
            num(6),
        ),
        TokenType::Eq,
        num(0),
    );
    let s = solve(&stmt, &Environment::new()).unwrap();
    assert_eq!(s.status, TerminalStatus::Solved);
    assert!(s.log.len() > 0);
    assert_eq!(s.roots.len(), 2);
    let a = value_of(&s.roots[0]);
    let b = value_of(&s.roots[1]);
    assert!((a.equals(&whole(2)) && b.equals(&whole(3))) || (a.equals(&whole(3)) && b.equals(&whole(2))));
    assert_eq!(s.log.last().unwrap().rule, Rule::QuadraticFormula);
}

#[test]
fn unbound_name_beside_the_target_is_unresolvable() {
    // x + y = 3, solved for x
    let stmt = rel(bin(var("x"), TokenType::Plus, var("y")), TokenType::Eq, num(3));
    let target = String::from("x");
    match solve_for(&stmt, &Environment::new(), &target) {
        Err(SolveError::UnresolvableSymbol(name)) => assert_eq!(name, "y"),
        _ => panic!("expected an unresolvable symbol"),
    }
}

#[test]
fn two_unknowns_are_unclassified() {
    let stmt = rel(bin(var("x"), TokenType::Plus, var("y")), TokenType::Eq, num(3));
    let s = solve(&stmt, &Environment::new()).unwrap();
    assert_eq!(s.status, TerminalStatus::Failed(FailureReason::UnclassifiedForm));
    assert_eq!(s.log.len(), 0);
}

fn call(name: &str, args: Vec<Expression>) -> Expression {
    Expression::Call { name: Token::ident(name), args }
}

fn group(e: Expression) -> Expression {
    Expression::Grouping(Box::new(e))
}

#[test]
fn distribution_is_the_first_step() {
    // 2 * (x + 3) = 4  gives  x = -1
    let stmt = rel(
        bin(num(2), TokenType::Star, group(bin(var("x"), TokenType::Plus, num(3)))),
        TokenType::Eq,
        num(4),
    );
    let s = solve(&stmt, &Environment::new()).unwrap();
    assert_eq!(s.status, TerminalStatus::Solved);
    assert!(value_of(&s.roots[0]).equals(&whole(-1)));
    assert_eq!(s.log.len(), 4);
    assert_eq!(s.log.get(0).unwrap().rule, Rule::Distribute);
    assert_eq!(s.log.get(1).unwrap().rule, Rule::MoveTerm);
    assert_eq!(s.log.get(2).unwrap().rule, Rule::CombineLikeTerms);
    assert_eq!(s.log.get(3).unwrap().rule, Rule::DivideByCoefficient);
    // after distribution: 2*x + 6 = 4
    let (lhs, _, rhs) = sides(&s.log.get(0).unwrap().statement);
    assert!(value_of(rhs).equals(&whole(4)));
    match lhs {
        Expression::Binary { lhs: product, op, rhs: six } => {
            assert_eq!(op.token, TokenType::Plus);
            assert!(value_of(six).equals(&whole(6)));
            match &**product {
                Expression::Binary { lhs: two, op, rhs: x } => {
                    assert_eq!(op.token, TokenType::Star);
                    assert!(value_of(two).equals(&whole(2)));
                    assert!(is_unknown(x, "x"));
                }
                _ => panic!("not a product"),
            }
        }
        _ => panic!("not a sum"),
    }
}

#[test]
fn unknown_on_both_sides() {
    // 5*x - 3 = 2*x + 9  gives  x = 4
    let stmt = rel(
        bin(bin(num(5), TokenType::Star, var("x")), TokenType::Minus, num(3)),
        TokenType::Eq,
        bin(bin(num(2), TokenType::Star, var("x")), TokenType::Plus, num(9)),
    );
    let s = solve(&stmt, &Environment::new()).unwrap();
    assert_eq!(s.status, TerminalStatus::Solved);
    assert!(value_of(&s.roots[0]).equals(&whole(4)));
    let (lhs, op, rhs) = sides(&s.statement);
    assert!(is_unknown(lhs, "x"));
    assert_eq!(op, TokenType::Eq);
    assert!(value_of(rhs).equals(&whole(4)));
}

#[test]
fn vanishing_coefficient_leaves_an_identity_check() {
    // x + 1 = x + 1 holds always, x + 1 = x + 2 never
    let always = rel(
        bin(var("x"), TokenType::Plus, num(1)),
        TokenType::Eq,
        bin(var("x"), TokenType::Plus, num(1)),
    );
    let s = solve(&always, &Environment::new()).unwrap();
    assert_eq!(s.status, TerminalStatus::InfiniteSolutions);
    assert!(s.roots.is_empty());
    let never = rel(
        bin(var("x"), TokenType::Plus, num(1)),
        TokenType::Eq,
        bin(var("x"), TokenType::Plus, num(2)),
    );
    let s = solve(&never, &Environment::new()).unwrap();
    assert_eq!(s.status, TerminalStatus::NoSolution);
    assert!(s.log.len() > 0);
}

#[test]
fn inequality_with_positive_coefficient_keeps_its_relation() {
    // 3*x >= 6  gives  x >= 2
    let stmt = rel(bin(num(3), TokenType::Star, var("x")), TokenType::GreaterEq, num(6));
    let s = solve(&stmt, &Environment::new()).unwrap();
    assert_eq!(s.status, TerminalStatus::Solved);
    let (_, op, rhs) = sides(&s.statement);
    assert_eq!(op, TokenType::GreaterEq);
    assert!(value_of(rhs).equals(&whole(2)));
    assert_eq!(s.log.len(), 1);
    assert_eq!(s.log.get(0).unwrap().rule, Rule::DivideByCoefficient);
}

#[test]
fn minus_the_unknown_only_flips() {
    // -1*x <= 3  gives  x >= -3
    let stmt = rel(bin(num(-1), TokenType::Star, var("x")), TokenType::LessEq, num(3));
    let s = solve(&stmt, &Environment::new()).unwrap();
    assert_eq!(s.status, TerminalStatus::Solved);
    let (lhs, op, rhs) = sides(&s.statement);
    assert!(is_unknown(lhs, "x"));
    assert_eq!(op, TokenType::GreaterEq);
    assert!(value_of(rhs).equals(&whole(-3)));
    assert_eq!(s.log.len(), 1);
    assert_eq!(s.log.get(0).unwrap().rule, Rule::FlipInequality);
}

#[test]
fn bound_names_stand_for_their_values() {
    // k*x = 12 with k = 4
    let mut env = Environment::new();
    env.bind(String::from("k"), whole(4));
    let stmt = rel(bin(var("k"), TokenType::Star, var("x")), TokenType::Eq, num(12));
    let s = solve(&stmt, &env).unwrap();
    assert_eq!(s.status, TerminalStatus::Solved);
    assert!(value_of(&s.roots[0]).equals(&whole(3)));
    assert_eq!(s.log.get(0).unwrap().rule, Rule::Distribute);
}

#[test]
fn function_calls_are_multiplied_out() {
    // f(t) = 2*t + 1;  f(x) = 7  gives  x = 3
    let mut env = Environment::new();
    env.define(
        String::from("f"),
        vec![String::from("t")],
        bin(bin(num(2), TokenType::Star, var("t")), TokenType::Plus, num(1)),
    );
    let stmt = rel(call("f", vec![var("x")]), TokenType::Eq, num(7));
    let s = solve(&stmt, &env).unwrap();
    assert_eq!(s.status, TerminalStatus::Solved);
    assert!(value_of(&s.roots[0]).equals(&whole(3)));
    // nested: f(f(x)) = 4*x + 3 = 11 gives x = 2
    let nested = rel(call("f", vec![call("f", vec![var("x")])]), TokenType::Eq, num(11));
    let s = solve(&nested, &env).unwrap();
    assert!(value_of(&s.roots[0]).equals(&whole(2)));
}

#[test]
fn call_with_wrong_number_of_arguments_matches_no_rule() {
    let mut env = Environment::new();
    env.define(String::from("f"), vec![String::from("t")], var("t"));
    let stmt = rel(call("f", vec![var("x"), num(1)]), TokenType::Eq, num(7));
    let s = solve(&stmt, &env).unwrap();
    assert_eq!(s.status, TerminalStatus::Failed(FailureReason::NoApplicableRule));
}

#[test]
fn endless_calls_hit_the_limit() {
    let mut env = Environment::new();
    env.define(String::from("f"), vec![String::from("t")], call("f", vec![var("t")]));
    let stmt = rel(call("f", vec![var("x")]), TokenType::Eq, num(1));
    let s = solve(&stmt, &env).unwrap();
    assert_eq!(s.status, TerminalStatus::Failed(FailureReason::IterationLimitExceeded));
    assert_eq!(s.log.len(), 0);
}

#[test]
fn unbound_name_in_a_function_body_is_undefined() {
    let mut env = Environment::new();
    env.define(String::from("f"), vec![String::from("t")], bin(var("t"), TokenType::Plus, var("q")));
    let stmt = rel(call("f", vec![var("x")]), TokenType::Eq, num(1));
    match solve(&stmt, &env) {
        Err(SolveError::UndefinedSymbol(name)) => assert_eq!(name, "q"),
        _ => panic!("expected an undefined symbol"),
    }
}

#[test]
fn undefined_function_in_a_function_body() {
    let mut env = Environment::new();
    env.define(String::from("f"), vec![String::from("t")], call("g", vec![var("t")]));
    let stmt = rel(call("f", vec![var("x")]), TokenType::Eq, num(1));
    match solve(&stmt, &env) {
        Err(SolveError::UndefinedFunction(name)) => assert_eq!(name, "g"),
        _ => panic!("expected an undefined function"),
    }
}

#[test]
fn division_by_zero_fails_the_solve() {
    // x / 0 = 1
    let stmt = rel(bin(var("x"), TokenType::Over, num(0)), TokenType::Eq, num(1));
    let s = solve(&stmt, &Environment::new()).unwrap();
    assert_eq!(s.status, TerminalStatus::Failed(FailureReason::DivisionByZero));
    // 0 ^ -1 = x
    let stmt = rel(bin(num(0), TokenType::Up, num(-1)), TokenType::Eq, var("x"));
    let s = solve(&stmt, &Environment::new()).unwrap();
    assert_eq!(s.status, TerminalStatus::Failed(FailureReason::DivisionByZero));
}

#[test]
fn product_of_unknowns_matches_no_linear_rule() {
    // x * x = 4 is of degree one by its shape, and of degree two multiplied out
    let stmt = rel(bin(var("x"), TokenType::Star, var("x")), TokenType::Eq, num(4));
    let s = solve(&stmt, &Environment::new()).unwrap();
    assert_eq!(s.status, TerminalStatus::Failed(FailureReason::NoApplicableRule));
    // division by the unknown
    let stmt = rel(bin(num(1), TokenType::Over, var("x")), TokenType::Eq, num(4));
    let s = solve(&stmt, &Environment::new()).unwrap();
    assert_eq!(s.status, TerminalStatus::Failed(FailureReason::NoApplicableRule));
}

#[test]
fn degree_three_is_unsupported() {
    let stmt = rel(bin(var("x"), TokenType::Up, num(3)), TokenType::Eq, num(8));
    let s = solve(&stmt, &Environment::new()).unwrap();
    assert_eq!(s.status, TerminalStatus::Failed(FailureReason::DegreeUnsupported));
    assert_eq!(s.log.len(), 0);
}

#[test]
fn statements_that_are_no_relation_are_unclassified() {
    let env = Environment::new();
    let bare = Statement::Equation { lhs: num(3), op: None, rhs: None };
    assert_eq!(
        solve(&bare, &env).unwrap().status,
        TerminalStatus::Failed(FailureReason::UnclassifiedForm)
    );
    let state = Statement::State { name: Token::ident("x"), lt: num(3) };
    assert_eq!(
        solve(&state, &env).unwrap().status,
        TerminalStatus::Failed(FailureReason::UnclassifiedForm)
    );
}

#[test]
fn identity_check_with_an_order_relation() {
    let env = Environment::new();
    let holds = rel(num(2), TokenType::Less, num(3));
    assert_eq!(solve(&holds, &env).unwrap().status, TerminalStatus::InfiniteSolutions);
    let fails = rel(num(3), TokenType::Less, num(3));
    assert_eq!(solve(&fails, &env).unwrap().status, TerminalStatus::NoSolution);
    let differs = rel(num(3), TokenType::NotEq, num(4));
    assert_eq!(solve(&differs, &env).unwrap().status, TerminalStatus::InfiniteSolutions);
}

#[test]
fn quadratic_with_one_root() {
    // x^2 + 2*x + 1 = 0  gives  x = -1
    let stmt = rel(
        bin(
            bin(
                bin(var("x"), TokenType::Up, num(2)),
                TokenType::Plus,
                bin(num(2), TokenType::Star, var("x")),
            ),
            TokenType::Plus,
            num(1),
        ),
        TokenType::Eq,
        num(0),
    );
    let s = solve(&stmt, &Environment::new()).unwrap();
    assert_eq!(s.status, TerminalStatus::Solved);
    assert_eq!(s.roots.len(), 1);
    assert!(value_of(&s.roots[0]).equals(&whole(-1)));
    let (lhs, _, rhs) = sides(&s.statement);
    assert!(is_unknown(lhs, "x"));
    assert!(value_of(rhs).equals(&whole(-1)));
}

#[test]
fn quadratic_with_fraction_roots() {
    // 4*x^2 = 1  gives  x = -1/2 or x = 1/2
    let stmt = rel(
        bin(num(4), TokenType::Star, bin(var("x"), TokenType::Up, num(2))),
        TokenType::Eq,
        num(1),
    );
    let s = solve(&stmt, &Environment::new()).unwrap();
    assert_eq!(s.status, TerminalStatus::Solved);
    assert_eq!(s.roots.len(), 2);
    assert!(value_of(&s.roots[0]).equals(&frac(-1, 2)));
    assert!(value_of(&s.roots[1]).equals(&frac(1, 2)));
    assert_eq!(s.log.get(0).unwrap().rule, Rule::Distribute);
    assert_eq!(s.log.get(1).unwrap().rule, Rule::MoveTerm);
    assert_eq!(s.log.get(2).unwrap().rule, Rule::CombineLikeTerms);
    assert_eq!(s.log.get(3).unwrap().rule, Rule::QuadraticFormula);
    match sides(&s.statement).2 {
        Expression::Binary { op, .. } => assert_eq!(op.token, TokenType::Or),
        _ => panic!("expected two alternatives"),
    }
}

#[test]
fn quadratic_without_real_root() {
    // x^2 + 1 = 0
    let stmt = rel(
        bin(bin(var("x"), TokenType::Up, num(2)), TokenType::Plus, num(1)),
        TokenType::Eq,
        num(0),
    );
    let s = solve(&stmt, &Environment::new()).unwrap();
    assert_eq!(s.status, TerminalStatus::NoSolution);
    assert!(s.roots.is_empty());
}

#[test]
fn quadratic_with_roots_that_are_no_fractions() {
    // x^2 - 2 = 0  gives  (0 - sqrt{8}) / 2 and (0 + sqrt{8}) / 2, written out
    let stmt = rel(
        bin(bin(var("x"), TokenType::Up, num(2)), TokenType::Minus, num(2)),
        TokenType::Eq,
        num(0),
    );
    let s = solve(&stmt, &Environment::new()).unwrap();
    assert_eq!(s.status, TerminalStatus::Solved);
    assert_eq!(s.roots.len(), 2);
    let expected_ops = [TokenType::Minus, TokenType::Plus];
    for (root, expected_op) in s.roots.iter().zip(expected_ops.iter()) {
        match root {
            Expression::Grouping(inner) => match &**inner {
                Expression::Binary { lhs: top, op, rhs: bottom } => {
                    assert_eq!(op.token, TokenType::Over);
                    assert!(value_of(bottom).equals(&whole(2)));
                    match &**top {
                        Expression::Binary { lhs: minus_b, op, rhs: root } => {
                            assert_eq!(op.token, *expected_op);
                            assert!(value_of(minus_b).equals(&whole(0)));
                            match &**root {
                                Expression::Function { name, args } => {
                                    assert_eq!(name.lexeme, "sqrt");
                                    assert_eq!(args.len(), 1);
                                    assert!(value_of(&args[0]).equals(&whole(8)));
                                }
                                _ => panic!("expected a square root"),
                            }
                        }
                        _ => panic!("expected a sum"),
                    }
                }
                _ => panic!("expected a quotient"),
            },
            _ => panic!("expected brackets"),
        }
    }
}

#[test]
fn quadratic_whose_square_cancels_matches_no_rule() {
    // x^2 + x = x^2 + 1
    let square = || bin(var("x"), TokenType::Up, num(2));
    let stmt = rel(
        bin(square(), TokenType::Plus, var("x")),
        TokenType::Eq,
        bin(square(), TokenType::Plus, num(1)),
    );
    let s = solve(&stmt, &Environment::new()).unwrap();
    assert_eq!(s.status, TerminalStatus::Failed(FailureReason::NoApplicableRule));
    assert!(s.log.len() > 0);
}

#[test]
fn solving_for_a_bound_target_treats_it_as_the_unknown() {
    let mut env = Environment::new();
    env.bind(String::from("x"), whole(100));
    let stmt = rel(bin(var("x"), TokenType::Plus, num(1)), TokenType::Eq, num(3));
    let s = solve_for(&stmt, &env, &String::from("x")).unwrap();
    assert_eq!(s.status, TerminalStatus::Solved);
    assert!(value_of(&s.roots[0]).equals(&whole(2)));
    // without a target the name stands for its value: 101 = 3 never holds
    let s = solve(&stmt, &env).unwrap();
    assert_eq!(s.status, TerminalStatus::NoSolution);
}

#[test]
fn rule_names_are_stable() {
    assert_eq!(Rule::Distribute.name(), "distribute");
    assert_eq!(Rule::MoveTerm.name(), "move-term");
    assert_eq!(Rule::CombineLikeTerms.name(), "combine-like-terms");
    assert_eq!(Rule::FlipInequality.name(), "flip-inequality");
    assert_eq!(Rule::DivideByCoefficient.name(), "divide-by-coefficient");
    assert_eq!(Rule::QuadraticFormula.name(), "quadratic-formula");
}
