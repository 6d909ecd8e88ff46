use equation_solver::ast::{Expression, Statement};
use equation_solver::classify::{classify, classify_for, ProblemKind};
use equation_solver::environment::{Entry, Environment};
use equation_solver::error::SolveError;
use equation_solver::expand::Stop;
use equation_solver::natural::Natural;
use equation_solver::numeric::NumericValue;
use equation_solver::session::{declare, evaluate};
use equation_solver::token::{Token, TokenType};

fn whole(n: i64) -> NumericValue {
    NumericValue::integer(n >= 0, Natural::from_u64(n.unsigned_abs()))
}

fn num(n: i64) -> Expression {
    Expression::Numeric(whole(n))
}

fn var(name: &str) -> Expression {
    Expression::Variable(Token::ident(name))
}

fn bin(l: Expression, op: TokenType, r: Expression) -> Expression {
    Expression::Binary { lhs: Box::new(l), op: Token::operator(op), rhs: Box::new(r) }
}

fn rel(l: Expression, op: TokenType, r: Expression) -> Statement {
    Statement::Equation { lhs: l, op: Some(Token::operator(op)), rhs: Some(r) }
}

fn name(text: &str) -> String {
    String::from(text)
}

#[test]
fn environment_resolves_what_was_bound() {
    let mut env = Environment::new();
    assert!(env.lookup(&name("x")).is_none());
    env.bind(name("x"), whole(5));
    assert!(env.resolve(&name("x")).unwrap().equals(&whole(5)));
    env.bind(name("y"), whole(7));
    assert!(env.resolve(&name("x")).unwrap().equals(&whole(5)));
    assert!(env.resolve(&name("y")).unwrap().equals(&whole(7)));
}

#[test]
fn environment_later_binding_replaces_earlier() {
    let mut env = Environment::new();
    env.bind(name("x"), whole(5));
    env.bind(name("x"), whole(6));
    assert!(env.resolve(&name("x")).unwrap().equals(&whole(6)));
    env.define(name("x"), vec![name("t")], var("t"));
    assert!(env.resolve(&name("x")).is_err());
    assert!(env.lookup_function(&name("x")).is_ok());
}

#[test]
fn environment_reports_undefined_symbol() {
    let env = Environment::new();
    match env.resolve(&name("speed")) {
        Err(SolveError::UndefinedSymbol(n)) => assert_eq!(n, "speed"),
        _ => panic!("expected an undefined symbol"),
    }
}

#[test]
fn environment_reports_undefined_function() {
    let mut env = Environment::new();
    env.bind(name("f"), whole(1));
    match env.lookup_function(&name("f")) {
        Err(SolveError::UndefinedFunction(n)) => assert_eq!(n, "f"),
        _ => panic!("expected an undefined function"),
    }
    match env.lookup_function(&name("g")) {
        Err(e) => assert_eq!(e.name(), "g"),
        _ => panic!("expected an undefined function"),
    }
}

#[test]
fn environment_keeps_function_definitions() {
    let mut env = Environment::new();
    env.define(name("f"), vec![name("a"), name("b")], bin(var("a"), TokenType::Plus, var("b")));
    let def = env.lookup_function(&name("f")).unwrap();
    assert_eq!(def.params, vec![name("a"), name("b")]);
    match env.lookup(&name("f")) {
        Some(Entry::Function(_)) => {}
        _ => panic!("expected a function"),
    }
}

#[test]
fn classifier_finds_the_kind() {
    let env = Environment::new();
    let identity = rel(num(5), TokenType::Eq, num(5));
    let d = classify(&identity, &env).unwrap();
    assert!(matches!(d.kind, ProblemKind::IdentityCheck));
    assert!(d.target.is_none());

    let linear = rel(bin(num(2), TokenType::Star, var("x")), TokenType::Eq, num(4));
    let d = classify(&linear, &env).unwrap();
    assert!(matches!(d.kind, ProblemKind::Linear));
    assert_eq!(d.target, Some(name("x")));

    let inequality = rel(var("x"), TokenType::LessEq, num(4));
    let d = classify(&inequality, &env).unwrap();
    assert!(matches!(d.kind, ProblemKind::Inequality));

    let cubic = rel(bin(var("x"), TokenType::Up, num(3)), TokenType::Eq, num(8));
    let d = classify(&cubic, &env).unwrap();
    match d.kind {
        ProblemKind::Polynomial(degree) => assert_eq!(degree.to_u64(), Some(3)),
        _ => panic!("expected a polynomial"),
    }

    let both_sides = rel(
        bin(var("x"), TokenType::Up, num(2)),
        TokenType::Eq,
        bin(var("x"), TokenType::Up, num(4)),
    );
    let d = classify(&both_sides, &env).unwrap();
    match d.kind {
        ProblemKind::Polynomial(degree) => assert_eq!(degree.to_u64(), Some(4)),
        _ => panic!("expected a polynomial"),
    }
}

#[test]
fn classifier_calls_the_rest_unsupported() {
    let env = Environment::new();
    let two = rel(bin(var("x"), TokenType::Plus, var("y")), TokenType::Eq, num(3));
    assert!(matches!(classify(&two, &env).unwrap().kind, ProblemKind::Unsupported));
    let bare = Statement::Equation { lhs: num(3), op: None, rhs: None };
    assert!(matches!(classify(&bare, &env).unwrap().kind, ProblemKind::Unsupported));
    let state = Statement::State { name: Token::ident("x"), lt: num(3) };
    assert!(matches!(classify(&state, &env).unwrap().kind, ProblemKind::Unsupported));
    let square_inequality = rel(bin(var("x"), TokenType::Up, num(2)), TokenType::Less, num(4));
    assert!(matches!(classify(&square_inequality, &env).unwrap().kind, ProblemKind::Unsupported));
    let in_exponent = rel(bin(num(2), TokenType::Up, var("x")), TokenType::Eq, num(4));
    assert!(matches!(classify(&in_exponent, &env).unwrap().kind, ProblemKind::Unsupported));
    let not_a_relation = Statement::Equation {
        lhs: var("x"),
        op: Some(Token::operator(TokenType::Plus)),
        rhs: Some(num(1)),
    };
    assert!(matches!(classify(&not_a_relation, &env).unwrap().kind, ProblemKind::Unsupported));
}

#[test]
fn classifier_counts_bound_names_out() {
    let mut env = Environment::new();
    env.bind(name("y"), whole(2));
    let stmt = rel(bin(var("x"), TokenType::Plus, var("y")), TokenType::Eq, num(3));
    let d = classify(&stmt, &env).unwrap();
    assert!(matches!(d.kind, ProblemKind::Linear));
    assert_eq!(d.target, Some(name("x")));
}

#[test]
fn classifier_refuses_a_call_without_definition() {
    let env = Environment::new();
    let stmt = rel(
        Expression::Call { name: Token::ident("f"), args: vec![var("x")] },
        TokenType::Eq,
        num(3),
    );
    match classify(&stmt, &env) {
        Err(SolveError::UnresolvableSymbol(n)) => assert_eq!(n, "f"),
        _ => panic!("expected an unresolvable symbol"),
    }
}

#[test]
fn classifier_with_target_refuses_other_names() {
    let env = Environment::new();
    let stmt = rel(bin(var("x"), TokenType::Plus, var("y")), TokenType::Eq, num(3));
    match classify_for(&stmt, &env, &name("y")) {
        Err(SolveError::UnresolvableSymbol(n)) => assert_eq!(n, "x"),
        _ => panic!("expected an unresolvable symbol"),
    }
    let mut bound = Environment::new();
    bound.bind(name("x"), whole(1));
    let d = classify_for(&stmt, &bound, &name("y")).unwrap();
    assert!(matches!(d.kind, ProblemKind::Linear));
    assert_eq!(d.target, Some(name("y")));
}

#[test]
fn evaluation_gives_the_exact_value() {
    let mut env = Environment::new();
    env.bind(name("k"), whole(4));
    // (k + 2) * 3 / 4 = 9/2
    let e = bin(
        bin(
            Expression::Grouping(Box::new(bin(var("k"), TokenType::Plus, num(2)))),
            TokenType::Star,
            num(3),
        ),
        TokenType::Over,
        num(4),
    );
    let v = evaluate(&e, &env).unwrap();
    let expected = NumericValue::ratio(true, whole(9), whole(2)).unwrap();
    assert!(v.equals(&expected));
    // frac{1}{3} + 2 ^ -1 = 5/6
    let f = bin(
        Expression::Function { name: Token::ident("frac"), args: vec![num(1), num(3)] },
        TokenType::Plus,
        bin(num(2), TokenType::Up, num(-1)),
    );
    let v = evaluate(&f, &env).unwrap();
    assert!(v.equals(&NumericValue::ratio(true, whole(5), whole(6)).unwrap()));
}

#[test]
fn evaluation_fails_on_an_unbound_name() {
    let env = Environment::new();
    match evaluate(&var("x"), &env) {
        Err(Stop::Symbol(SolveError::UndefinedSymbol(n))) => assert_eq!(n, "x"),
        _ => panic!("expected an undefined symbol"),
    }
}

#[test]
fn declarations_fill_the_environment() {
    let mut env = Environment::new();
    let state = Statement::State {
        name: Token::ident("x"),
        lt: bin(num(2), TokenType::Plus, num(3)),
    };
    assert!(declare(&state, &mut env).is_ok());
    assert!(env.resolve(&name("x")).unwrap().equals(&whole(5)));
    // a later binding sees the earlier one
    let again = Statement::State {
        name: Token::ident("x"),
        lt: bin(var("x"), TokenType::Star, num(2)),
    };
    assert!(declare(&again, &mut env).is_ok());
    assert!(env.resolve(&name("x")).unwrap().equals(&whole(10)));
    let def = Statement::Function {
        name: Token::ident("double"),
        params: vec![Token::ident("t")],
        body: bin(num(2), TokenType::Star, var("t")),
    };
    assert!(declare(&def, &mut env).is_ok());
    assert_eq!(env.lookup_function(&name("double")).unwrap().params, vec![name("t")]);
    let bad = Statement::State { name: Token::ident("z"), lt: var("nowhere") };
    assert!(declare(&bad, &mut env).is_err());
    assert!(env.lookup(&name("z")).is_none());
}
