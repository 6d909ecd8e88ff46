use equation_solver::ast::{Expression, Statement};
use equation_solver::environment::Environment;
use equation_solver::error::{FailureReason, SolveError, TerminalStatus};
use equation_solver::log::Rule;
use equation_solver::natural::Natural;
use equation_solver::numeric::NumericValue;
use equation_solver::session::declare;
use equation_solver::solve::{solve, solve_for};
use equation_solver::syntax::Syntax;
use equation_solver::token::TokenType;

fn whole(n: i64) -> NumericValue {
    NumericValue::integer(n >= 0, Natural::from_u64(n.unsigned_abs()))
}

fn frac(n: i64, d: u64) -> NumericValue {
    NumericValue::ratio(n >= 0, whole(n.abs()), whole(d as i64)).unwrap()
}

fn read(text: &'static str) -> Vec<Statement> {
    let mut s = Syntax::new(text);
    s.analysis().iter().map(|stmt| stmt.duplicate()).collect()
}

fn read_one(text: &'static str) -> Statement {
    let mut all = read(text);
    assert_eq!(all.len(), 1);
    all.pop().unwrap()
}

fn value_of(e: &Expression) -> &NumericValue {
    match e {
        Expression::Numeric(v) => v,
        _ => panic!("not a number"),
    }
}

fn is_name(e: &Expression, name: &str) -> bool {
    match e {
        Expression::Variable(t) => t.lexeme == name,
        _ => false,
    }
}

fn sides(s: &Statement) -> (&Expression, TokenType, &Expression) {
    match s {
        Statement::Equation { lhs, op: Some(op), rhs: Some(rhs) } => (lhs, op.token, rhs),
        _ => panic!("not a relation"),
    }
}

fn parts(e: &Expression) -> (&Expression, TokenType, &Expression) {
    match e {
        Expression::Binary { lhs, op, rhs } => (lhs, op.token, rhs),
        _ => panic!("not joined by an operator"),
    }
}

#[test]
fn reading_gives_the_tree_of_a_linear_equation() {
    // (3 * x + 1) = 2
    let stmt = read_one("3*x+1=2");
    let (lhs, op, rhs) = sides(&stmt);
    assert_eq!(op, TokenType::Eq);
    assert!(value_of(rhs).equals(&whole(2)));
    let (product, plus, one) = parts(lhs);
    assert_eq!(plus, TokenType::Plus);
    assert!(value_of(one).equals(&whole(1)));
    let (three, star, x) = parts(product);
    assert_eq!(star, TokenType::Star);
    assert!(value_of(three).equals(&whole(3)));
    assert!(is_name(x, "x"));
}

#[test]
fn reading_then_solving_a_linear_equation() {
    let s = solve(&read_one("3*x+1=2"), &Environment::new()).unwrap();
    assert_eq!(s.status, TerminalStatus::Solved);
    let (lhs, op, rhs) = sides(&s.statement);
    assert!(is_name(lhs, "x"));
    assert_eq!(op, TokenType::Eq);
    assert!(value_of(rhs).equals(&frac(1, 3)));
    assert!(s.log.len() > 0);
    let (last_lhs, _, _) = sides(&s.log.last().unwrap().statement);
    assert!(is_name(last_lhs, "x"));
    let t = solve(&read_one("2*x + 3 = 7"), &Environment::new()).unwrap();
    assert!(value_of(&t.roots[0]).equals(&whole(2)));
}

#[test]
fn reading_then_solving_a_solved_equation() {
    let s = solve(&read_one("x = 5"), &Environment::new()).unwrap();
    assert_eq!(s.status, TerminalStatus::Solved);
    assert_eq!(s.log.len(), 0);
    let (lhs, _, rhs) = sides(&s.statement);
    assert!(is_name(lhs, "x"));
    assert!(value_of(rhs).equals(&whole(5)));
}

#[test]
fn reading_then_checking_identities() {
    let env = Environment::new();
    assert_eq!(solve(&read_one("5=5"), &env).unwrap().status, TerminalStatus::InfiniteSolutions);
    assert_eq!(solve(&read_one("5=6"), &env).unwrap().status, TerminalStatus::NoSolution);
    assert_eq!(
        solve(&read_one("0.(3)=1/3"), &env).unwrap().status,
        TerminalStatus::InfiniteSolutions
    );
    assert_eq!(solve(&read_one("0.3=1/3"), &env).unwrap().status, TerminalStatus::NoSolution);
}

#[test]
fn reading_then_solving_an_inequality() {
    let stmt = read_one("-2*x<6");
    let (lhs, op, _) = sides(&stmt);
    assert_eq!(op, TokenType::Less);
    let (minus_two, star, _) = parts(lhs);
    assert_eq!(star, TokenType::Star);
    assert!(value_of(minus_two).equals(&whole(-2)));
    let s = solve_for(&stmt, &Environment::new(), &String::from("x")).unwrap();
    assert_eq!(s.status, TerminalStatus::Solved);
    let (lhs, op, rhs) = sides(&s.statement);
    assert!(is_name(lhs, "x"));
    assert_eq!(op, TokenType::Greater);
    assert!(value_of(rhs).equals(&whole(-3)));
    assert_eq!(s.log.get(0).unwrap().rule, Rule::FlipInequality);
}

#[test]
fn reading_then_solving_a_quadratic() {
    for text in ["x^2-5*x+6=0", "x^2 - 5x + 6 = 0"] {
        let s = solve(&read_one(text), &Environment::new()).unwrap();
        assert_eq!(s.status, TerminalStatus::Solved);
        assert!(s.log.len() > 0);
        assert_eq!(s.roots.len(), 2);
        let a = value_of(&s.roots[0]);
        let b = value_of(&s.roots[1]);
        assert!(
            (a.equals(&whole(2)) && b.equals(&whole(3)))
                || (a.equals(&whole(3)) && b.equals(&whole(2)))
        );
    }
}

#[test]
fn reading_then_solving_with_an_unbound_name() {
    let stmt = read_one("x + n = 3");
    match solve_for(&stmt, &Environment::new(), &String::from("x")) {
        Err(SolveError::UnresolvableSymbol(name)) => assert_eq!(name, "n"),
        _ => panic!("expected an unresolvable symbol"),
    }
    let s = solve(&stmt, &Environment::new()).unwrap();
    assert_eq!(s.status, TerminalStatus::Failed(FailureReason::UnclassifiedForm));
}

#[test]
fn reading_several_statements_fills_the_session() {
    let stmts = read("state k = 4; f(t) = 2t + 1; f(x) + k = 11");
    assert_eq!(stmts.len(), 3);
    assert!(matches!(stmts[0], Statement::State { .. }));
    assert!(matches!(stmts[1], Statement::Function { .. }));
    let mut env = Environment::new();
    assert!(declare(&stmts[0], &mut env).is_ok());
    assert!(declare(&stmts[1], &mut env).is_ok());
    let s = solve(&stmts[2], &env).unwrap();
    assert_eq!(s.status, TerminalStatus::Solved);
    assert!(value_of(&s.roots[0]).equals(&whole(3)));
}

#[test]
fn reading_respects_precedence_and_signs() {
    // 1 + 2 * 3 ^ 2 = 19, and -3 ^ 2 = -9, and 2 ^ 3 ^ 2 = 512
    let env = Environment::new();
    let holds = |text: &'static str| solve(&read_one(text), &env).unwrap().status;
    assert_eq!(holds("1 + 2 * 3 ^ 2 = 19"), TerminalStatus::InfiniteSolutions);
    assert_eq!(holds("-3 ^ 2 = 0 - 9"), TerminalStatus::InfiniteSolutions);
    assert_eq!(holds("2 ^ 3 ^ 2 = 512"), TerminalStatus::InfiniteSolutions);
    assert_eq!(holds("10 - 4 - 3 = 3"), TerminalStatus::InfiniteSolutions);
    assert_eq!(holds("24 / 4 / 2 = 3"), TerminalStatus::InfiniteSolutions);
    assert_eq!(holds("2 * (4 - 3) = 2"), TerminalStatus::InfiniteSolutions);
    assert_eq!(holds("2(4 - 3) = 2"), TerminalStatus::InfiniteSolutions);
    assert_eq!(holds("frac{12}{3} = 4"), TerminalStatus::InfiniteSolutions);
    assert_eq!(holds("+5 = --5"), TerminalStatus::InfiniteSolutions);
    assert_eq!(holds("2 ^ -1 = 0.5"), TerminalStatus::InfiniteSolutions);
    assert_eq!(holds("1 + 1 >= 2"), TerminalStatus::InfiniteSolutions);
    assert_eq!(holds("1 + 1 != 2"), TerminalStatus::NoSolution);
}

#[test]
fn reading_shapes_of_primaries() {
    let bare = read_one("sqrt{12}");
    match bare {
        Statement::Equation { lhs: Expression::Function { name, args }, op: None, rhs: None } => {
            assert_eq!(name.lexeme, "sqrt");
            assert_eq!(args.len(), 1);
            assert!(value_of(&args[0]).equals(&whole(12)));
        }
        _ => panic!("expected a built-in function"),
    }
    match read_one("f(5) = y") {
        Statement::Equation { lhs: Expression::Call { name, args }, .. } => {
            assert_eq!(name.lexeme, "f");
            assert!(value_of(&args[0]).equals(&whole(5)));
        }
        _ => panic!("expected a call"),
    }
    match read_one("(x) = 1") {
        Statement::Equation { lhs: Expression::Grouping(inner), .. } => {
            assert!(is_name(&inner, "x"))
        }
        _ => panic!("expected brackets"),
    }
    match read_one("-x = 1") {
        Statement::Equation { lhs, .. } => {
            let (minus_one, star, x) = parts(&lhs);
            assert_eq!(star, TokenType::Star);
            assert!(value_of(minus_one).equals(&whole(-1)));
            assert!(is_name(x, "x"));
        }
        _ => panic!("expected a relation"),
    }
    match read_one("f(x) = x + 1") {
        Statement::Function { name, params, .. } => {
            assert_eq!(name.lexeme, "f");
            assert_eq!(params.len(), 1);
            assert_eq!(params[0].lexeme, "x");
        }
        _ => panic!("expected a definition"),
    }
    match read_one("state speed = 3 * 4") {
        Statement::State { name, .. } => assert_eq!(name.lexeme, "speed"),
        _ => panic!("expected a binding"),
    }
}

#[test]
fn reading_what_is_no_statement_gives_none() {
    assert!(read("").is_empty());
    assert!(read("   ").is_empty());
    assert!(read(";;").is_empty());
    assert!(read("x + = 3").is_empty());
    assert!(read("(x = 3").is_empty());
    assert!(read("x = 3 = 4").is_empty());
    assert!(read("x ? 3").is_empty());
    assert!(read("state = 3").is_empty());
    assert!(read("frac{1 = 2").is_empty());
    // a stretch that is no statement does not keep the next from being read
    let stmts = read("x + = 3; x = 4");
    assert_eq!(stmts.len(), 1);
    let (lhs, _, rhs) = sides(&stmts[0]);
    assert!(is_name(lhs, "x"));
    assert!(value_of(rhs).equals(&whole(4)));
}

#[test]
fn reading_twice_reads_no_statement_twice() {
    let mut s = Syntax::new("x = 1; y = 2");
    assert_eq!(s.analysis().len(), 2);
    assert_eq!(s.analysis().len(), 2);
    assert_eq!(s.statements_read().len(), 2);
}
