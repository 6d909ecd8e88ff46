use equation_solver::natural::Natural;
use equation_solver::numeric::NumericValue;
use equation_solver::syntax::Syntax;
use equation_solver::token::{Token, TokenType};

fn kinds(tokens: &Vec<Token>) -> Vec<TokenType> {
    tokens.iter().map(|t| t.token).collect()
}

fn texts(tokens: &Vec<Token>) -> Vec<String> {
    tokens.iter().map(|t| t.lexeme.clone()).collect()
}

#[test]
fn scanner_reads_operators() {
    let mut s = Syntax::new("+-*/:;^=(){}");
    let stmts = s.analysis();
    assert!(stmts.is_empty());
    assert_eq!(
        kinds(s.tokens()),
        vec![
            TokenType::Plus,
            TokenType::Minus,
            TokenType::Star,
            TokenType::Over,
            TokenType::Colon,
            TokenType::Semi,
            TokenType::Up,
            TokenType::Eq,
            TokenType::LParen,
            TokenType::RParen,
            TokenType::LBrace,
            TokenType::RBrace,
            TokenType::EoF,
        ]
    );
    assert_eq!(s.tokens()[0].lexeme, "+");
    assert_eq!(s.tokens()[12].lexeme, "\0");
}

#[test]
fn scanner_reads_words_and_keywords() {
    let mut s = Syntax::new("state+speed*and(or)");
    s.analysis();
    assert_eq!(
        kinds(s.tokens()),
        vec![
            TokenType::State,
            TokenType::Plus,
            TokenType::Ident,
            TokenType::Star,
            TokenType::And,
            TokenType::LParen,
            TokenType::Or,
            TokenType::RParen,
            TokenType::EoF,
        ]
    );
    assert_eq!(
        texts(s.tokens()),
        vec!["state", "+", "speed", "*", "and", "(", "or", ")", "\0"]
    );
}

#[test]
fn scanner_reads_a_relation_with_its_equals_sign() {
    let mut s = Syntax::new("a>=b");
    s.analysis();
    assert_eq!(
        kinds(s.tokens()),
        vec![TokenType::Ident, TokenType::GreaterEq, TokenType::Ident, TokenType::EoF]
    );
    assert_eq!(texts(s.tokens()), vec!["a", ">=", "b", "\0"]);
    let mut t = Syntax::new("!<>!=<===");
    t.analysis();
    assert_eq!(
        kinds(t.tokens()),
        vec![
            TokenType::Not,
            TokenType::Less,
            TokenType::Greater,
            TokenType::NotEq,
            TokenType::LessEq,
            TokenType::Eq,
            TokenType::Eq,
            TokenType::EoF,
        ]
    );
    assert_eq!(texts(t.tokens()), vec!["!", "<", ">", "!=", "<=", "=", "=", "\0"]);
    let mut u = Syntax::new("<=");
    u.analysis();
    assert_eq!(kinds(u.tokens()), vec![TokenType::LessEq, TokenType::EoF]);
    assert_eq!(u.tokens()[0].lexeme, "<=");
}

#[test]
fn scanner_reads_numbers_and_marks_unknown_characters() {
    let mut s = Syntax::new("x1 = 2");
    s.analysis();
    assert_eq!(
        kinds(s.tokens()),
        vec![
            TokenType::Ident,
            TokenType::Number,
            TokenType::Unknown,
            TokenType::Eq,
            TokenType::Unknown,
            TokenType::Number,
            TokenType::EoF,
        ]
    );
    assert_eq!(texts(s.tokens()), vec!["x", "1", " ", "=", " ", "2", "\0"]);
    assert!(s.tokens()[1].lt.as_ref().unwrap().equals(&whole(1)));
    assert!(s.tokens()[5].lt.as_ref().unwrap().equals(&whole(2)));
}

fn whole(n: u64) -> NumericValue {
    NumericValue::integer(true, Natural::from_u64(n))
}

fn frac(n: u64, d: u64) -> NumericValue {
    NumericValue::ratio(true, whole(n), whole(d)).unwrap()
}

fn only_number(text: &'static str) -> NumericValue {
    let mut s = Syntax::new(text);
    s.analysis();
    assert_eq!(kinds(s.tokens()), vec![TokenType::Number, TokenType::EoF]);
    assert_eq!(s.tokens()[0].lexeme, text);
    s.tokens()[0].lt.as_ref().unwrap().duplicate()
}

#[test]
fn scanner_reads_a_whole_number_as_one_token() {
    let v = only_number("12");
    assert!(v.equals(&whole(12)));
    assert!(v.sign());
    assert_eq!(v.base(), 10);
    assert_eq!(v.magnitude().to_u64(), Some(12));
    assert_eq!(v.period(), None);
    assert_eq!(v.exponent(), None);
    assert!(v.fraction().is_none());
    assert!(only_number("0").equals(&whole(0)));
    assert!(only_number("007").equals(&whole(7)));
    let big = only_number("18446744073709551616");
    assert!(big.equals(&NumericValue::integer(
        true,
        Natural::from_u64(u64::MAX).add(&Natural::one())
    )));
}

#[test]
fn scanner_reads_decimals_and_repeating_digits() {
    let v = only_number("0.25");
    assert!(v.equals(&frac(1, 4)));
    assert_eq!(v.magnitude().to_u64(), Some(25));
    assert_eq!(v.exponent(), Some(-2));
    assert_eq!(v.period(), None);
    let third = only_number("0.(3)");
    assert!(third.equals(&frac(1, 3)));
    assert_eq!(third.magnitude().to_u64(), Some(3));
    assert_eq!(third.period(), Some(1));
    assert_eq!(third.exponent(), Some(-1));
    assert!(only_number("3.(3)").equals(&frac(10, 3)));
    assert!(only_number("0.1(6)").equals(&frac(1, 6)));
    assert!(only_number("0.(142857)").equals(&frac(1, 7)));
    let dot = only_number("12.");
    assert!(dot.equals(&whole(12)));
    assert_eq!(dot.exponent(), Some(0));
}

#[test]
fn scanner_reads_bases_and_exponents() {
    let v = only_number("11101_2");
    assert!(v.equals(&whole(29)));
    assert_eq!(v.base(), 2);
    assert_eq!(v.magnitude().to_u64(), Some(29));
    assert!(only_number("5e12").equals(&whole(5_000_000_000_000)));
    assert_eq!(only_number("5e12").exponent(), Some(12));
    // binary 0.1 is one half, and binary 101e3 is forty
    assert!(only_number("0.1_2").equals(&frac(1, 2)));
    assert!(only_number("101_2e3").equals(&whole(40)));
    assert!(only_number("1.5e3").equals(&whole(1500)));
    assert!(only_number("17_8").equals(&whole(15)));
}

#[test]
fn scanner_leaves_out_what_is_no_part_of_a_number() {
    // 9 is no digit of base two, so the base is no part of the literal
    let mut s = Syntax::new("19_2");
    s.analysis();
    assert_eq!(
        kinds(s.tokens()),
        vec![TokenType::Number, TokenType::Unknown, TokenType::Number, TokenType::EoF]
    );
    assert_eq!(texts(s.tokens()), vec!["19", "_", "2", "\0"]);
    // a base below two, an open bracket, empty brackets, a lone e
    let mut t = Syntax::new("7_1");
    t.analysis();
    assert_eq!(texts(t.tokens()), vec!["7", "_", "1", "\0"]);
    let mut u = Syntax::new("1.(3");
    u.analysis();
    assert_eq!(texts(u.tokens()), vec!["1.", "(", "3", "\0"]);
    let mut v = Syntax::new("1.()");
    v.analysis();
    assert_eq!(texts(v.tokens()), vec!["1.", "(", ")", "\0"]);
    let mut w = Syntax::new("5e");
    w.analysis();
    assert_eq!(kinds(w.tokens()), vec![TokenType::Number, TokenType::Ident, TokenType::EoF]);
    let mut x = Syntax::new("2x");
    x.analysis();
    assert_eq!(texts(x.tokens()), vec!["2", "x", "\0"]);
}

#[test]
fn scanner_words_stop_at_ascii_that_is_no_letter() {
    let mut s = Syntax::new("x_y z9");
    s.analysis();
    assert_eq!(texts(s.tokens()), vec!["x", "_", "y", " ", "z", "9", "\0"]);
    // on ASCII the standard library calls exactly the letters alphabetic
    for code in 0u8..128 {
        let c = code as char;
        assert_eq!(c.is_alphabetic(), c.is_ascii_alphabetic());
    }
}

#[test]
fn scanner_words_run_over_alphabetic_characters() {
    // a word starts at an ASCII letter and runs over every alphabetic character
    let mut s = Syntax::new("x\u{e9}\u{3b1}+\u{e9}");
    s.analysis();
    assert_eq!(
        kinds(s.tokens()),
        vec![TokenType::Ident, TokenType::Plus, TokenType::Unknown, TokenType::EoF]
    );
    assert_eq!(texts(s.tokens()), vec!["x\u{e9}\u{3b1}", "+", "\u{e9}", "\0"]);
}

#[test]
fn scanner_on_empty_text_and_on_a_second_run() {
    let mut s = Syntax::new("");
    s.analysis();
    assert_eq!(kinds(s.tokens()), vec![TokenType::EoF]);
    let mut t = Syntax::new("a");
    t.analysis();
    t.analysis();
    assert_eq!(kinds(t.tokens()), vec![TokenType::Ident, TokenType::EoF, TokenType::EoF]);
}

#[test]
fn token_operator_is_spelled_by_its_kind() {
    assert_eq!(Token::operator(TokenType::LessEq).lexeme, "<=");
    assert_eq!(Token::operator(TokenType::State).lexeme, "state");
    assert_eq!(Token::operator(TokenType::Number).lexeme, "");
    let t = Token::ident("speed");
    assert_eq!(t.token, TokenType::Ident);
    assert_eq!(t.duplicate().lexeme, "speed");
}

#[test]
fn scanner_only_numbers_carry_a_value() {
    let mut s = Syntax::new("x+y");
    s.analysis();
    assert_eq!(
        kinds(s.tokens()),
        vec![TokenType::Ident, TokenType::Plus, TokenType::Ident, TokenType::EoF]
    );
    assert_eq!(texts(s.tokens()), vec!["x", "+", "y", "\0"]);
    assert!(s.tokens().iter().all(|t| t.lt.is_none()));
    let mut t = Syntax::new("state 12<=k");
    t.analysis();
    for token in t.tokens() {
        assert_eq!(token.lt.is_some(), token.token == TokenType::Number);
    }
    let last = t.tokens().last().unwrap();
    assert_eq!(last.token, TokenType::EoF);
    assert_eq!(last.lexeme, "\0");
    assert!(last.lt.is_none());
    let ends = t.tokens().iter().filter(|t| t.token == TokenType::EoF).count();
    assert_eq!(ends, 1);
}
