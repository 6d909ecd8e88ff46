//! Reading tokens into statements.
//!
//! Statements stand between `;`. A statement is a binding `state x = e`, a
//! definition `f(x) = e`, or two expressions with a relation between them; an
//! expression alone is a statement too. Blanks are passed over. A stretch of
//! tokens that is no statement gives none.

use crate::ast::{forms, lemma_forms, Expression, ExpressionForm, Statement, StatementForm};
use crate::classify::is_relation;
use crate::natural::Natural;
use crate::numeric::{opposite_form, whole_form, NumericValue};
use crate::syntax::{token_forms, TokenForm};
use crate::token::{Token, TokenType};
use vstd::prelude::*;

verus! {

/// The contents of the statements of `s`.
pub open spec fn statement_forms(s: Seq<Statement>) -> Seq<StatementForm> {
    Seq::new(s.len(), |i: int| s[i]@)
}

/// The token at `pos` is of the kind `kind`.
pub open spec fn is_at(t: Seq<TokenForm>, pos: int, kind: TokenType) -> bool {
    0 <= pos < t.len() && t[pos].token == kind
}

/// A part was read from `pos` up to `p`: at least one token, within the
/// tokens.
pub open spec fn moved(t: Seq<TokenForm>, pos: int, p: int) -> bool {
    pos < p <= t.len()
}

/// An expression with a minus sign before it: a number with the opposite
/// sign, anything else multiplied by minus one.
pub open spec fn negative(e: ExpressionForm) -> ExpressionForm {
    match e {
        ExpressionForm::Numeric(v) => ExpressionForm::Numeric(opposite_form(v)),
        other => ExpressionForm::Binary {
            lhs: Box::new(ExpressionForm::Numeric(whole_form(false, 1))),
            op: TokenType::Star,
            rhs: Box::new(other),
        },
    }
}

/// A primary at `pos`, and the position behind it: a number; a name; a call
/// `f(e)`; a built-in function with its arguments in braces, `f{e}{e}`; or an
/// expression in brackets.
pub open spec fn primary(t: Seq<TokenForm>, pos: int) -> Option<(ExpressionForm, int)>
    decreases t.len() - pos, 1int,
{
    if !(0 <= pos < t.len()) {
        None
    } else if t[pos].token == TokenType::Number {
        match t[pos].lt {
            Some(v) => Some((ExpressionForm::Numeric(v), pos + 1)),
            None => None,
        }
    } else if t[pos].token == TokenType::Ident {
        if is_at(t, pos + 1, TokenType::LParen) {
            match expression(t, pos + 2) {
                Some((arg, p)) => if is_at(t, p, TokenType::RParen) {
                    Some((ExpressionForm::Call { name: t[pos].lexeme, args: seq![arg] }, p + 1))
                } else {
                    None
                },
                None => None,
            }
        } else if is_at(t, pos + 1, TokenType::LBrace) {
            groups(t, pos + 1, t[pos].lexeme, Seq::empty())
        } else {
            Some((ExpressionForm::Variable(t[pos].lexeme), pos + 1))
        }
    } else if t[pos].token == TokenType::LParen {
        match expression(t, pos + 1) {
            Some((inner, p)) => if is_at(t, p, TokenType::RParen) {
                Some((ExpressionForm::Grouping(Box::new(inner)), p + 1))
            } else {
                None
            },
            None => None,
        }
    } else {
        None
    }
}

/// The arguments in braces of the built-in function `name` from the brace at
/// `pos` on, behind the arguments `args` that were read already.
pub open spec fn groups(
    t: Seq<TokenForm>,
    pos: int,
    name: Seq<char>,
    args: Seq<ExpressionForm>,
) -> Option<(ExpressionForm, int)>
    decreases t.len() - pos, 0int,
{
    if !is_at(t, pos, TokenType::LBrace) {
        None
    } else {
        match expression(t, pos + 1) {
            Some((arg, p)) => if is_at(t, p, TokenType::RBrace) && pos < p {
                if is_at(t, p + 1, TokenType::LBrace) {
                    groups(t, p + 1, name, args.push(arg))
                } else {
                    Some((ExpressionForm::Function { name, args: args.push(arg) }, p + 1))
                }
            } else {
                None
            },
            None => None,
        }
    }
}

/// A power at `pos`: a primary, raised to what follows a `^`.
pub open spec fn power(t: Seq<TokenForm>, pos: int) -> Option<(ExpressionForm, int)>
    decreases t.len() - pos, 2int,
{
    match primary(t, pos) {
        Some((base, p)) => if is_at(t, p, TokenType::Up) && pos <= p {
            match signed(t, p + 1) {
                Some((exponent, q)) => Some(
                    (
                        ExpressionForm::Binary {
                            lhs: Box::new(base),
                            op: TokenType::Up,
                            rhs: Box::new(exponent),
                        },
                        q,
                    ),
                ),
                None => None,
            }
        } else {
            Some((base, p))
        },
        None => None,
    }
}

/// A power at `pos` with any signs before it.
pub open spec fn signed(t: Seq<TokenForm>, pos: int) -> Option<(ExpressionForm, int)>
    decreases t.len() - pos, 3int,
{
    if is_at(t, pos, TokenType::Minus) {
        match signed(t, pos + 1) {
            Some((e, p)) => Some((negative(e), p)),
            None => None,
        }
    } else if is_at(t, pos, TokenType::Plus) {
        signed(t, pos + 1)
    } else {
        power(t, pos)
    }
}

/// What follows the product `acc` at `pos`: factors behind `*` and `/`, and
/// factors that start with a name or a bracket and stand without a sign of
/// multiplication; all join from the left.
pub open spec fn product_rest(t: Seq<TokenForm>, pos: int, acc: ExpressionForm) -> Option<
    (ExpressionForm, int),
>
    decreases t.len() - pos, 4int,
{
    if is_at(t, pos, TokenType::Star) || is_at(t, pos, TokenType::Over) {
        match signed(t, pos + 1) {
            Some((rhs, p)) => if moved(t, pos, p) {
                product_rest(
                    t,
                    p,
                    ExpressionForm::Binary {
                        lhs: Box::new(acc),
                        op: t[pos].token,
                        rhs: Box::new(rhs),
                    },
                )
            } else {
                None
            },
            None => None,
        }
    } else if is_at(t, pos, TokenType::Ident) || is_at(t, pos, TokenType::LParen) {
        match power(t, pos) {
            Some((rhs, p)) => if moved(t, pos, p) {
                product_rest(
                    t,
                    p,
                    ExpressionForm::Binary {
                        lhs: Box::new(acc),
                        op: TokenType::Star,
                        rhs: Box::new(rhs),
                    },
                )
            } else {
                None
            },
            None => None,
        }
    } else {
        Some((acc, pos))
    }
}

/// A product at `pos`.
pub open spec fn product(t: Seq<TokenForm>, pos: int) -> Option<(ExpressionForm, int)>
    decreases t.len() - pos, 5int,
{
    match signed(t, pos) {
        Some((first, p)) => if moved(t, pos, p) {
            product_rest(t, p, first)
        } else {
            None
        },
        None => None,
    }
}

/// What follows the sum `acc` at `pos`: products behind `+` and `-`, which
/// join from the left.
pub open spec fn sum_rest(t: Seq<TokenForm>, pos: int, acc: ExpressionForm) -> Option<
    (ExpressionForm, int),
>
    decreases t.len() - pos, 6int,
{
    if is_at(t, pos, TokenType::Plus) || is_at(t, pos, TokenType::Minus) {
        match product(t, pos + 1) {
            Some((rhs, p)) => if moved(t, pos, p) {
                sum_rest(
                    t,
                    p,
                    ExpressionForm::Binary {
                        lhs: Box::new(acc),
                        op: t[pos].token,
                        rhs: Box::new(rhs),
                    },
                )
            } else {
                None
            },
            None => None,
        }
    } else {
        Some((acc, pos))
    }
}

/// An expression at `pos`, and the position behind it: a sum of products of
/// signed powers.
pub open spec fn expression(t: Seq<TokenForm>, pos: int) -> Option<(ExpressionForm, int)>
    decreases t.len() - pos, 7int,
{
    match product(t, pos) {
        Some((first, p)) => if moved(t, pos, p) {
            sum_rest(t, p, first)
        } else {
            None
        },
        None => None,
    }
}

/// The tokens start like a definition: `f ( x ) =`.
pub open spec fn is_definition(t: Seq<TokenForm>) -> bool {
    is_at(t, 0, TokenType::Ident) && is_at(t, 1, TokenType::LParen) && is_at(
        t,
        2,
        TokenType::Ident,
    ) && is_at(t, 3, TokenType::RParen) && is_at(t, 4, TokenType::Eq)
}

/// The expression that is all of the tokens from `pos` on.
pub open spec fn whole_expression(t: Seq<TokenForm>, pos: int) -> Option<ExpressionForm> {
    match expression(t, pos) {
        Some((e, p)) => if p == t.len() {
            Some(e)
        } else {
            None
        },
        None => None,
    }
}

/// The statement that the tokens `t` are, all of them: a binding, a
/// definition, a relation between two expressions, or one expression.
pub open spec fn statement_of(t: Seq<TokenForm>) -> Option<StatementForm> {
    if is_at(t, 0, TokenType::State) {
        if is_at(t, 1, TokenType::Ident) && is_at(t, 2, TokenType::Eq) {
            match whole_expression(t, 3) {
                Some(value) => Some(StatementForm::State { name: t[1].lexeme, value }),
                None => None,
            }
        } else {
            None
        }
    } else if is_definition(t) {
        match whole_expression(t, 5) {
            Some(body) => Some(
                StatementForm::Function { name: t[0].lexeme, params: seq![t[2].lexeme], body },
            ),
            None => None,
        }
    } else {
        match expression(t, 0) {
            Some((lhs, p)) => if p == t.len() {
                Some(StatementForm::Equation { lhs, op: None, rhs: None })
            } else if 0 <= p < t.len() && t[p].token.is_relation() {
                match whole_expression(t, p + 1) {
                    Some(rhs) => Some(
                        StatementForm::Equation { lhs, op: Some(t[p].token), rhs: Some(rhs) },
                    ),
                    None => None,
                }
            } else {
                None
            },
            None => None,
        }
    }
}

/// A token for a blank, a tab or the end of a line.
pub open spec fn is_blank(f: TokenForm) -> bool {
    f.token == TokenType::Unknown && (f.lexeme == seq![' '] || f.lexeme == seq!['\t'] || f.lexeme
        == seq!['\n'] || f.lexeme == seq!['\r'])
}

/// A token that ends a statement: `;`, or the end of the input.
pub open spec fn ends_statement(f: TokenForm) -> bool {
    f.token == TokenType::Semi || f.token == TokenType::EoF
}

/// The first position from `from` on that holds a token that ends a
/// statement, or the end of the tokens.
pub open spec fn segment_end(tokens: Seq<TokenForm>, from: int) -> int
    decreases tokens.len() - from,
{
    if 0 <= from < tokens.len() && !ends_statement(tokens[from]) {
        segment_end(tokens, from + 1)
    } else {
        from
    }
}

/// The tokens from `from` up to `to` that are no blanks, in their order.
pub open spec fn significant(tokens: Seq<TokenForm>, from: int, to: int) -> Seq<TokenForm>
    decreases to - from,
{
    if to <= from {
        Seq::empty()
    } else if is_blank(tokens[to - 1]) {
        significant(tokens, from, to - 1)
    } else {
        significant(tokens, from, to - 1).push(tokens[to - 1])
    }
}

/// The statements that the tokens from `from` on are: one for each stretch
/// up to a `;` or the end of the input that is a statement.
pub open spec fn parsed(tokens: Seq<TokenForm>, from: int) -> Seq<StatementForm>
    decreases tokens.len() - from,
{
    if !(0 <= from < tokens.len()) {
        Seq::empty()
    } else {
        let end = segment_end(tokens, from);
        let here = match statement_of(significant(tokens, from, end)) {
            Some(s) => seq![s],
            None => Seq::empty(),
        };
        if from <= end < tokens.len() {
            here + parsed(tokens, end + 1)
        } else {
            here
        }
    }
}


/// What a reading of an expression gave, mathematically.
pub open spec fn shown(r: Option<(Expression, usize)>) -> Option<(ExpressionForm, int)> {
    match r {
        Some((e, p)) => Some((e@, p as int)),
        None => None,
    }
}

/// The content of an optional statement.
pub open spec fn statement_shown(r: Option<Statement>) -> Option<StatementForm> {
    match r {
        Some(s) => Some(s@),
        None => None,
    }
}

/// The content of an optional expression.
pub open spec fn expression_shown(r: Option<Expression>) -> Option<ExpressionForm> {
    match r {
        Some(e) => Some(e@),
        None => None,
    }
}

fn kind_is(t: &Vec<Token>, pos: usize, kind: TokenType) -> (b: bool)
    ensures
        b == is_at(token_forms(t@), pos as int, kind),
{
    pos < t.len() && t[pos].token == kind
}

fn binary(lhs: Expression, op: Token, rhs: Expression) -> (e: Expression)
    ensures
        e@ == (ExpressionForm::Binary {
            lhs: Box::new(lhs@),
            op: op.token,
            rhs: Box::new(rhs@),
        }),
{
    Expression::Binary { lhs: Box::new(lhs), op, rhs: Box::new(rhs) }
}

fn grouping(inner: Expression) -> (e: Expression)
    ensures
        e@ == ExpressionForm::Grouping(Box::new(inner@)),
{
    Expression::Grouping(Box::new(inner))
}

fn with_argument(args: Vec<Expression>, arg: Expression) -> (out: Vec<Expression>)
    ensures
        forms(out@) == forms(args@).push(arg@),
{
    let mut out = args;
    out.push(arg);
    proof {
        lemma_forms(args@);
        lemma_forms(out@);
        assert(forms(out@) =~= forms(args@).push(arg@));
    }
    out
}

fn negate(e: Expression) -> (r: Expression)
    ensures
        r@ == negative(e@),
{
    match e {
        Expression::Numeric(v) => Expression::Numeric(v.opposite()),
        other => binary(
            Expression::Numeric(NumericValue::integer(false, Natural::one())),
            Token::operator(TokenType::Star),
            other,
        ),
    }
}

fn parse_primary(t: &Vec<Token>, pos: usize) -> (r: Option<(Expression, usize)>)
    ensures
        shown(r) == primary(token_forms(t@), pos as int),
    decreases t.len() - pos, 1int,
{
    if pos >= t.len() {
        return None;
    }
    let here = &t[pos];
    match here.token {
        TokenType::Number => match &here.lt {
            Some(v) => Some((Expression::Numeric(v.duplicate()), pos + 1)),
            None => None,
        },
        TokenType::Ident => {
            if kind_is(t, pos + 1, TokenType::LParen) {
                match parse_expression(t, pos + 2) {
                    Some((arg, p)) => {
                        if kind_is(t, p, TokenType::RParen) {
                            let ghost content = arg@;
                            let none: Vec<Expression> = Vec::new();
                            proof {
                                lemma_forms(none@);
                            }
                            let args = with_argument(none, arg);
                            assert(forms(args@) =~= seq![content]);
                            Some((Expression::Call { name: here.duplicate(), args }, p + 1))
                        } else {
                            None
                        }
                    },
                    None => None,
                }
            } else if kind_is(t, pos + 1, TokenType::LBrace) {
                let none: Vec<Expression> = Vec::new();
                proof {
                    lemma_forms(none@);
                    assert(forms(none@) =~= Seq::<ExpressionForm>::empty());
                }
                parse_groups(t, pos + 1, here, none)
            } else {
                Some((Expression::Variable(here.duplicate()), pos + 1))
            }
        },
        TokenType::LParen => {
            match parse_expression(t, pos + 1) {
                Some((inner, p)) => {
                    if kind_is(t, p, TokenType::RParen) {
                        Some((grouping(inner), p + 1))
                    } else {
                        None
                    }
                },
                None => None,
            }
        },
        _ => None,
    }
}

fn parse_groups(t: &Vec<Token>, pos: usize, name: &Token, args: Vec<Expression>) -> (r: Option<
    (Expression, usize),
>)
    ensures
        shown(r) == groups(token_forms(t@), pos as int, name.lexeme@, forms(args@)),
    decreases t.len() - pos, 0int,
{
    if !kind_is(t, pos, TokenType::LBrace) {
        return None;
    }
    match parse_expression(t, pos + 1) {
        Some((arg, p)) => {
            if kind_is(t, p, TokenType::RBrace) && pos < p {
                let more = with_argument(args, arg);
                if kind_is(t, p + 1, TokenType::LBrace) {
                    parse_groups(t, p + 1, name, more)
                } else {
                    Some((Expression::Function { name: name.duplicate(), args: more }, p + 1))
                }
            } else {
                None
            }
        },
        None => None,
    }
}

fn parse_power(t: &Vec<Token>, pos: usize) -> (r: Option<(Expression, usize)>)
    ensures
        shown(r) == power(token_forms(t@), pos as int),
    decreases t.len() - pos, 2int,
{
    match parse_primary(t, pos) {
        Some((base, p)) => {
            if kind_is(t, p, TokenType::Up) && pos <= p {
                match parse_signed(t, p + 1) {
                    Some((exponent, q)) => Some((binary(base, t[p].duplicate(), exponent), q)),
                    None => None,
                }
            } else {
                Some((base, p))
            }
        },
        None => None,
    }
}

fn parse_signed(t: &Vec<Token>, pos: usize) -> (r: Option<(Expression, usize)>)
    ensures
        shown(r) == signed(token_forms(t@), pos as int),
    decreases t.len() - pos, 3int,
{
    if kind_is(t, pos, TokenType::Minus) {
        match parse_signed(t, pos + 1) {
            Some((e, p)) => Some((negate(e), p)),
            None => None,
        }
    } else if kind_is(t, pos, TokenType::Plus) {
        parse_signed(t, pos + 1)
    } else {
        parse_power(t, pos)
    }
}

fn parse_product_rest(t: &Vec<Token>, pos: usize, acc: Expression) -> (r: Option<
    (Expression, usize),
>)
    ensures
        shown(r) == product_rest(token_forms(t@), pos as int, acc@),
    decreases t.len() - pos, 4int,
{
    if kind_is(t, pos, TokenType::Star) || kind_is(t, pos, TokenType::Over) {
        match parse_signed(t, pos + 1) {
            Some((rhs, p)) => {
                if pos < p && p <= t.len() {
                    parse_product_rest(t, p, binary(acc, t[pos].duplicate(), rhs))
                } else {
                    None
                }
            },
            None => None,
        }
    } else if kind_is(t, pos, TokenType::Ident) || kind_is(t, pos, TokenType::LParen) {
        match parse_power(t, pos) {
            Some((rhs, p)) => {
                if pos < p && p <= t.len() {
                    parse_product_rest(t, p, binary(acc, Token::operator(TokenType::Star), rhs))
                } else {
                    None
                }
            },
            None => None,
        }
    } else {
        Some((acc, pos))
    }
}

fn parse_product(t: &Vec<Token>, pos: usize) -> (r: Option<(Expression, usize)>)
    ensures
        shown(r) == product(token_forms(t@), pos as int),
    decreases t.len() - pos, 5int,
{
    match parse_signed(t, pos) {
        Some((first, p)) => {
            if pos < p && p <= t.len() {
                parse_product_rest(t, p, first)
            } else {
                None
            }
        },
        None => None,
    }
}

fn parse_sum_rest(t: &Vec<Token>, pos: usize, acc: Expression) -> (r: Option<(Expression, usize)>)
    ensures
        shown(r) == sum_rest(token_forms(t@), pos as int, acc@),
    decreases t.len() - pos, 6int,
{
    if kind_is(t, pos, TokenType::Plus) || kind_is(t, pos, TokenType::Minus) {
        match parse_product(t, pos + 1) {
            Some((rhs, p)) => {
                if pos < p && p <= t.len() {
                    parse_sum_rest(t, p, binary(acc, t[pos].duplicate(), rhs))
                } else {
                    None
                }
            },
            None => None,
        }
    } else {
        Some((acc, pos))
    }
}

/// Reads an expression from the tokens at `pos`: the expression, and the
/// position behind it.
pub fn parse_expression(t: &Vec<Token>, pos: usize) -> (r: Option<(Expression, usize)>)
    ensures
        shown(r) == expression(token_forms(t@), pos as int),
    decreases t.len() - pos, 7int,
{
    match parse_product(t, pos) {
        Some((first, p)) => {
            if pos < p && p <= t.len() {
                parse_sum_rest(t, p, first)
            } else {
                None
            }
        },
        None => None,
    }
}

fn parse_whole(t: &Vec<Token>, pos: usize) -> (r: Option<Expression>)
    ensures
        expression_shown(r) == whole_expression(token_forms(t@), pos as int),
{
    match parse_expression(t, pos) {
        Some((e, p)) => {
            if p == t.len() {
                Some(e)
            } else {
                None
            }
        },
        None => None,
    }
}

/// Reads all of the tokens as one statement.
pub fn parse_statement(t: &Vec<Token>) -> (r: Option<Statement>)
    ensures
        statement_shown(r) == statement_of(token_forms(t@)),
{
    if kind_is(t, 0, TokenType::State) {
        if kind_is(t, 1, TokenType::Ident) && kind_is(t, 2, TokenType::Eq) {
            match parse_whole(t, 3) {
                Some(value) => Some(Statement::State { name: t[1].duplicate(), lt: value }),
                None => None,
            }
        } else {
            None
        }
    } else if kind_is(t, 0, TokenType::Ident) && kind_is(t, 1, TokenType::LParen) && kind_is(
        t,
        2,
        TokenType::Ident,
    ) && kind_is(t, 3, TokenType::RParen) && kind_is(t, 4, TokenType::Eq) {
        match parse_whole(t, 5) {
            Some(body) => {
                let mut params: Vec<Token> = Vec::new();
                params.push(t[2].duplicate());
                assert(crate::ast::names(params@) =~= seq![t@[2].lexeme@]);
                Some(Statement::Function { name: t[0].duplicate(), params, body })
            },
            None => None,
        }
    } else {
        match parse_expression(t, 0) {
            Some((lhs, p)) => {
                if p == t.len() {
                    Some(Statement::Equation { lhs, op: None, rhs: None })
                } else if p < t.len() && is_relation(t[p].token) {
                    match parse_whole(t, p + 1) {
                        Some(rhs) => Some(
                            Statement::Equation { lhs, op: Some(t[p].duplicate()), rhs: Some(rhs) },
                        ),
                        None => None,
                    }
                } else {
                    None
                }
            },
            None => None,
        }
    }
}

fn is_blank_token(t: &Token) -> (b: bool)
    ensures
        b == is_blank(
            TokenForm { token: t.token, lexeme: t.lexeme@, lt: crate::syntax::value_form(t.lt) },
        ),
{
    proof {
        reveal_strlit(" ");
        reveal_strlit("\t");
        reveal_strlit("\n");
        reveal_strlit("\r");
        assert(" "@ =~= seq![' ']);
        assert("\t"@ =~= seq!['\t']);
        assert("\n"@ =~= seq!['\n']);
        assert("\r"@ =~= seq!['\r']);
    }
    let unknown = match t.token {
        TokenType::Unknown => true,
        _ => false,
    };
    unknown && (t.lexeme == " ".to_owned() || t.lexeme == "\t".to_owned() || t.lexeme
        == "\n".to_owned() || t.lexeme == "\r".to_owned())
}

fn ends_here(t: &Token) -> (b: bool)
    ensures
        b == ends_statement(
            TokenForm { token: t.token, lexeme: t.lexeme@, lt: crate::syntax::value_form(t.lt) },
        ),
{
    match t.token {
        TokenType::Semi | TokenType::EoF => true,
        _ => false,
    }
}

/// Reads the tokens from `from` on into statements.
pub fn parse_statements(tokens: &Vec<Token>, from: usize) -> (out: Vec<Statement>)
    ensures
        statement_forms(out@) == parsed(token_forms(tokens@), from as int),
{
    let ghost all = token_forms(tokens@);
    let mut out: Vec<Statement> = Vec::new();
    let mut start = from;
    assert(statement_forms(out@) =~= Seq::<StatementForm>::empty());
    while start < tokens.len()
        invariant
            all == token_forms(tokens@),
            statement_forms(out@) + parsed(all, start as int) == parsed(all, from as int),
        decreases tokens.len() - start,
    {
        let mut end = start;
        let mut segment: Vec<Token> = Vec::new();
        assert(token_forms(segment@) =~= significant(all, start as int, start as int));
        while end < tokens.len() && !ends_here(&tokens[end])
            invariant
                all == token_forms(tokens@),
                start <= end <= tokens.len(),
                segment_end(all, end as int) == segment_end(all, start as int),
                token_forms(segment@) == significant(all, start as int, end as int),
            decreases tokens.len() - end,
        {
            let ghost before = token_forms(segment@);
            if !is_blank_token(&tokens[end]) {
                segment.push(tokens[end].duplicate());
                assert(token_forms(segment@) =~= before.push(all[end as int]));
            }
            end = end + 1;
        }
        let ghost before = statement_forms(out@);
        let ghost rest = if end < tokens.len() {
            parsed(all, end + 1)
        } else {
            Seq::<StatementForm>::empty()
        };
        match parse_statement(&segment) {
            Some(statement) => {
                let ghost content = statement@;
                out.push(statement);
                assert(statement_forms(out@) =~= before.push(content));
                assert(before.push(content) + rest =~= before + (seq![content] + rest));
            },
            None => {
                assert(before + rest =~= before + (Seq::<StatementForm>::empty() + rest));
            },
        }
        if end < tokens.len() {
            start = end + 1;
        } else {
            start = end;
            assert(parsed(all, start as int) =~= Seq::<StatementForm>::empty());
        }
    }
    proof {
        assert(statement_forms(out@) + Seq::<StatementForm>::empty() =~= statement_forms(out@));
    }
    out
}

} // verus!
