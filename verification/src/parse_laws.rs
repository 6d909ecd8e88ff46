//! Laws of reading: what the tokens of an equation are read as.

use crate::ast::{ExpressionForm, StatementForm};
use crate::engine::relation;
use crate::numeric::NumericForm;
use crate::parse::{
    ends_statement, expression, is_at, is_blank, is_definition, moved, parsed, power, primary,
    product, product_rest, segment_end, signed, significant, statement_of, sum_rest,
    whole_expression,
};
use crate::environment::EntryForm;
use crate::engine::OutcomeForm;
use crate::error::{SymbolErrorForm, TerminalStatus};
use crate::numeric::normal_form;
use crate::solve::solution;
use crate::solve_laws::{is_unknown, law_linear_equation, law_solved_stays, linear_equation};
use crate::syntax::{end_text, TokenForm};
use crate::token::TokenType;
use vstd::prelude::*;

verus! {

/// The token at `pos` is a number with the value `v`.
pub open spec fn number_at(t: Seq<TokenForm>, pos: int, v: NumericForm) -> bool {
    is_at(t, pos, TokenType::Number) && t[pos].lt == Some(v)
}

/// The token at `pos`, if there is one, goes on no factor: it is no `^`, `*`
/// or `/`, and starts no factor that stands without a sign of
/// multiplication.
pub open spec fn ends_product(t: Seq<TokenForm>, pos: int) -> bool {
    !is_at(t, pos, TokenType::Up) && !is_at(t, pos, TokenType::Star) && !is_at(
        t,
        pos,
        TokenType::Over,
    ) && !is_at(t, pos, TokenType::Ident) && !is_at(t, pos, TokenType::LParen)
}

/// The token at `pos`, if there is one, goes on no sum: it ends a product
/// and is no `+` or `-`.
pub open spec fn ends_sum(t: Seq<TokenForm>, pos: int) -> bool {
    ends_product(t, pos) && !is_at(t, pos, TokenType::Plus) && !is_at(t, pos, TokenType::Minus)
}

/// A number before a token that is no `^` is read as a factor of its own.
pub proof fn lemma_number_factor(t: Seq<TokenForm>, pos: int, v: NumericForm)
    requires
        number_at(t, pos, v),
        !is_at(t, pos + 1, TokenType::Up),
    ensures
        signed(t, pos) == Some((ExpressionForm::Numeric(v), pos + 1)),
        power(t, pos) == Some((ExpressionForm::Numeric(v), pos + 1)),
{
    assert(primary(t, pos) == Some((ExpressionForm::Numeric(v), pos + 1)));
    assert(power(t, pos) == Some((ExpressionForm::Numeric(v), pos + 1)));
}

/// A name before a token that is no `^`, `(` or `{` is read as a factor of
/// its own.
pub proof fn lemma_name_factor(t: Seq<TokenForm>, pos: int)
    requires
        is_at(t, pos, TokenType::Ident),
        !is_at(t, pos + 1, TokenType::Up),
        !is_at(t, pos + 1, TokenType::LParen),
        !is_at(t, pos + 1, TokenType::LBrace),
    ensures
        signed(t, pos) == Some((ExpressionForm::Variable(t[pos].lexeme), pos + 1)),
        power(t, pos) == Some((ExpressionForm::Variable(t[pos].lexeme), pos + 1)),
{
    assert(primary(t, pos) == Some((ExpressionForm::Variable(t[pos].lexeme), pos + 1)));
    assert(power(t, pos) == Some((ExpressionForm::Variable(t[pos].lexeme), pos + 1)));
}

/// A product ends before a token that goes on no factor, and a sum before
/// one that goes on no sum.
pub proof fn lemma_ends(t: Seq<TokenForm>, pos: int, acc: ExpressionForm)
    ensures
        ends_product(t, pos) ==> product_rest(t, pos, acc) == Some((acc, pos)),
        ends_sum(t, pos) ==> sum_rest(t, pos, acc) == Some((acc, pos)),
{
}

/// A number alone, up to a token that goes on no sum, is read as an
/// expression of its own.
pub proof fn lemma_number_expression(t: Seq<TokenForm>, pos: int, v: NumericForm)
    requires
        number_at(t, pos, v),
        ends_sum(t, pos + 1),
    ensures
        expression(t, pos) == Some((ExpressionForm::Numeric(v), pos + 1)),
{
    let e = ExpressionForm::Numeric(v);
    lemma_number_factor(t, pos, v);
    lemma_ends(t, pos + 1, e);
    assert(moved(t, pos, pos + 1));
    assert(product(t, pos) == Some((e, pos + 1)));
}

/// Tokens without a blank and without an end of statement, followed by the
/// end of the input, are read as the one statement that they are, or as
/// none.
pub proof fn law_one_statement(seg: Seq<TokenForm>)
    requires
        forall|i: int| 0 <= i < seg.len() ==> !ends_statement(#[trigger] seg[i]) && !is_blank(seg[i]),
    ensures
        parsed(
            seg.push(TokenForm { token: TokenType::EoF, lexeme: end_text(), lt: None }),
            0,
        ) == (match statement_of(seg) {
            Some(s) => seq![s],
            None => Seq::<StatementForm>::empty(),
        }),
{
    let all = seg.push(TokenForm { token: TokenType::EoF, lexeme: end_text(), lt: None });
    let n = seg.len() as int;
    lemma_segment(all, 0, n);
    lemma_significant(all, 0, n);
    assert(all.subrange(0, n) =~= seg);
    assert(parsed(all, n + 1) == Seq::<StatementForm>::empty());
    let here = match statement_of(seg) {
        Some(s) => seq![s],
        None => Seq::<StatementForm>::empty(),
    };
    assert(here + Seq::<StatementForm>::empty() =~= here);
}

/// A stretch without an end of statement runs up to the first one.
pub proof fn lemma_segment(tokens: Seq<TokenForm>, from: int, to: int)
    requires
        0 <= from <= to < tokens.len(),
        forall|i: int| from <= i < to ==> !ends_statement(#[trigger] tokens[i]),
        ends_statement(tokens[to]),
    ensures
        segment_end(tokens, from) == to,
    decreases to - from,
{
    if from < to {
        lemma_segment(tokens, from + 1, to);
    }
}

/// Of a stretch without blanks every token counts.
pub proof fn lemma_significant(tokens: Seq<TokenForm>, from: int, to: int)
    requires
        0 <= from <= to <= tokens.len(),
        forall|i: int| from <= i < to ==> !is_blank(#[trigger] tokens[i]),
    ensures
        significant(tokens, from, to) == tokens.subrange(from, to),
    decreases to - from,
{
    if from < to {
        lemma_significant(tokens, from, to - 1);
        assert(tokens.subrange(from, to - 1).push(tokens[to - 1]) =~= tokens.subrange(from, to));
    } else {
        assert(tokens.subrange(from, to) =~= Seq::<TokenForm>::empty());
    }
}

/// The tokens of `x = k`, or of `x` in any other relation to a number `k`,
/// are read as that relation between the name and the number.
pub proof fn law_reads_solved_equation(t: Seq<TokenForm>, k: NumericForm)
    requires
        t.len() == 3,
        is_at(t, 0, TokenType::Ident),
        t[1].token.is_relation(),
        number_at(t, 2, k),
    ensures
        statement_of(t) == Some(
            relation(ExpressionForm::Variable(t[0].lexeme), t[1].token, ExpressionForm::Numeric(k)),
        ),
{
    let x = ExpressionForm::Variable(t[0].lexeme);
    lemma_name_factor(t, 0);
    lemma_ends(t, 1, x);
    assert(moved(t, 0, 1));
    assert(product(t, 0) == Some((x, 1int)));
    assert(expression(t, 0) == Some((x, 1int)));
    lemma_number_expression(t, 2, k);
    assert(whole_expression(t, 2) == Some(ExpressionForm::Numeric(k)));
    assert(!is_definition(t));
}

/// The tokens of `a * x + b = c` are read as that equation.
pub proof fn law_reads_linear_equation(
    t: Seq<TokenForm>,
    a: NumericForm,
    b: NumericForm,
    c: NumericForm,
)
    requires
        t.len() == 7,
        number_at(t, 0, a),
        is_at(t, 1, TokenType::Star),
        is_at(t, 2, TokenType::Ident),
        is_at(t, 3, TokenType::Plus),
        number_at(t, 4, b),
        is_at(t, 5, TokenType::Eq),
        number_at(t, 6, c),
    ensures
        statement_of(t) == Some(linear_equation(a, t[2].lexeme, b, c)),
{
    let na = ExpressionForm::Numeric(a);
    let vx = ExpressionForm::Variable(t[2].lexeme);
    let nb = ExpressionForm::Numeric(b);
    let inner = ExpressionForm::Binary { lhs: Box::new(na), op: TokenType::Star, rhs: Box::new(vx) };
    let lhs = ExpressionForm::Binary { lhs: Box::new(inner), op: TokenType::Plus, rhs: Box::new(nb) };
    lemma_number_factor(t, 0, a);
    lemma_name_factor(t, 2);
    assert(moved(t, 0, 1) && moved(t, 1, 3));
    lemma_ends(t, 3, inner);
    assert(product_rest(t, 3, inner) == Some((inner, 3int)));
    assert(product_rest(t, 1, na) == Some((inner, 3int)));
    assert(product(t, 0) == Some((inner, 3int)));
    lemma_number_factor(t, 4, b);
    lemma_ends(t, 5, nb);
    assert(moved(t, 4, 5) && moved(t, 3, 5) && moved(t, 0, 3));
    assert(product(t, 4) == Some((nb, 5int)));
    lemma_ends(t, 5, lhs);
    assert(sum_rest(t, 5, lhs) == Some((lhs, 5int)));
    assert(sum_rest(t, 3, inner) == Some((lhs, 5int)));
    assert(expression(t, 0) == Some((lhs, 5int)));
    lemma_number_expression(t, 6, c);
    assert(whole_expression(t, 6) == Some(ExpressionForm::Numeric(c)));
    assert(t[5].token.is_relation());
    assert(!is_definition(t));
}


/// Reading the tokens of `a * x + b = c` with `a` other than zero and solving
/// what was read ends as solved with `x = (c - b) / a`, the unknown alone on
/// the left of the last step.
pub proof fn law_read_linear_equation_is_solved(
    t: Seq<TokenForm>,
    a: NumericForm,
    b: NumericForm,
    c: NumericForm,
    env: Map<Seq<char>, EntryForm>,
    target: Option<Seq<char>>,
)
    requires
        t.len() == 7,
        number_at(t, 0, a),
        is_at(t, 1, TokenType::Star),
        is_at(t, 2, TokenType::Ident),
        is_at(t, 3, TokenType::Plus),
        number_at(t, 4, b),
        is_at(t, 5, TokenType::Eq),
        number_at(t, 6, c),
        a.value() != 0real,
        is_unknown(env, target, t[2].lexeme),
    ensures
        ({
            let root = ExpressionForm::Numeric(normal_form((c.value() - b.value()) / a.value()));
            let solved = relation(ExpressionForm::Variable(t[2].lexeme), TokenType::Eq, root);
            &&& statement_of(t) matches Some(read)
            &&& solution(read, env, target) matches Ok(out)
            &&& out.status == TerminalStatus::Solved
            &&& out.statement == solved
            &&& out.roots == seq![root]
            &&& out.steps.len() > 0
            &&& out.steps.last().statement == solved
        }),
{
    law_reads_linear_equation(t, a, b, c);
    law_linear_equation(a, t[2].lexeme, b, c, env, target);
}

/// Reading the tokens of `x = k` and solving what was read applies no step
/// and ends as solved, with the statement as it was read.
pub proof fn law_read_solved_equation_stays(
    t: Seq<TokenForm>,
    k: NumericForm,
    env: Map<Seq<char>, EntryForm>,
    target: Option<Seq<char>>,
)
    requires
        t.len() == 3,
        is_at(t, 0, TokenType::Ident),
        t[1].token.is_relation(),
        number_at(t, 2, k),
        is_unknown(env, target, t[0].lexeme),
    ensures
        ({
            let read = relation(
                ExpressionForm::Variable(t[0].lexeme),
                t[1].token,
                ExpressionForm::Numeric(k),
            );
            &&& statement_of(t) == Some(read)
            &&& solution(read, env, target) == Ok::<OutcomeForm, SymbolErrorForm>(
                OutcomeForm {
                    statement: read,
                    roots: seq![ExpressionForm::Numeric(normal_form(k.value()))],
                    steps: Seq::empty(),
                    status: TerminalStatus::Solved,
                },
            )
        }),
{
    law_reads_solved_equation(t, k);
    law_solved_stays(t[0].lexeme, t[1].token, k, env, target);
}

} // verus!
