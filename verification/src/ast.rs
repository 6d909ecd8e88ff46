//! The syntax tree of a statement, and its mathematical content.

use crate::numeric::{NumericForm, NumericValue};
use crate::token::{Token, TokenType};
use vstd::prelude::*;

verus! {

/// The mathematical content of an expression.
pub enum ExpressionForm {
    /// A number.
    Numeric(NumericForm),
    /// A name.
    Variable(Seq<char>),
    /// Two expressions joined by an operator.
    Binary { lhs: Box<ExpressionForm>, op: TokenType, rhs: Box<ExpressionForm> },
    /// An expression in brackets.
    Grouping(Box<ExpressionForm>),
    /// A built-in function applied to arguments.
    Function { name: Seq<char>, args: Seq<ExpressionForm> },
    /// A user-defined function applied to arguments.
    Call { name: Seq<char>, args: Seq<ExpressionForm> },
}

/// The mathematical content of a statement.
pub enum StatementForm {
    /// An equation or inequality; a bare expression where `op` and `rhs` are
    /// absent.
    Equation { lhs: ExpressionForm, op: Option<TokenType>, rhs: Option<ExpressionForm> },
    /// A binding of a name to the value of an expression.
    State { name: Seq<char>, value: ExpressionForm },
    /// The definition of a function.
    Function { name: Seq<char>, params: Seq<Seq<char>>, body: ExpressionForm },
}

/// An expression.
#[derive(Debug)]
pub enum Expression {
    /// `5`, `-32`, `11101_2`, `3.(3)`, `5e12`, `1/2`
    Numeric(NumericValue),
    /// `x`, `speed`
    Variable(Token),
    /// `2 + 2`, `4 * 3`
    Binary { lhs: Box<Expression>, op: Token, rhs: Box<Expression> },
    /// `(4 - 3)`
    Grouping(Box<Expression>),
    /// `sqrt{12}`, `frac{12}{3}`
    Function { name: Token, args: Vec<Expression> },
    /// `f(5)`
    Call { name: Token, args: Vec<Expression> },
}

/// A statement.
#[derive(Debug)]
pub enum Statement {
    /// `6 + 3`, `x + 4 = 4`, `2x < 12`
    Equation { lhs: Expression, op: Option<Token>, rhs: Option<Expression> },
    /// `state x = 5`
    State { name: Token, lt: Expression },
    /// `f(x) = x + 1`
    Function { name: Token, params: Vec<Token>, body: Expression },
}

/// The contents of the expressions of `s` from index `i` on.
pub open spec fn forms_from(s: Seq<Expression>, i: int) -> Seq<ExpressionForm>
    decreases s, s.len() - i,
{
    if i < 0 || i >= s.len() {
        Seq::empty()
    } else {
        seq![s[i].form()] + forms_from(s, i + 1)
    }
}

/// The contents of the expressions of `s`.
pub open spec fn forms(s: Seq<Expression>) -> Seq<ExpressionForm> {
    forms_from(s, 0)
}

/// The texts of the tokens of `s`.
pub open spec fn names(s: Seq<Token>) -> Seq<Seq<char>> {
    s.map_values(|t: Token| t.lexeme@)
}

/// The content of a sequence of expressions from index `i` on, index by
/// index.
pub proof fn lemma_forms_from(s: Seq<Expression>, i: int)
    requires
        0 <= i <= s.len(),
    ensures
        forms_from(s, i).len() == s.len() - i,
        forall|k: int| 0 <= k < s.len() - i ==> (#[trigger] forms_from(s, i)[k]) == s[i + k].form(),
    decreases s.len() - i,
{
    if i < s.len() {
        lemma_forms_from(s, i + 1);
        let rest = forms_from(s, i + 1);
        let all = forms_from(s, i);
        assert forall|k: int| 0 <= k < s.len() - i implies (#[trigger] all[k]) == s[i + k].form() by {
            if k > 0 {
                assert(all[k] == rest[k - 1]);
            }
        }
    }
}

/// The content of a sequence of expressions, index by index.
pub proof fn lemma_forms(s: Seq<Expression>)
    ensures
        forms(s).len() == s.len(),
        forall|k: int| 0 <= k < s.len() ==> (#[trigger] forms(s)[k]) == s[k].form(),
{
    lemma_forms_from(s, 0);
}

impl Expression {
    /// The content of the expression.
    pub open spec fn form(&self) -> ExpressionForm
        decreases self,
    {
        match self {
            Expression::Numeric(n) => ExpressionForm::Numeric(n@),
            Expression::Variable(t) => ExpressionForm::Variable(t.lexeme@),
            Expression::Binary { lhs, op, rhs } => ExpressionForm::Binary {
                lhs: Box::new(lhs.form()),
                op: op.token,
                rhs: Box::new(rhs.form()),
            },
            Expression::Grouping(inner) => ExpressionForm::Grouping(Box::new(inner.form())),
            Expression::Function { name, args } => ExpressionForm::Function {
                name: name.lexeme@,
                args: forms_from(args@, 0),
            },
            Expression::Call { name, args } => ExpressionForm::Call {
                name: name.lexeme@,
                args: forms_from(args@, 0),
            },
        }
    }

    /// A copy of the expression.
    pub fn duplicate(&self) -> (r: Expression)
        ensures
            r@ == self@,
        decreases self,
    {
        match self {
            Expression::Numeric(n) => Expression::Numeric(n.duplicate()),
            Expression::Variable(t) => Expression::Variable(t.duplicate()),
            Expression::Binary { lhs, op, rhs } => Expression::Binary {
                lhs: Box::new(lhs.duplicate()),
                op: op.duplicate(),
                rhs: Box::new(rhs.duplicate()),
            },
            Expression::Grouping(inner) => Expression::Grouping(Box::new(inner.duplicate())),
            Expression::Function { name, args } => Expression::Function {
                name: name.duplicate(),
                args: duplicate_all(args),
            },
            Expression::Call { name, args } => Expression::Call {
                name: name.duplicate(),
                args: duplicate_all(args),
            },
        }
    }
}

impl View for Expression {
    type V = ExpressionForm;

    open spec fn view(&self) -> ExpressionForm {
        self.form()
    }
}

/// Copies of the expressions of `args`.
pub fn duplicate_all(args: &Vec<Expression>) -> (r: Vec<Expression>)
    ensures
        forms(r@) == forms(args@),
    decreases args@,
{
    let mut out: Vec<Expression> = Vec::new();
    let mut i: usize = 0;
    while i < args.len()
        invariant
            i <= args.len(),
            out@.len() == i,
            forall|k: int| 0 <= k < i ==> (#[trigger] out@[k]).form() == args@[k].form(),
        decreases args.len() - i,
    {
        let copy = args[i].duplicate();
        out.push(copy);
        i = i + 1;
    }
    proof {
        lemma_forms(out@);
        lemma_forms(args@);
        assert(forms(out@) =~= forms(args@));
    }
    out
}

/// Copies of the tokens of `tokens`.
pub fn duplicate_tokens(tokens: &Vec<Token>) -> (r: Vec<Token>)
    ensures
        names(r@) == names(tokens@),
{
    let mut out: Vec<Token> = Vec::new();
    let mut i: usize = 0;
    while i < tokens.len()
        invariant
            i <= tokens.len(),
            out@.len() == i,
            forall|k: int| 0 <= k < i ==> (#[trigger] out@[k]).lexeme@ == tokens@[k].lexeme@,
        decreases tokens.len() - i,
    {
        out.push(tokens[i].duplicate());
        i = i + 1;
    }
    assert(names(out@) =~= names(tokens@));
    out
}

impl Statement {
    /// The content of the statement.
    pub open spec fn form(&self) -> StatementForm {
        match self {
            Statement::Equation { lhs, op, rhs } => StatementForm::Equation {
                lhs: lhs@,
                op: match op {
                    Some(t) => Some(t.token),
                    None => None,
                },
                rhs: match rhs {
                    Some(e) => Some(e@),
                    None => None,
                },
            },
            Statement::State { name, lt } => StatementForm::State { name: name.lexeme@, value: lt@ },
            Statement::Function { name, params, body } => StatementForm::Function {
                name: name.lexeme@,
                params: names(params@),
                body: body@,
            },
        }
    }

    /// A copy of the statement.
    pub fn duplicate(&self) -> (r: Statement)
        ensures
            r@ == self@,
    {
        match self {
            Statement::Equation { lhs, op, rhs } => Statement::Equation {
                lhs: lhs.duplicate(),
                op: match op {
                    Some(t) => Some(t.duplicate()),
                    None => None,
                },
                rhs: match rhs {
                    Some(e) => Some(e.duplicate()),
                    None => None,
                },
            },
            Statement::State { name, lt } => Statement::State {
                name: name.duplicate(),
                lt: lt.duplicate(),
            },
            Statement::Function { name, params, body } => Statement::Function {
                name: name.duplicate(),
                params: duplicate_tokens(params),
                body: body.duplicate(),
            },
        }
    }
}

impl View for Statement {
    type V = StatementForm;

    open spec fn view(&self) -> StatementForm {
        self.form()
    }
}

} // verus!
