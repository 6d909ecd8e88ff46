//! Deciding what kind of problem a statement poses.

use crate::ast::{
    forms, lemma_forms, Expression, ExpressionForm, Statement, StatementForm,
};
use crate::environment::{EntryForm, Environment};
use crate::error::{SolveError, SymbolErrorForm};
use crate::expand::name_of;
use crate::natural::{Natural, Order};
use crate::numeric::{is_whole, whole_part};
use crate::token::TokenType;
use vstd::prelude::*;

verus! {

/// The kind of a problem, mathematically.
pub enum KindForm {
    /// No unknown: the two sides are compared.
    IdentityCheck,
    /// An equation of degree one in the unknown.
    Linear,
    /// An equation of the given degree, at least two, in the unknown.
    Polynomial(nat),
    /// A relation other than `=` of degree one in the unknown.
    Inequality,
    /// Anything else.
    Unsupported,
}

/// The kind of a problem.
#[derive(Debug)]
pub enum ProblemKind {
    /// No unknown: the two sides are compared.
    IdentityCheck,
    /// An equation of degree one in the unknown.
    Linear,
    /// An equation of the given degree, at least two, in the unknown.
    Polynomial(Natural),
    /// A relation other than `=` of degree one in the unknown.
    Inequality,
    /// Anything else.
    Unsupported,
}

impl View for ProblemKind {
    type V = KindForm;

    open spec fn view(&self) -> KindForm {
        match self {
            ProblemKind::IdentityCheck => KindForm::IdentityCheck,
            ProblemKind::Linear => KindForm::Linear,
            ProblemKind::Polynomial(d) => KindForm::Polynomial(d@),
            ProblemKind::Inequality => KindForm::Inequality,
            ProblemKind::Unsupported => KindForm::Unsupported,
        }
    }
}

/// What the classifier found: the kind of the problem, the unknown to
/// isolate, and the statement.
#[derive(Debug)]
pub struct ProblemDescriptor {
    pub kind: ProblemKind,
    pub target: Option<String>,
    pub statement: Statement,
}

impl ProblemDescriptor {
    /// The name of the unknown.
    pub open spec fn target_name(&self) -> Option<Seq<char>> {
        match self.target {
            Some(t) => Some(t@),
            None => None,
        }
    }
}

/// How many distinct unknowns a walk has met, mathematically.
pub enum ScanForm {
    /// None.
    Zero,
    /// One, of this name.
    One(Seq<char>),
    /// More than one.
    Several,
}

/// How many distinct unknowns a walk has met.
#[derive(Debug)]
pub enum Scan {
    /// None.
    Zero,
    /// One, of this name.
    One(String),
    /// More than one.
    Several,
}

impl View for Scan {
    type V = ScanForm;

    open spec fn view(&self) -> ScanForm {
        match self {
            Scan::Zero => ScanForm::Zero,
            Scan::One(name) => ScanForm::One(name@),
            Scan::Several => ScanForm::Several,
        }
    }
}

/// The count `acc` after one more unknown, `name`, was met.
pub open spec fn noted(acc: ScanForm, name: Seq<char>) -> ScanForm {
    match acc {
        ScanForm::Zero => ScanForm::One(name),
        ScanForm::One(n) => if n == name {
            ScanForm::One(n)
        } else {
            ScanForm::Several
        },
        ScanForm::Several => ScanForm::Several,
    }
}

/// The name has a bound value.
pub open spec fn is_bound(env: Map<Seq<char>, EntryForm>, name: Seq<char>) -> bool {
    env.contains_key(name) && env[name] is Value
}

/// The name has a function definition.
pub open spec fn is_defined(env: Map<Seq<char>, EntryForm>, name: Seq<char>) -> bool {
    env.contains_key(name) && env[name] is Function
}

/// The count of distinct unknowns after a walk through `e`, from left to
/// right, that started at `acc`.
///
/// Without a given `target`, every name without a bound value is an unknown.
/// With one, that name alone is the unknown, and any other name without a
/// bound value cannot be resolved. A call of a function without a definition
/// cannot be resolved either.
pub open spec fn scan(
    e: ExpressionForm,
    env: Map<Seq<char>, EntryForm>,
    target: Option<Seq<char>>,
    acc: ScanForm,
) -> Result<ScanForm, SymbolErrorForm>
    decreases e,
{
    match e {
        ExpressionForm::Numeric(_) => Ok(acc),
        ExpressionForm::Variable(name) => if target == Some(name) {
            Ok(noted(acc, name))
        } else if is_bound(env, name) {
            Ok(acc)
        } else if target is Some {
            Err(SymbolErrorForm::UnresolvableSymbol(name))
        } else {
            Ok(noted(acc, name))
        },
        ExpressionForm::Binary { lhs, op, rhs } => match scan(*lhs, env, target, acc) {
            Err(e) => Err(e),
            Ok(a) => scan(*rhs, env, target, a),
        },
        ExpressionForm::Grouping(inner) => scan(*inner, env, target, acc),
        ExpressionForm::Function { name, args } => scan_all(args, 0, env, target, acc),
        ExpressionForm::Call { name, args } => if is_defined(env, name) {
            scan_all(args, 0, env, target, acc)
        } else {
            Err(SymbolErrorForm::UnresolvableSymbol(name))
        },
    }
}

/// The walk of `scan` through the expressions of `args` from index `i` on.
pub open spec fn scan_all(
    args: Seq<ExpressionForm>,
    i: int,
    env: Map<Seq<char>, EntryForm>,
    target: Option<Seq<char>>,
    acc: ScanForm,
) -> Result<ScanForm, SymbolErrorForm>
    decreases args, args.len() - i,
{
    if i < 0 || i >= args.len() {
        Ok(acc)
    } else {
        match scan(args[i], env, target, acc) {
            Err(e) => Err(e),
            Ok(a) => scan_all(args, i + 1, env, target, a),
        }
    }
}

/// Whether the name `target` occurs in the expression.
pub open spec fn occurs(e: ExpressionForm, target: Seq<char>) -> bool
    decreases e,
{
    match e {
        ExpressionForm::Numeric(_) => false,
        ExpressionForm::Variable(name) => name == target,
        ExpressionForm::Binary { lhs, op, rhs } => occurs(*lhs, target) || occurs(*rhs, target),
        ExpressionForm::Grouping(inner) => occurs(*inner, target),
        ExpressionForm::Function { name, args } => occurs_in(args, 0, target),
        ExpressionForm::Call { name, args } => occurs_in(args, 0, target),
    }
}

/// Whether the name `target` occurs in an expression of `args` from index
/// `i` on.
pub open spec fn occurs_in(args: Seq<ExpressionForm>, i: int, target: Seq<char>) -> bool
    decreases args, args.len() - i,
{
    if i < 0 || i >= args.len() {
        false
    } else {
        occurs(args[i], target) || occurs_in(args, i + 1, target)
    }
}

/// The greater of two degrees; nothing where either is missing.
pub open spec fn higher(a: Option<nat>, b: Option<nat>) -> Option<nat> {
    match (a, b) {
        (Some(x), Some(y)) => Some(if x >= y {
            x
        } else {
            y
        }),
        _ => None,
    }
}

/// The highest power to which the unknown is raised in the expression: one
/// where it merely occurs, the exponent where a part that holds it stands
/// under `^` with a whole number at least zero. Nothing where the unknown is
/// raised to anything else, or stands in an exponent.
pub open spec fn power_of(e: ExpressionForm, target: Seq<char>) -> Option<nat>
    decreases e,
{
    match e {
        ExpressionForm::Numeric(_) => Some(0),
        ExpressionForm::Variable(name) => Some(if name == target {
            1
        } else {
            0
        }),
        ExpressionForm::Binary { lhs, op, rhs } => if op == TokenType::Up && occurs(
            *rhs,
            target,
        ) {
            None
        } else if op == TokenType::Up && occurs(*lhs, target) {
            match *rhs {
                ExpressionForm::Numeric(n) => if is_whole(n.value()) && whole_part(n.value())
                    >= 0 {
                    higher(power_of(*lhs, target), Some(whole_part(n.value()) as nat))
                } else {
                    None
                },
                _ => None,
            }
        } else {
            higher(power_of(*lhs, target), power_of(*rhs, target))
        },
        ExpressionForm::Grouping(inner) => power_of(*inner, target),
        ExpressionForm::Function { name, args } => power_in(args, 0, target),
        ExpressionForm::Call { name, args } => power_in(args, 0, target),
    }
}

/// The highest power of `power_of` over the expressions of `args` from index
/// `i` on.
pub open spec fn power_in(args: Seq<ExpressionForm>, i: int, target: Seq<char>) -> Option<nat>
    decreases args, args.len() - i,
{
    if i < 0 || i >= args.len() {
        Some(0)
    } else {
        higher(power_of(args[i], target), power_in(args, i + 1, target))
    }
}

/// The kind of a relation between two sides in the unknown `target`.
pub open spec fn kind_of(
    lhs: ExpressionForm,
    op: TokenType,
    rhs: ExpressionForm,
    target: Seq<char>,
) -> KindForm {
    match higher(power_of(lhs, target), power_of(rhs, target)) {
        None => KindForm::Unsupported,
        Some(d) => if d <= 1 {
            if op == TokenType::Eq {
                KindForm::Linear
            } else {
                KindForm::Inequality
            }
        } else if op == TokenType::Eq {
            KindForm::Polynomial(d)
        } else {
            KindForm::Unsupported
        },
    }
}

/// The kind of problem that a statement poses, and its unknown.
///
/// A relation between two sides is an identity check where it holds no
/// unknown, unsupported where it holds several, and else of the kind that
/// `kind_of` gives. Every other statement is unsupported.
pub open spec fn classification(
    stmt: StatementForm,
    env: Map<Seq<char>, EntryForm>,
    target: Option<Seq<char>>,
) -> Result<(KindForm, Option<Seq<char>>), SymbolErrorForm> {
    match stmt {
        StatementForm::Equation { lhs, op: Some(op), rhs: Some(rhs) } => if op.is_relation() {
            match scan(lhs, env, target, ScanForm::Zero) {
                Err(e) => Err(e),
                Ok(a) => match scan(rhs, env, target, a) {
                    Err(e) => Err(e),
                    Ok(ScanForm::Zero) => Ok((KindForm::IdentityCheck, None)),
                    Ok(ScanForm::Several) => Ok((KindForm::Unsupported, None)),
                    Ok(ScanForm::One(t)) => Ok((kind_of(lhs, op, rhs, t), Some(t))),
                },
            }
        } else {
            Ok((KindForm::Unsupported, None))
        },
        _ => Ok((KindForm::Unsupported, None)),
    }
}

/// Whether the token is one of `=`, `!=`, `>`, `<`, `>=`, `<=`.
pub fn is_relation(op: TokenType) -> (r: bool)
    ensures
        r == op.is_relation(),
{
    match op {
        TokenType::Eq | TokenType::NotEq | TokenType::Greater | TokenType::Less
        | TokenType::GreaterEq | TokenType::LessEq => true,
        _ => false,
    }
}

fn note(acc: Scan, name: &String) -> (r: Scan)
    ensures
        r@ == noted(acc@, name@),
{
    match acc {
        Scan::Zero => Scan::One(name.clone()),
        Scan::One(n) => if n == *name {
            Scan::One(n)
        } else {
            Scan::Several
        },
        Scan::Several => Scan::Several,
    }
}

/// A walk through the expression that counts its distinct unknowns.
pub fn scan_expression(
    e: &Expression,
    env: &Environment,
    target: Option<&String>,
    acc: Scan,
) -> (r: Result<Scan, SolveError>)
    ensures
        match r {
            Ok(a) => scan(e@, env@, name_of(target), acc@) == Ok::<ScanForm, SymbolErrorForm>(a@),
            Err(err) => scan(e@, env@, name_of(target), acc@) == Err::<ScanForm, SymbolErrorForm>(
                err@,
            ),
        },
    decreases e,
{
    match e {
        Expression::Numeric(_) => Ok(acc),
        Expression::Variable(t) => {
            let is_target = match target {
                Some(name) => *name == t.lexeme,
                None => false,
            };
            if is_target {
                Ok(note(acc, &t.lexeme))
            } else {
                let bound = match env.lookup(&t.lexeme) {
                    Some(crate::environment::Entry::Value(_)) => true,
                    _ => false,
                };
                if bound {
                    Ok(acc)
                } else if target.is_some() {
                    Err(SolveError::UnresolvableSymbol(t.lexeme.clone()))
                } else {
                    Ok(note(acc, &t.lexeme))
                }
            }
        },
        Expression::Binary { lhs, op, rhs } => {
            match scan_expression(lhs, env, target, acc) {
                Err(err) => Err(err),
                Ok(a) => scan_expression(rhs, env, target, a),
            }
        },
        Expression::Grouping(inner) => scan_expression(inner, env, target, acc),
        Expression::Function { name, args } => scan_arguments(args, env, target, acc),
        Expression::Call { name, args } => {
            let defined = match env.lookup(&name.lexeme) {
                Some(crate::environment::Entry::Function(_)) => true,
                _ => false,
            };
            if defined {
                scan_arguments(args, env, target, acc)
            } else {
                Err(SolveError::UnresolvableSymbol(name.lexeme.clone()))
            }
        },
    }
}

/// The walk of `scan_expression` through a list of expressions.
pub fn scan_arguments(
    args: &Vec<Expression>,
    env: &Environment,
    target: Option<&String>,
    initial: Scan,
) -> (r: Result<Scan, SolveError>)
    ensures
        match r {
            Ok(a) => scan_all(forms(args@), 0, env@, name_of(target), initial@) == Ok::<
                ScanForm,
                SymbolErrorForm,
            >(a@),
            Err(err) => scan_all(forms(args@), 0, env@, name_of(target), initial@) == Err::<
                ScanForm,
                SymbolErrorForm,
            >(err@),
        },
    decreases args@,
{
    let ghost fs = forms(args@);
    let ghost start = initial@;
    let mut acc = initial;
    let mut i: usize = 0;
    proof {
        lemma_forms(args@);
    }
    while i < args.len()
        invariant
            i <= args.len(),
            fs == forms(args@),
            fs.len() == args.len(),
            start == initial@,
            forall|k: int| 0 <= k < args.len() ==> (#[trigger] fs[k]) == args@[k]@,
            scan_all(fs, i as int, env@, name_of(target), acc@) == scan_all(
                fs,
                0,
                env@,
                name_of(target),
                start,
            ),
        decreases args.len() - i,
    {
        let ghost cur = acc@;
        match scan_expression(&args[i], env, target, acc) {
            Err(err) => {
                assert(scan_all(fs, i as int, env@, name_of(target), cur) == Err::<
                    ScanForm,
                    SymbolErrorForm,
                >(err@));
                return Err(err);
            },
            Ok(a) => {
                assert(scan_all(fs, i as int, env@, name_of(target), cur) == scan_all(
                    fs,
                    i + 1,
                    env@,
                    name_of(target),
                    a@,
                ));
                acc = a;
            },
        }
        i = i + 1;
    }
    Ok(acc)
}

/// Whether the name `target` occurs in the expression.
pub fn occurs_in_expression(e: &Expression, target: &String) -> (r: bool)
    ensures
        r == occurs(e@, target@),
    decreases e,
{
    match e {
        Expression::Numeric(_) => false,
        Expression::Variable(t) => t.lexeme == *target,
        Expression::Binary { lhs, op, rhs } => occurs_in_expression(lhs, target)
            || occurs_in_expression(rhs, target),
        Expression::Grouping(inner) => occurs_in_expression(inner, target),
        Expression::Function { name, args } => occurs_in_arguments(args, target),
        Expression::Call { name, args } => occurs_in_arguments(args, target),
    }
}

/// Whether the name `target` occurs in one of the expressions.
pub fn occurs_in_arguments(args: &Vec<Expression>, target: &String) -> (r: bool)
    ensures
        r == occurs_in(forms(args@), 0, target@),
    decreases args@,
{
    let ghost fs = forms(args@);
    let mut i: usize = 0;
    proof {
        lemma_forms(args@);
    }
    while i < args.len()
        invariant
            i <= args.len(),
            fs == forms(args@),
            fs.len() == args.len(),
            forall|k: int| 0 <= k < args.len() ==> (#[trigger] fs[k]) == args@[k]@,
            occurs_in(fs, i as int, target@) == occurs_in(fs, 0, target@),
        decreases args.len() - i,
    {
        if occurs_in_expression(&args[i], target) {
            return true;
        }
        i = i + 1;
    }
    false
}

fn higher_of(a: Option<Natural>, b: Option<Natural>) -> (r: Option<Natural>)
    ensures
        degree_view(r) == higher(degree_view(a), degree_view(b)),
{
    match (a, b) {
        (Some(x), Some(y)) => {
            if x.compare(&y) == Order::Less {
                Some(y)
            } else {
                Some(x)
            }
        },
        _ => None,
    }
}

/// The number that an optional degree holds.
pub open spec fn degree_view(d: Option<Natural>) -> Option<nat> {
    match d {
        Some(n) => Some(n@),
        None => None,
    }
}

/// The highest power to which the unknown is raised in the expression.
pub fn highest_power(e: &Expression, target: &String) -> (r: Option<Natural>)
    ensures
        degree_view(r) == power_of(e@, target@),
    decreases e,
{
    match e {
        Expression::Numeric(_) => Some(Natural::zero()),
        Expression::Variable(t) => if t.lexeme == *target {
            Some(Natural::one())
        } else {
            Some(Natural::zero())
        },
        Expression::Binary { lhs, op, rhs } => {
            let up = match op.token {
                TokenType::Up => true,
                _ => false,
            };
            if up && occurs_in_expression(rhs, target) {
                None
            } else if up && occurs_in_expression(lhs, target) {
                match &**rhs {
                    Expression::Numeric(n) => match n.to_integer() {
                        Some((true, m)) => higher_of(highest_power(lhs, target), Some(m)),
                        _ => None,
                    },
                    _ => None,
                }
            } else {
                higher_of(highest_power(lhs, target), highest_power(rhs, target))
            }
        },
        Expression::Grouping(inner) => highest_power(inner, target),
        Expression::Function { name, args } => highest_power_in(args, target),
        Expression::Call { name, args } => highest_power_in(args, target),
    }
}

/// The highest power to which the unknown is raised in the expressions.
pub fn highest_power_in(args: &Vec<Expression>, target: &String) -> (r: Option<Natural>)
    ensures
        degree_view(r) == power_in(forms(args@), 0, target@),
    decreases args@,
{
    let ghost fs = forms(args@);
    let mut acc: Option<Natural> = Some(Natural::zero());
    let mut i: usize = args.len();
    proof {
        lemma_forms(args@);
    }
    while i > 0
        invariant
            i <= args.len(),
            fs == forms(args@),
            fs.len() == args.len(),
            forall|k: int| 0 <= k < args.len() ==> (#[trigger] fs[k]) == args@[k]@,
            degree_view(acc) == power_in(fs, i as int, target@),
        decreases i,
    {
        i = i - 1;
        acc = higher_of(highest_power(&args[i], target), acc);
    }
    acc
}

fn kind_for(lhs: &Expression, op: TokenType, rhs: &Expression, target: &String) -> (r:
    ProblemKind)
    ensures
        r@ == kind_of(lhs@, op, rhs@, target@),
{
    match higher_of(highest_power(lhs, target), highest_power(rhs, target)) {
        None => ProblemKind::Unsupported,
        Some(d) => {
            let equation = match op {
                TokenType::Eq => true,
                _ => false,
            };
            if d.compare(&Natural::one()) != Order::Greater {
                if equation {
                    ProblemKind::Linear
                } else {
                    ProblemKind::Inequality
                }
            } else if equation {
                ProblemKind::Polynomial(d)
            } else {
                ProblemKind::Unsupported
            }
        },
    }
}

fn classify_with(stmt: &Statement, env: &Environment, target: Option<&String>) -> (r: Result<
    ProblemDescriptor,
    SolveError,
>)
    ensures
        match r {
            Ok(d) => classification(stmt@, env@, name_of(target)) == Ok::<
                (KindForm, Option<Seq<char>>),
                SymbolErrorForm,
            >((d.kind@, d.target_name())) && d.statement@ == stmt@,
            Err(err) => classification(stmt@, env@, name_of(target)) == Err::<
                (KindForm, Option<Seq<char>>),
                SymbolErrorForm,
            >(err@),
        },
{
    let unsupported = ProblemDescriptor {
        kind: ProblemKind::Unsupported,
        target: None,
        statement: stmt.duplicate(),
    };
    match stmt {
        Statement::Equation { lhs, op: Some(op), rhs: Some(rhs) } => {
            if !is_relation(op.token) {
                return Ok(unsupported);
            }
            let first = match scan_expression(lhs, env, target, Scan::Zero) {
                Ok(a) => a,
                Err(err) => {
                    return Err(err);
                },
            };
            match scan_expression(rhs, env, target, first) {
                Err(err) => Err(err),
                Ok(Scan::Zero) => Ok(
                    ProblemDescriptor {
                        kind: ProblemKind::IdentityCheck,
                        target: None,
                        statement: stmt.duplicate(),
                    },
                ),
                Ok(Scan::Several) => Ok(unsupported),
                Ok(Scan::One(t)) => {
                    let kind = kind_for(lhs, op.token, rhs, &t);
                    Ok(ProblemDescriptor { kind, target: Some(t), statement: stmt.duplicate() })
                },
            }
        },
        _ => Ok(unsupported),
    }
}

/// Classifies a statement; the unknown is the one name in it that has no
/// bound value.
pub fn classify(stmt: &Statement, env: &Environment) -> (r: Result<ProblemDescriptor, SolveError>)
    ensures
        match r {
            Ok(d) => classification(stmt@, env@, None) == Ok::<
                (KindForm, Option<Seq<char>>),
                SymbolErrorForm,
            >((d.kind@, d.target_name())) && d.statement@ == stmt@,
            Err(err) => classification(stmt@, env@, None) == Err::<
                (KindForm, Option<Seq<char>>),
                SymbolErrorForm,
            >(err@),
        },
{
    classify_with(stmt, env, None)
}

/// Classifies a statement that is to be solved for `target`; any other name
/// without a bound value cannot be resolved.
pub fn classify_for(stmt: &Statement, env: &Environment, target: &String) -> (r: Result<
    ProblemDescriptor,
    SolveError,
>)
    ensures
        match r {
            Ok(d) => classification(stmt@, env@, Some(target@)) == Ok::<
                (KindForm, Option<Seq<char>>),
                SymbolErrorForm,
            >((d.kind@, d.target_name())) && d.statement@ == stmt@,
            Err(err) => classification(stmt@, env@, Some(target@)) == Err::<
                (KindForm, Option<Seq<char>>),
                SymbolErrorForm,
            >(err@),
        },
{
    classify_with(stmt, env, Some(target))
}

} // verus!
