//! Multiplying an expression out into a sum of terms in the unknown.

use crate::ast::{forms, lemma_forms, Expression, ExpressionForm};
use crate::environment::{EntryForm, Environment};
use crate::error::{FailureReason, SolveError, SymbolErrorForm};
use crate::natural::Natural;
use crate::numeric::{is_whole, lemma_whole_form, whole_part, NumericValue};
use crate::terms::{
    all_normal, constant_only, constant_term, copy_terms, is_constant_only, join_terms,
    negate_terms, negated, product, product_terms, raise_terms, raised, scale_terms, scaled,
    total, total_of, unknown_term, view_of, Term, TermForm,
};
use crate::token::TokenType;
use vstd::prelude::*;

verus! {

/// Why an expansion stopped, mathematically.
pub enum Halt {
    /// A name could not be resolved.
    Symbol(SymbolErrorForm),
    /// The solver cannot go on.
    Failed(FailureReason),
}

/// The outcome of an expansion, mathematically.
pub enum Expansion {
    /// The sum of terms that the expression is.
    Terms(Seq<TermForm>),
    /// The expansion stopped.
    Halted(Halt),
}

/// The outcome of expanding a list of expressions, mathematically.
pub enum Expansions {
    /// One sum for each expression.
    Sums(Seq<Seq<TermForm>>),
    /// The first expansion that stopped.
    Halted(Halt),
}

/// Why an expansion stopped.
#[derive(Debug)]
pub enum Stop {
    /// A name could not be resolved.
    Symbol(SolveError),
    /// The solver cannot go on.
    Failed(FailureReason),
}

impl View for Stop {
    type V = Halt;

    open spec fn view(&self) -> Halt {
        match self {
            Stop::Symbol(e) => Halt::Symbol(e@),
            Stop::Failed(reason) => Halt::Failed(*reason),
        }
    }
}

/// The sum that a parameter stands for inside a function body.
#[derive(Debug)]
pub struct Local {
    pub name: String,
    pub terms: Vec<Term>,
}

/// The contents of a list of parameters.
pub open spec fn locals_view(s: Seq<Local>) -> Seq<(Seq<char>, Seq<TermForm>)> {
    Seq::new(s.len(), |i: int| (s[i].name@, view_of(s[i].terms@)))
}

/// What the parameter `name` stands for: the last one of that name counts.
pub open spec fn find_local(locals: Seq<(Seq<char>, Seq<TermForm>)>, name: Seq<char>) -> Option<
    Seq<TermForm>,
>
    decreases locals.len(),
{
    if locals.len() == 0 {
        None
    } else if locals.last().0 == name {
        Some(locals.last().1)
    } else {
        find_local(locals.drop_last(), name)
    }
}

/// The parameters `params` standing for the sums `values`, one for one.
pub open spec fn bound(params: Seq<Seq<char>>, values: Seq<Seq<TermForm>>) -> Seq<
    (Seq<char>, Seq<TermForm>),
> {
    Seq::new(params.len(), |i: int| (params[i], values[i]))
}

/// The name of the built-in function that divides its first argument by its
/// second.
pub open spec fn frac_name() -> Seq<char> {
    seq!['f', 'r', 'a', 'c']
}

/// The nesting of function calls that an expansion follows.
pub const CALL_DEPTH_LIMIT: u32 = 64;

/// The sum `l` divided by the sum `r`, which must be a constant other than
/// zero.
pub open spec fn divided(l: Seq<TermForm>, r: Seq<TermForm>) -> Expansion {
    if !constant_only(r) {
        Expansion::Halted(Halt::Failed(FailureReason::NoApplicableRule))
    } else if total(r) == 0real {
        Expansion::Halted(Halt::Failed(FailureReason::DivisionByZero))
    } else {
        Expansion::Terms(scaled(l, 1real / total(r)))
    }
}

/// The sum `l` raised to the power `r`, which must be a constant whole
/// number; for a negative power `l` must be a constant other than zero.
pub open spec fn powered(l: Seq<TermForm>, r: Seq<TermForm>) -> Expansion {
    if !constant_only(r) || !is_whole(total(r)) {
        Expansion::Halted(Halt::Failed(FailureReason::NoApplicableRule))
    } else if whole_part(total(r)) >= 0 {
        Expansion::Terms(raised(l, whole_part(total(r)) as nat))
    } else if !constant_only(l) {
        Expansion::Halted(Halt::Failed(FailureReason::NoApplicableRule))
    } else if total(l) == 0real {
        Expansion::Halted(Halt::Failed(FailureReason::DivisionByZero))
    } else {
        Expansion::Terms(
            raised(
                seq![TermForm { coefficient: 1real / total(l), degree: 0 }],
                (-whole_part(total(r))) as nat,
            ),
        )
    }
}

/// Two sums joined by the operator `op`.
pub open spec fn joined(op: TokenType, l: Seq<TermForm>, r: Seq<TermForm>) -> Expansion {
    match op {
        TokenType::Plus => Expansion::Terms(l + r),
        TokenType::Minus => Expansion::Terms(l + negated(r)),
        TokenType::Star => Expansion::Terms(product(l, r)),
        TokenType::Over => divided(l, r),
        TokenType::Up => powered(l, r),
        _ => Expansion::Halted(Halt::Failed(FailureReason::NoApplicableRule)),
    }
}

/// The expression multiplied out into a sum of terms in the unknown `target`.
///
/// A name stands for a parameter in `locals`, else for the unknown, else for
/// its bound value in `env`. A call of a user-defined function stands for the
/// function's body with the arguments for its parameters; calls are followed
/// `fuel` levels deep. Of built-in functions only `frac` is multiplied out.
pub open spec fn expand(
    e: ExpressionForm,
    env: Map<Seq<char>, EntryForm>,
    target: Option<Seq<char>>,
    locals: Seq<(Seq<char>, Seq<TermForm>)>,
    fuel: nat,
) -> Expansion
    decreases fuel, e,
{
    match e {
        ExpressionForm::Numeric(n) => Expansion::Terms(
            seq![TermForm { coefficient: n.value(), degree: 0 }],
        ),
        ExpressionForm::Variable(name) => match find_local(locals, name) {
            Some(ts) => Expansion::Terms(ts),
            None => if target == Some(name) {
                Expansion::Terms(seq![TermForm { coefficient: 1real, degree: 1 }])
            } else if env.contains_key(name) && env[name] is Value {
                Expansion::Terms(
                    seq![TermForm { coefficient: env[name]->Value_0.value(), degree: 0 }],
                )
            } else {
                Expansion::Halted(Halt::Symbol(SymbolErrorForm::UndefinedSymbol(name)))
            },
        },
        ExpressionForm::Binary { lhs, op, rhs } => match expand(*lhs, env, target, locals, fuel) {
            Expansion::Halted(h) => Expansion::Halted(h),
            Expansion::Terms(l) => match expand(*rhs, env, target, locals, fuel) {
                Expansion::Halted(h) => Expansion::Halted(h),
                Expansion::Terms(r) => joined(op, l, r),
            },
        },
        ExpressionForm::Grouping(inner) => expand(*inner, env, target, locals, fuel),
        ExpressionForm::Function { name, args } => if name == frac_name() && args.len() == 2 {
            match expand_all(args, 0, env, target, locals, fuel) {
                Expansions::Halted(h) => Expansion::Halted(h),
                Expansions::Sums(values) => divided(values[0], values[1]),
            }
        } else {
            Expansion::Halted(Halt::Failed(FailureReason::NoApplicableRule))
        },
        ExpressionForm::Call { name, args } => if !(env.contains_key(name)
            && env[name] is Function) {
            Expansion::Halted(Halt::Symbol(SymbolErrorForm::UndefinedFunction(name)))
        } else if env[name]->params.len() != args.len() {
            Expansion::Halted(Halt::Failed(FailureReason::NoApplicableRule))
        } else if fuel == 0 {
            Expansion::Halted(Halt::Failed(FailureReason::IterationLimitExceeded))
        } else {
            match expand_all(args, 0, env, target, locals, fuel) {
                Expansions::Halted(h) => Expansion::Halted(h),
                Expansions::Sums(values) => expand(
                    env[name]->body,
                    env,
                    target,
                    bound(env[name]->params, values),
                    (fuel - 1) as nat,
                ),
            }
        },
    }
}

/// The expressions of `args` from index `i` on, each multiplied out; the
/// first one that stops, stops all.
pub open spec fn expand_all(
    args: Seq<ExpressionForm>,
    i: int,
    env: Map<Seq<char>, EntryForm>,
    target: Option<Seq<char>>,
    locals: Seq<(Seq<char>, Seq<TermForm>)>,
    fuel: nat,
) -> Expansions
    decreases fuel, args, args.len() - i,
{
    if i < 0 || i >= args.len() {
        Expansions::Sums(Seq::empty())
    } else {
        match expand(args[i], env, target, locals, fuel) {
            Expansion::Halted(h) => Expansions::Halted(h),
            Expansion::Terms(ts) => match expand_all(args, i + 1, env, target, locals, fuel) {
                Expansions::Halted(h) => Expansions::Halted(h),
                Expansions::Sums(rest) => Expansions::Sums(seq![ts] + rest),
            },
        }
    }
}

/// Expanding a list gives one sum for each expression.
pub proof fn lemma_expand_all_len(
    args: Seq<ExpressionForm>,
    i: int,
    env: Map<Seq<char>, EntryForm>,
    target: Option<Seq<char>>,
    locals: Seq<(Seq<char>, Seq<TermForm>)>,
    fuel: nat,
)
    requires
        0 <= i <= args.len(),
    ensures
        expand_all(args, i, env, target, locals, fuel) matches Expansions::Sums(values)
            ==> values.len() == args.len() - i,
    decreases args.len() - i,
{
    if i < args.len() {
        lemma_expand_all_len(args, i + 1, env, target, locals, fuel);
    }
}

/// The text of an optional name.
pub open spec fn name_of(target: Option<&String>) -> Option<Seq<char>> {
    match target {
        Some(t) => Some(t@),
        None => None,
    }
}


/// The contents of a list of sums.
pub open spec fn sums_view(s: Seq<Vec<Term>>) -> Seq<Seq<TermForm>> {
    Seq::new(s.len(), |i: int| view_of(s[i]@))
}

/// The executable outcome `out` is the outcome `spec`.
pub open spec fn agrees(out: Result<Vec<Term>, Stop>, spec: Expansion) -> bool {
    match out {
        Ok(ts) => spec == Expansion::Terms(view_of(ts@)) && all_normal(ts@),
        Err(stop) => spec == Expansion::Halted(stop@),
    }
}

/// The executable outcome `out` is the outcome `spec`.
pub open spec fn agree_all(out: Result<Vec<Vec<Term>>, Stop>, spec: Expansions) -> bool {
    match out {
        Ok(values) => spec == Expansions::Sums(sums_view(values@)) && forall|i: int|
            0 <= i < values@.len() ==> all_normal((#[trigger] values@[i])@),
        Err(stop) => spec == Expansions::Halted(stop@),
    }
}

fn find_local_terms<'a>(locals: &'a Vec<Local>, name: &String) -> (r: Option<&'a Vec<Term>>)
    ensures
        match r {
            Some(ts) => find_local(locals_view(locals@), name@) == Some(view_of(ts@)),
            None => find_local(locals_view(locals@), name@) is None,
        },
{
    let ghost lv = locals_view(locals@);
    let mut i: usize = locals.len();
    assert(lv.take(i as int) =~= lv);
    while i > 0
        invariant
            i <= locals.len(),
            lv == locals_view(locals@),
            find_local(lv.take(i as int), name@) == find_local(lv, name@),
        decreases i,
    {
        assert(lv.take(i as int).drop_last() =~= lv.take(i - 1));
        assert(lv.take(i as int).last() == lv[i - 1]);
        i = i - 1;
        if locals[i].name == *name {
            return Some(&locals[i].terms);
        }
    }
    None
}

fn failed(reason: FailureReason) -> (out: Result<Vec<Term>, Stop>)
    ensures
        out == Err::<Vec<Term>, Stop>(Stop::Failed(reason)),
{
    Err(Stop::Failed(reason))
}

/// The sum `l` divided by the sum `r`.
pub fn divide_terms(l: &Vec<Term>, r: &Vec<Term>) -> (out: Result<Vec<Term>, Stop>)
    ensures
        agrees(out, divided(view_of(l@), view_of(r@))),
{
    if !is_constant_only(r) {
        return failed(FailureReason::NoApplicableRule);
    }
    let k = total_of(r);
    let one = NumericValue::integer(true, Natural::one());
    proof {
        lemma_whole_form(true, 1);
    }
    match one.divide(&k) {
        Err(_) => failed(FailureReason::DivisionByZero),
        Ok(inverse) => Ok(scale_terms(l, &inverse)),
    }
}

/// The sum `l` raised to the power `r`.
pub fn power_terms(l: &Vec<Term>, r: &Vec<Term>) -> (out: Result<Vec<Term>, Stop>)
    ensures
        agrees(out, powered(view_of(l@), view_of(r@))),
{
    if !is_constant_only(r) {
        return failed(FailureReason::NoApplicableRule);
    }
    let exponent = total_of(r);
    match exponent.to_integer() {
        None => failed(FailureReason::NoApplicableRule),
        Some((at_least_zero, n)) => {
            if at_least_zero {
                Ok(raise_terms(l, &n))
            } else if !is_constant_only(l) {
                failed(FailureReason::NoApplicableRule)
            } else {
                let k = total_of(l);
                let one = NumericValue::integer(true, Natural::one());
                proof {
                    lemma_whole_form(true, 1);
                }
                match one.divide(&k) {
                    Err(_) => failed(FailureReason::DivisionByZero),
                    Ok(inverse) => {
                        let unit = constant_term(&inverse);
                        Ok(raise_terms(&unit, &n))
                    },
                }
            }
        },
    }
}

/// Two sums joined by the operator `op`.
pub fn join_by(op: TokenType, l: Vec<Term>, r: Vec<Term>) -> (out: Result<Vec<Term>, Stop>)
    ensures
        agrees(out, joined(op, view_of(l@), view_of(r@))),
{
    match op {
        TokenType::Plus => Ok(join_terms(copy_normal(&l), copy_normal(&r))),
        TokenType::Minus => Ok(join_terms(copy_normal(&l), negate_terms(&r))),
        TokenType::Star => Ok(product_terms(&l, &r)),
        TokenType::Over => divide_terms(&l, &r),
        TokenType::Up => power_terms(&l, &r),
        _ => failed(FailureReason::NoApplicableRule),
    }
}

/// A copy of the terms with every coefficient in normal form.
pub fn copy_normal(ts: &Vec<Term>) -> (out: Vec<Term>)
    ensures
        view_of(out@) == view_of(ts@),
        all_normal(out@),
{
    let one = NumericValue::integer(true, Natural::one());
    proof {
        lemma_whole_form(true, 1);
    }
    let out = scale_terms(ts, &one);
    assert(view_of(out@) =~= view_of(ts@));
    out
}

fn bind_params(params: &Vec<String>, values: &Vec<Vec<Term>>) -> (out: Vec<Local>)
    requires
        params.len() == values.len(),
    ensures
        locals_view(out@) == bound(params@.map_values(|p: String| p@), sums_view(values@)),
{
    let mut out: Vec<Local> = Vec::new();
    let mut i: usize = 0;
    while i < params.len()
        invariant
            i <= params.len(),
            params.len() == values.len(),
            out@.len() == i,
            forall|k: int|
                0 <= k < i ==> (#[trigger] out@[k]).name@ == params@[k]@ && view_of(out@[k].terms@)
                    == view_of(values@[k]@),
        decreases params.len() - i,
    {
        out.push(Local { name: params[i].clone(), terms: copy_terms(&values[i]) });
        i = i + 1;
    }
    assert(locals_view(out@) =~= bound(
        params@.map_values(|p: String| p@),
        sums_view(values@),
    ));
    out
}

/// The expression multiplied out into a sum of terms in the unknown.
pub fn expand_terms(
    e: &Expression,
    env: &Environment,
    target: Option<&String>,
    locals: &Vec<Local>,
    fuel: u32,
) -> (out: Result<Vec<Term>, Stop>)
    ensures
        agrees(out, expand(e@, env@, name_of(target), locals_view(locals@), fuel as nat)),
    decreases fuel, e,
{
    match e {
        Expression::Numeric(n) => Ok(constant_term(n)),
        Expression::Variable(t) => {
            match find_local_terms(locals, &t.lexeme) {
                Some(ts) => Ok(copy_normal(ts)),
                None => {
                    let is_target = match target {
                        Some(name) => *name == t.lexeme,
                        None => false,
                    };
                    if is_target {
                        Ok(unknown_term())
                    } else {
                        match env.resolve(&t.lexeme) {
                            Ok(v) => Ok(constant_term(&v)),
                            Err(e) => Err(Stop::Symbol(e)),
                        }
                    }
                },
            }
        },
        Expression::Binary { lhs, op, rhs } => {
            let l = match expand_terms(lhs, env, target, locals, fuel) {
                Ok(l) => l,
                Err(stop) => {
                    return Err(stop);
                },
            };
            let r = match expand_terms(rhs, env, target, locals, fuel) {
                Ok(r) => r,
                Err(stop) => {
                    return Err(stop);
                },
            };
            join_by(op.token, l, r)
        },
        Expression::Grouping(inner) => expand_terms(inner, env, target, locals, fuel),
        Expression::Function { name, args } => {
            let frac = "frac".to_owned();
            proof {
                reveal_strlit("frac");
                assert("frac"@ =~= frac_name());
                lemma_forms(args@);
            }
            if name.lexeme == frac && args.len() == 2 {
                match expand_args(args, env, target, locals, fuel) {
                    Err(stop) => Err(stop),
                    Ok(values) => {
                        proof {
                            lemma_expand_all_len(
                                forms(args@),
                                0,
                                env@,
                                name_of(target),
                                locals_view(locals@),
                                fuel as nat,
                            );
                        }
                        divide_terms(&values[0], &values[1])
                    },
                }
            } else {
                failed(FailureReason::NoApplicableRule)
            }
        },
        Expression::Call { name, args } => {
            proof {
                lemma_forms(args@);
            }
            let def = match env.lookup_function(&name.lexeme) {
                Ok(def) => def,
                Err(e) => {
                    return Err(Stop::Symbol(e));
                },
            };
            if def.params.len() != args.len() {
                return failed(FailureReason::NoApplicableRule);
            }
            if fuel == 0 {
                return failed(FailureReason::IterationLimitExceeded);
            }
            match expand_args(args, env, target, locals, fuel) {
                Err(stop) => Err(stop),
                Ok(values) => {
                    proof {
                        lemma_expand_all_len(
                            forms(args@),
                            0,
                            env@,
                            name_of(target),
                            locals_view(locals@),
                            fuel as nat,
                        );
                    }
                    let inner = bind_params(&def.params, &values);
                    expand_terms(&def.body, env, target, &inner, fuel - 1)
                },
            }
        },
    }
}

/// The expressions of `args`, each multiplied out.
pub fn expand_args(
    args: &Vec<Expression>,
    env: &Environment,
    target: Option<&String>,
    locals: &Vec<Local>,
    fuel: u32,
) -> (out: Result<Vec<Vec<Term>>, Stop>)
    ensures
        agree_all(
            out,
            expand_all(forms(args@), 0, env@, name_of(target), locals_view(locals@), fuel as nat),
        ),
    decreases fuel, args@,
{
    let ghost fs = forms(args@);
    let ghost lv = locals_view(locals@);
    let mut values: Vec<Vec<Term>> = Vec::new();
    let mut i: usize = 0;
    proof {
        lemma_forms(args@);
        assert(sums_view(values@) =~= Seq::<Seq<TermForm>>::empty());
    }
    while i < args.len()
        invariant
            i <= args.len(),
            fs == forms(args@),
            fs.len() == args.len(),
            lv == locals_view(locals@),
            forall|k: int| 0 <= k < args.len() ==> (#[trigger] fs[k]) == args@[k]@,
            forall|k: int| 0 <= k < values@.len() ==> all_normal((#[trigger] values@[k])@),
            match expand_all(fs, i as int, env@, name_of(target), lv, fuel as nat) {
                Expansions::Halted(h) => expand_all(fs, 0, env@, name_of(target), lv, fuel as nat)
                    == Expansions::Halted(h),
                Expansions::Sums(rest) => expand_all(fs, 0, env@, name_of(target), lv, fuel as nat)
                    == Expansions::Sums(sums_view(values@) + rest),
            },
        decreases args.len() - i,
    {
        let ghost before = sums_view(values@);
        match expand_terms(&args[i], env, target, locals, fuel) {
            Err(stop) => {
                return Err(stop);
            },
            Ok(ts) => {
                values.push(ts);
                proof {
                    let here = view_of(ts@);
                    assert(sums_view(values@) =~= before.push(here));
                    match expand_all(fs, i + 1, env@, name_of(target), lv, fuel as nat) {
                        Expansions::Halted(h) => {},
                        Expansions::Sums(rest) => {
                            assert(before + (seq![here] + rest) =~= before.push(here) + rest);
                        },
                    }
                }
            },
        }
        i = i + 1;
    }
    proof {
        assert(sums_view(values@) + Seq::<Seq<TermForm>>::empty() =~= sums_view(values@));
    }
    Ok(values)
}

} // verus!
