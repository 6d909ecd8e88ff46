//! Laws of the solver: what its outcomes mean for the equations it is given.

use crate::ast::{ExpressionForm, StatementForm};
use crate::classify::{classification, is_bound, is_defined, kind_of, power_of, scan, scan_all, KindForm, ScanForm};
use crate::engine::{after_combine, after_distribute, after_divide, after_flip, after_move, coefficient, constant, is_flat, is_simple, is_solved, isolated, isolation, left_side, needs_move, relation, right_side, single, OutcomeForm, WorkForm};
use crate::environment::EntryForm;
use crate::error::{SymbolErrorForm, TerminalStatus};
use crate::expand::{expand, find_local, joined, Expansion, CALL_DEPTH_LIMIT};
use crate::log::{Rule, StepForm};
use crate::numeric::{normal_form, NumericForm};
use crate::render::{rendered, rendered_term};
use crate::solve::{engine_outcome, solution};
use crate::term_laws::{
    lemma_of_degree_push, lemma_value_concat, lemma_value_linear, lemma_value_negated,
    lemma_value_push, value_at,
};
use crate::terms::{negated, of_degree, product, times, total, within_degree, TermForm};
use crate::token::TokenType;
use vstd::prelude::*;

verus! {

/// The sum of one term.
proof fn lemma_single(t: TermForm, d: nat)
    ensures
        of_degree(seq![t], d) == (if t.degree == d {
            seq![t]
        } else {
            Seq::<TermForm>::empty()
        }),
        total(seq![t]) == t.coefficient,
        total(Seq::<TermForm>::empty()) == 0real,
        of_degree(Seq::<TermForm>::empty(), d) == Seq::<TermForm>::empty(),
{
    let s = seq![t];
    let none = Seq::<TermForm>::empty();
    assert(s.drop_last() =~= none);
    assert(s.last() == t);
    assert(of_degree(none, d) == none);
    assert(total(none) == 0real);
    assert(total(s) == total(s.drop_last()) + t.coefficient);
    if t.degree == d {
        assert(Seq::<TermForm>::empty().push(t) =~= s);
    }
}

/// The unknown `x` stands for itself: it is the given target, or no target is
/// given and the name has no bound value.
pub open spec fn is_unknown(env: Map<Seq<char>, EntryForm>, target: Option<Seq<char>>, x: Seq<char>) -> bool {
    target == Some(x) || (target is None && !is_bound(env, x))
}

/// An equation that is already solved is left alone: solving `x = k`, or
/// `x` in any other relation to a number `k`, applies no step and ends as
/// solved, with the statement as it was given.
pub proof fn law_solved_stays(
    x: Seq<char>,
    op: TokenType,
    k: NumericForm,
    env: Map<Seq<char>, EntryForm>,
    target: Option<Seq<char>>,
)
    requires
        op.is_relation(),
        is_unknown(env, target, x),
    ensures
        solution(
            relation(ExpressionForm::Variable(x), op, ExpressionForm::Numeric(k)),
            env,
            target,
        ) == Ok::<OutcomeForm, SymbolErrorForm>(
            OutcomeForm {
                statement: relation(ExpressionForm::Variable(x), op, ExpressionForm::Numeric(k)),
                roots: seq![ExpressionForm::Numeric(normal_form(k.value()))],
                steps: Seq::empty(),
                status: TerminalStatus::Solved,
            },
        ),
{
    let lhs = ExpressionForm::Variable(x);
    let rhs = ExpressionForm::Numeric(k);
    let stmt = relation(lhs, op, rhs);
    let one = TermForm { coefficient: 1real, degree: 1 };
    let kt = TermForm { coefficient: k.value(), degree: 0 };
    let l = seq![one];
    let r = seq![kt];
    assert(scan(lhs, env, target, ScanForm::Zero) == Ok::<ScanForm, SymbolErrorForm>(
        ScanForm::One(x),
    ));
    assert(scan(rhs, env, target, ScanForm::One(x)) == Ok::<ScanForm, SymbolErrorForm>(
        ScanForm::One(x),
    ));
    assert(power_of(lhs, x) == Some(1nat));
    assert(power_of(rhs, x) == Some(0nat));
    let kind = kind_of(lhs, op, rhs, x);
    assert(kind == KindForm::Linear || kind == KindForm::Inequality);
    assert(classification(stmt, env, target) == Ok::<
        (KindForm, Option<Seq<char>>),
        SymbolErrorForm,
    >((kind, Some(x))));
    assert(find_local(Seq::empty(), x) is None);
    assert(expand(lhs, env, Some(x), Seq::empty(), CALL_DEPTH_LIMIT as nat) == Expansion::Terms(
        l,
    ));
    assert(expand(rhs, env, Some(x), Seq::empty(), CALL_DEPTH_LIMIT as nat) == Expansion::Terms(
        r,
    ));
    lemma_single(one, 0);
    lemma_single(one, 1);
    lemma_single(kt, 0);
    lemma_single(kt, 1);
    assert(within_degree(l, 1) && within_degree(r, 1));
    assert(!needs_move(l, r));
    assert(coefficient(l, r) == 1real);
    assert(constant(l, r) == k.value());
    let start = WorkForm { lhs, op, rhs, steps: Seq::empty() };
    assert(is_flat(lhs, x) && is_flat(rhs, x));
    assert(after_distribute(start, l, r, x) == start);
    assert(after_move(start, l, r, x) == start);
    assert(after_combine(start, l, r, x) == start);
    assert(after_flip(start, 1real, k.value(), x) == start);
    assert(after_divide(start, 1real, k.value(), x) == start);
    assert(k.value() / 1real == k.value());
    assert(isolation(stmt, lhs, op, rhs, env, x) == Ok::<OutcomeForm, SymbolErrorForm>(
        isolated(lhs, op, rhs, l, r, x),
    ));
    assert(engine_outcome(stmt, kind, Some(x), env) == isolation(stmt, lhs, op, rhs, env, x));
}


/// A sum of one term is written as that term.
proof fn lemma_rendered_single(c: real, d: nat, t: Seq<char>)
    ensures
        rendered(single(c, d), t) == rendered_term(TermForm { coefficient: c, degree: d }, t),
{
    assert(single(c, d).len() == 1);
    assert(single(c, d)[0] == TermForm { coefficient: c, degree: d });
}

/// The equation `a * x + b = c`.
pub open spec fn linear_equation(a: NumericForm, x: Seq<char>, b: NumericForm, c: NumericForm) -> StatementForm {
    relation(
        ExpressionForm::Binary {
            lhs: Box::new(
                ExpressionForm::Binary {
                    lhs: Box::new(ExpressionForm::Numeric(a)),
                    op: TokenType::Star,
                    rhs: Box::new(ExpressionForm::Variable(x)),
                },
            ),
            op: TokenType::Plus,
            rhs: Box::new(ExpressionForm::Numeric(b)),
        },
        TokenType::Eq,
        ExpressionForm::Numeric(c),
    )
}

/// Solving `a * x + b = c` with `a` other than zero ends as solved with
/// `x = (c - b) / a`; the derivation is not empty, and its last step holds
/// that statement, the unknown alone on the left.
pub proof fn law_linear_equation(
    a: NumericForm,
    x: Seq<char>,
    b: NumericForm,
    c: NumericForm,
    env: Map<Seq<char>, EntryForm>,
    target: Option<Seq<char>>,
)
    requires
        a.value() != 0real,
        is_unknown(env, target, x),
    ensures
        ({
            let root = ExpressionForm::Numeric(normal_form((c.value() - b.value()) / a.value()));
            let solved = relation(ExpressionForm::Variable(x), TokenType::Eq, root);
            &&& solution(linear_equation(a, x, b, c), env, target) matches Ok(out)
            &&& out.status == TerminalStatus::Solved
            &&& out.statement == solved
            &&& out.roots == seq![root]
            &&& out.steps.len() > 0
            &&& out.steps.last().statement == solved
        }),
{
    let na = ExpressionForm::Numeric(a);
    let vx = ExpressionForm::Variable(x);
    let inner = ExpressionForm::Binary { lhs: Box::new(na), op: TokenType::Star, rhs: Box::new(vx) };
    let nb = ExpressionForm::Numeric(b);
    let lhs = ExpressionForm::Binary { lhs: Box::new(inner), op: TokenType::Plus, rhs: Box::new(nb) };
    let rhs = ExpressionForm::Numeric(c);
    let op = TokenType::Eq;
    let stmt = linear_equation(a, x, b, c);
    assert(stmt == relation(lhs, op, rhs));
    let fuel = CALL_DEPTH_LIMIT as nat;
    let none = Seq::<TermForm>::empty();
    let av = a.value();
    let bv = b.value();
    let cv = c.value();
    // Classification.
    assert(scan(na, env, target, ScanForm::Zero) == Ok::<ScanForm, SymbolErrorForm>(
        ScanForm::Zero,
    ));
    assert(scan(vx, env, target, ScanForm::Zero) == Ok::<ScanForm, SymbolErrorForm>(
        ScanForm::One(x),
    ));
    assert(scan(inner, env, target, ScanForm::Zero) == Ok::<ScanForm, SymbolErrorForm>(
        ScanForm::One(x),
    ));
    assert(scan(nb, env, target, ScanForm::One(x)) == Ok::<ScanForm, SymbolErrorForm>(
        ScanForm::One(x),
    ));
    assert(scan(lhs, env, target, ScanForm::Zero) == Ok::<ScanForm, SymbolErrorForm>(
        ScanForm::One(x),
    ));
    assert(scan(rhs, env, target, ScanForm::One(x)) == Ok::<ScanForm, SymbolErrorForm>(
        ScanForm::One(x),
    ));
    assert(power_of(na, x) == Some(0nat));
    assert(power_of(vx, x) == Some(1nat));
    assert(power_of(inner, x) == Some(1nat));
    assert(power_of(nb, x) == Some(0nat));
    assert(power_of(lhs, x) == Some(1nat));
    assert(power_of(rhs, x) == Some(0nat));
    assert(kind_of(lhs, op, rhs, x) == KindForm::Linear);
    assert(classification(stmt, env, target) == Ok::<
        (KindForm, Option<Seq<char>>),
        SymbolErrorForm,
    >((KindForm::Linear, Some(x))));
    // Multiplying out.
    let a0 = TermForm { coefficient: av, degree: 0 };
    let x1 = TermForm { coefficient: 1real, degree: 1 };
    let ax = TermForm { coefficient: av, degree: 1 };
    let b0 = TermForm { coefficient: bv, degree: 0 };
    let c0 = TermForm { coefficient: cv, degree: 0 };
    let nb0 = TermForm { coefficient: -bv, degree: 0 };
    assert(find_local(Seq::empty(), x) is None);
    assert(expand(na, env, Some(x), Seq::empty(), fuel) == Expansion::Terms(seq![a0]));
    assert(expand(vx, env, Some(x), Seq::empty(), fuel) == Expansion::Terms(seq![x1]));
    assert(product(seq![a0], seq![x1]) == seq![ax]) by {
        assert(seq![a0].drop_last() =~= none);
        assert(product(none, seq![x1]) == none);
        assert(times(seq![x1], a0) =~= seq![ax]);
        assert(none + seq![ax] =~= seq![ax]);
    }
    assert(joined(TokenType::Star, seq![a0], seq![x1]) == Expansion::Terms(seq![ax]));
    assert(expand(inner, env, Some(x), Seq::empty(), fuel) == Expansion::Terms(seq![ax]));
    assert(expand(nb, env, Some(x), Seq::empty(), fuel) == Expansion::Terms(seq![b0]));
    let l = seq![ax, b0];
    let r = seq![c0];
    assert(seq![ax] + seq![b0] =~= l);
    assert(expand(lhs, env, Some(x), Seq::empty(), fuel) == Expansion::Terms(l));
    assert(expand(rhs, env, Some(x), Seq::empty(), fuel) == Expansion::Terms(r));
    assert(within_degree(l, 1) && within_degree(r, 1));
    // The sides by degree.
    lemma_single(ax, 0);
    lemma_single(ax, 1);
    lemma_single(b0, 0);
    lemma_single(c0, 0);
    lemma_single(c0, 1);
    assert(seq![ax].push(b0) =~= l);
    lemma_of_degree_push(seq![ax], b0, 0);
    lemma_of_degree_push(seq![ax], b0, 1);
    assert(of_degree(l, 1) == seq![ax]);
    assert(of_degree(l, 0) =~= seq![b0]);
    assert(needs_move(l, r));
    let left = left_side(l, r);
    let right = right_side(l, r);
    assert(negated(none) =~= none);
    assert(left =~= seq![ax]);
    assert(negated(seq![b0]) =~= seq![nb0]);
    assert(right =~= seq![c0, nb0]);
    assert(coefficient(l, r) == av);
    assert(constant(l, r) == cv - bv);
    // The steps.
    let start = WorkForm { lhs, op, rhs, steps: Seq::empty() };
    assert(is_simple(inner, x));
    assert(is_flat(inner, x));
    assert(is_flat(lhs, x) && is_flat(rhs, x));
    assert(after_distribute(start, l, r, x) == start);
    let w1 = after_move(start, l, r, x);
    let w2 = after_combine(w1, l, r, x);
    lemma_rendered_single(av, 1, x);
    lemma_rendered_single(cv - bv, 0, x);
    let k = (cv - bv) / av;
    assert(w2.lhs == rendered_term(ax, x));
    assert(w2.rhs == ExpressionForm::Numeric(normal_form(cv - bv)));
    assert(w2.op == op);
    assert(w2.steps.len() == 2);
    assert(after_flip(w2, av, cv - bv, x) == w2);
    let w3 = after_divide(w2, av, cv - bv, x);
    if av == 1real {
        assert(w2.lhs == vx);
        assert(is_solved(w2.lhs, w2.rhs, x));
        assert(k == cv - bv);
        assert(w3 == w2);
    } else {
        assert(!is_solved(w2.lhs, w2.rhs, x));
    }
    assert(isolated(lhs, op, rhs, l, r, x).statement == relation(
        vx,
        op,
        ExpressionForm::Numeric(normal_form(k)),
    ));
    assert(isolation(stmt, lhs, op, rhs, env, x) == Ok::<OutcomeForm, SymbolErrorForm>(
        isolated(lhs, op, rhs, l, r, x),
    ));
    assert(engine_outcome(stmt, KindForm::Linear, Some(x), env) == isolation(
        stmt,
        lhs,
        op,
        rhs,
        env,
        x,
    ));
}


/// The expression holds a name that is neither the unknown `t` nor bound to a
/// value, or a call of a function without a definition.
pub open spec fn unresolved(e: ExpressionForm, env: Map<Seq<char>, EntryForm>, t: Seq<char>) -> bool
    decreases e,
{
    match e {
        ExpressionForm::Numeric(_) => false,
        ExpressionForm::Variable(name) => name != t && !is_bound(env, name),
        ExpressionForm::Binary { lhs, op, rhs } => unresolved(*lhs, env, t) || unresolved(
            *rhs,
            env,
            t,
        ),
        ExpressionForm::Grouping(inner) => unresolved(*inner, env, t),
        ExpressionForm::Function { name, args } => unresolved_in(args, 0, env, t),
        ExpressionForm::Call { name, args } => !is_defined(env, name) || unresolved_in(
            args,
            0,
            env,
            t,
        ),
    }
}

/// One of the expressions of `args` from index `i` on is `unresolved`.
pub open spec fn unresolved_in(
    args: Seq<ExpressionForm>,
    i: int,
    env: Map<Seq<char>, EntryForm>,
    t: Seq<char>,
) -> bool
    decreases args, args.len() - i,
{
    if i < 0 || i >= args.len() {
        false
    } else {
        unresolved(args[i], env, t) || unresolved_in(args, i + 1, env, t)
    }
}

/// With a given unknown, a walk fails exactly on an expression that is
/// `unresolved`, and then with an unresolvable symbol.
pub proof fn lemma_scan_unresolved(
    e: ExpressionForm,
    env: Map<Seq<char>, EntryForm>,
    t: Seq<char>,
    acc: ScanForm,
)
    ensures
        scan(e, env, Some(t), acc) is Err <==> unresolved(e, env, t),
        scan(e, env, Some(t), acc) matches Err(err) ==> err is UnresolvableSymbol,
    decreases e,
{
    match e {
        ExpressionForm::Numeric(_) => {},
        ExpressionForm::Variable(name) => {},
        ExpressionForm::Binary { lhs, op, rhs } => {
            lemma_scan_unresolved(*lhs, env, t, acc);
            match scan(*lhs, env, Some(t), acc) {
                Ok(a) => {
                    lemma_scan_unresolved(*rhs, env, t, a);
                },
                Err(_) => {},
            }
        },
        ExpressionForm::Grouping(inner) => {
            lemma_scan_unresolved(*inner, env, t, acc);
        },
        ExpressionForm::Function { name, args } => {
            lemma_scan_all_unresolved(args, 0, env, t, acc);
        },
        ExpressionForm::Call { name, args } => {
            lemma_scan_all_unresolved(args, 0, env, t, acc);
        },
    }
}

/// The same for a walk through a list of expressions.
pub proof fn lemma_scan_all_unresolved(
    args: Seq<ExpressionForm>,
    i: int,
    env: Map<Seq<char>, EntryForm>,
    t: Seq<char>,
    acc: ScanForm,
)
    requires
        0 <= i,
    ensures
        scan_all(args, i, env, Some(t), acc) is Err <==> unresolved_in(args, i, env, t),
        scan_all(args, i, env, Some(t), acc) matches Err(err) ==> err is UnresolvableSymbol,
    decreases args, args.len() - i,
{
    if i < args.len() {
        lemma_scan_unresolved(args[i], env, t, acc);
        match scan(args[i], env, Some(t), acc) {
            Ok(a) => {
                lemma_scan_all_unresolved(args, i + 1, env, t, a);
            },
            Err(_) => {},
        }
    }
}

/// Solving a relation for `t` fails with an unresolvable symbol, and not as
/// a failed solve, where a side holds a name that is neither `t` nor bound to
/// a value.
pub proof fn law_unbound_name_is_unresolvable(
    lhs: ExpressionForm,
    op: TokenType,
    rhs: ExpressionForm,
    env: Map<Seq<char>, EntryForm>,
    t: Seq<char>,
)
    requires
        op.is_relation(),
        unresolved(lhs, env, t) || unresolved(rhs, env, t),
    ensures
        solution(relation(lhs, op, rhs), env, Some(t)) matches Err(err)
            && err is UnresolvableSymbol,
{
    lemma_scan_unresolved(lhs, env, t, ScanForm::Zero);
    match scan(lhs, env, Some(t), ScanForm::Zero) {
        Ok(a) => {
            lemma_scan_unresolved(rhs, env, t, a);
        },
        Err(_) => {},
    }
}

/// The relation that the solver leaves: turned round where an order relation
/// stood over a negative coefficient.
pub open spec fn final_relation(op: TokenType, a: real) -> TokenType {
    if op.is_order() && a < 0real {
        op.mirrored()
    } else {
        op
    }
}

/// Isolating the unknown keeps the meaning of the relation.
///
/// For sides of degree at most one: with a coefficient other than zero the
/// solve ends as solved, the unknown alone on the left, and the given
/// relation holds of the two sides at `y` exactly when the final relation
/// holds of `y` and the root. With a coefficient of zero the solve ends with
/// infinitely many solutions where the relation holds at `y`, and with none
/// where it does not.
pub proof fn law_isolation_keeps_meaning(
    lhs: ExpressionForm,
    op: TokenType,
    rhs: ExpressionForm,
    l: Seq<TermForm>,
    r: Seq<TermForm>,
    t: Seq<char>,
    y: real,
)
    requires
        within_degree(l, 1),
        within_degree(r, 1),
        op.is_relation(),
    ensures
        ({
            let out = isolated(lhs, op, rhs, l, r, t);
            let a = coefficient(l, r);
            let c = constant(l, r);
            let holds = op.holds(value_at(l, y), value_at(r, y));
            &&& a != 0real ==> {
                &&& out.status == TerminalStatus::Solved
                &&& out.roots == seq![ExpressionForm::Numeric(normal_form(c / a))]
                &&& out.statement matches StatementForm::Equation {
                    lhs: left,
                    op: Some(last),
                    rhs: Some(right),
                }
                &&& left == ExpressionForm::Variable(t)
                &&& right is Numeric
                &&& last == final_relation(op, a)
                &&& holds <==> last.holds(y, c / a)
            }
            &&& a == 0real ==> {
                &&& holds ==> out.status == TerminalStatus::InfiniteSolutions
                &&& !holds ==> out.status == TerminalStatus::NoSolution
            }
        }),
{
    lemma_value_linear(l, y);
    lemma_value_linear(r, y);
    let al = total(of_degree(l, 1));
    let cl = total(of_degree(l, 0));
    let ar = total(of_degree(r, 1));
    let cr = total(of_degree(r, 0));
    let a = coefficient(l, r);
    let c = constant(l, r);
    let start = WorkForm { lhs, op, rhs, steps: Seq::empty() };
    let w = after_combine(after_move(after_distribute(start, l, r, t), l, r, t), l, r, t);
    assert(w.op == op);
    let lv = al * y + cl;
    let rv = ar * y + cr;
    if a != 0real {
        let k = c / a;
        let flipped = after_flip(w, a, c, t);
        let done = after_divide(flipped, a, c, t);
        assert(flipped.op == final_relation(op, a));
        assert(done.op == flipped.op);
        assert(done.lhs == ExpressionForm::Variable(t));
        assert(done.rhs is Numeric);
        assert((lv < rv) <==> (a * y < c)) by (nonlinear_arith)
            requires
                lv == al * y + cl,
                rv == ar * y + cr,
                a == al - ar,
                c == cr - cl,
        ;
        assert((lv == rv) <==> (a * y == c)) by (nonlinear_arith)
            requires
                lv == al * y + cl,
                rv == ar * y + cr,
                a == al - ar,
                c == cr - cl,
        ;
        if a > 0real {
            assert(((a * y < c) <==> (y < k)) && ((a * y == c) <==> (y == k)))
                by (nonlinear_arith)
                requires
                    a > 0real,
                    k == c / a,
            ;
        } else {
            assert(((a * y < c) <==> (y > k)) && ((a * y == c) <==> (y == k)))
                by (nonlinear_arith)
                requires
                    a < 0real,
                    k == c / a,
            ;
        }
    } else {
        assert(lv - rv == -c) by (nonlinear_arith)
            requires
                lv == al * y + cl,
                rv == ar * y + cr,
                al - ar == 0real,
                c == cr - cl,
        ;
    }
}


/// Dividing an order relation by a negative coefficient turns it round, and
/// the turn is a step of its own: for sides of degree at most one whose
/// coefficient is negative, the derivation holds a step of the rule
/// `flip-inequality`, whose statement has the relation turned round, and the
/// final statement has it too.
pub proof fn law_negative_coefficient_flips(
    lhs: ExpressionForm,
    op: TokenType,
    rhs: ExpressionForm,
    l: Seq<TermForm>,
    r: Seq<TermForm>,
    t: Seq<char>,
) -> (i: int)
    requires
        op.is_order(),
        coefficient(l, r) < 0real,
    ensures
        ({
            let out = isolated(lhs, op, rhs, l, r, t);
            &&& 0 <= i < out.steps.len()
            &&& out.steps[i].rule == Rule::FlipInequality
            &&& out.steps[i].statement matches StatementForm::Equation { op: Some(turned), .. }
            &&& turned == op.mirrored()
            &&& out.statement matches StatementForm::Equation { op: Some(last), .. }
            &&& last == op.mirrored()
        }),
{
    let a = coefficient(l, r);
    let c = constant(l, r);
    let start = WorkForm { lhs, op, rhs, steps: Seq::empty() };
    let w = after_combine(after_move(after_distribute(start, l, r, t), l, r, t), l, r, t);
    assert(w.op == op);
    let flipped = after_flip(w, a, c, t);
    let done = after_divide(flipped, a, c, t);
    let i = w.steps.len() as int;
    assert(flipped.steps[i].rule == Rule::FlipInequality);
    assert(done.steps[i] == flipped.steps[i]);
    i
}


/// The two sides and the relation that a rule leaves of the sums `l` and `r`
/// under the relation `op`.
pub open spec fn step_sides(l: Seq<TermForm>, r: Seq<TermForm>, op: TokenType, rule: Rule) -> (
    Seq<TermForm>,
    TokenType,
    Seq<TermForm>,
) {
    let a = coefficient(l, r);
    let c = constant(l, r);
    match rule {
        Rule::Distribute => (l, op, r),
        Rule::MoveTerm => (left_side(l, r), op, right_side(l, r)),
        Rule::CombineLikeTerms => (single(a, 1), op, single(c, 0)),
        Rule::FlipInequality => (single(-a, 1), op.mirrored(), single(-c, 0)),
        _ => (single(1real, 1), final_relation(op, a), single(c / a, 0)),
    }
}

/// The step holds the two sides that its rule leaves, written out, and they
/// stand in their relation at `y` exactly when the given sides stand in
/// theirs.
pub open spec fn step_keeps_meaning(
    step: StepForm,
    l: Seq<TermForm>,
    r: Seq<TermForm>,
    op: TokenType,
    t: Seq<char>,
    y: real,
) -> bool {
    let sides = step_sides(l, r, op, step.rule);
    &&& step.statement == relation(rendered(sides.0, t), sides.1, rendered(sides.2, t))
    &&& op.holds(value_at(l, y), value_at(r, y)) <==> sides.1.holds(
        value_at(sides.0, y),
        value_at(sides.2, y),
    )
}

/// Every step of the sequence keeps the meaning.
pub open spec fn steps_keep_meaning(
    steps: Seq<StepForm>,
    l: Seq<TermForm>,
    r: Seq<TermForm>,
    op: TokenType,
    t: Seq<char>,
    y: real,
) -> bool {
    forall|i: int| 0 <= i < steps.len() ==> step_keeps_meaning(#[trigger] steps[i], l, r, op, t, y)
}

proof fn lemma_steps_push(
    steps: Seq<StepForm>,
    step: StepForm,
    l: Seq<TermForm>,
    r: Seq<TermForm>,
    op: TokenType,
    t: Seq<char>,
    y: real,
)
    requires
        steps_keep_meaning(steps, l, r, op, t, y),
        step_keeps_meaning(step, l, r, op, t, y),
    ensures
        steps_keep_meaning(steps.push(step), l, r, op, t, y),
{
    let all = steps.push(step);
    assert forall|i: int| 0 <= i < all.len() implies step_keeps_meaning(
        #[trigger] all[i],
        l,
        r,
        op,
        t,
        y,
    ) by {
        if i < steps.len() {
            assert(all[i] == steps[i]);
        }
    }
}

/// A sum of degree at most one has the value of its terms in the unknown and
/// of its constants, added.
proof fn lemma_value_by_degree(ts: Seq<TermForm>, y: real)
    requires
        within_degree(ts, 1),
    ensures
        value_at(ts, y) == value_at(of_degree(ts, 1), y) + value_at(of_degree(ts, 0), y),
    decreases ts.len(),
{
    if ts.len() > 0 {
        let init = ts.drop_last();
        let last = ts.last();
        assert(within_degree(init, 1)) by {
            assert forall|i: int| 0 <= i < init.len() implies (#[trigger] init[i]).degree <= 1 by {
                assert(init[i] == ts[i]);
            }
        }
        lemma_value_by_degree(init, y);
        if last.degree == 0 {
            lemma_value_push(of_degree(init, 0), last, y);
        } else {
            lemma_value_push(of_degree(init, 1), last, y);
        }
    }
}

proof fn lemma_value_of_single(c: real, d: nat, y: real)
    ensures
        d == 0 ==> value_at(single(c, d), y) == c,
        d == 1 ==> value_at(single(c, d), y) == c * y,
{
    let s = single(c, d);
    assert(s.drop_last() =~= Seq::<TermForm>::empty());
    assert(value_at(s.drop_last(), y) == 0real);
    assert(s.last() == TermForm { coefficient: c, degree: d });
    let p = crate::rational::real_power(y, d);
    if d == 0 {
        assert(c * p == c) by (nonlinear_arith)
            requires
                p == 1real,
        ;
    }
    if d == 1 {
        assert(crate::rational::real_power(y, 1) == y * crate::rational::real_power(y, 0));
        assert(c * p == c * y) by (nonlinear_arith)
            requires
                p == y * 1real,
        ;
    }
}

/// Every step of a derivation keeps the meaning of the relation.
///
/// For sides of degree at most one: each step that isolating the unknown
/// records holds the two sides that its rule leaves, written out; and at any
/// `y` those sides stand in the step's relation exactly when the given sides
/// stand in the given relation.
pub proof fn law_steps_keep_meaning(
    lhs: ExpressionForm,
    op: TokenType,
    rhs: ExpressionForm,
    l: Seq<TermForm>,
    r: Seq<TermForm>,
    t: Seq<char>,
    y: real,
)
    requires
        within_degree(l, 1),
        within_degree(r, 1),
        op.is_relation(),
    ensures
        steps_keep_meaning(isolated(lhs, op, rhs, l, r, t).steps, l, r, op, t, y),
{
    let a = coefficient(l, r);
    let c = constant(l, r);
    let lv = value_at(l, y);
    let rv = value_at(r, y);
    lemma_value_linear(l, y);
    lemma_value_linear(r, y);
    lemma_value_by_degree(l, y);
    lemma_value_by_degree(r, y);
    let l1 = of_degree(l, 1);
    let l0 = of_degree(l, 0);
    let r1 = of_degree(r, 1);
    let r0 = of_degree(r, 0);
    let start = WorkForm { lhs, op, rhs, steps: Seq::empty() };
    assert(steps_keep_meaning(start.steps, l, r, op, t, y));
    // Distribution.
    let w1 = after_distribute(start, l, r, t);
    if !(is_flat(lhs, t) && is_flat(rhs, t)) {
        let step = StepForm {
            rule: Rule::Distribute,
            statement: relation(rendered(l, t), op, rendered(r, t)),
        };
        assert(step_keeps_meaning(step, l, r, op, t, y));
        lemma_steps_push(start.steps, step, l, r, op, t, y);
    }
    assert(steps_keep_meaning(w1.steps, l, r, op, t, y));
    assert(w1.op == op);
    // Moving terms.
    let w2 = after_move(w1, l, r, t);
    if needs_move(l, r) {
        let left = left_side(l, r);
        let right = right_side(l, r);
        lemma_value_concat(l1, negated(r1), y);
        lemma_value_negated(r1, y);
        lemma_value_concat(r0, negated(l0), y);
        lemma_value_negated(l0, y);
        assert(value_at(left, y) - value_at(right, y) == lv - rv);
        let step = StepForm {
            rule: Rule::MoveTerm,
            statement: relation(rendered(left, t), op, rendered(right, t)),
        };
        assert(step_keeps_meaning(step, l, r, op, t, y));
        lemma_steps_push(w1.steps, step, l, r, op, t, y);
    }
    assert(steps_keep_meaning(w2.steps, l, r, op, t, y));
    assert(w2.op == op);
    // Combining like terms.
    let w3 = after_combine(w2, l, r, t);
    lemma_value_of_single(a, 1, y);
    lemma_value_of_single(c, 0, y);
    let ay = a * y;
    assert(ay - c == lv - rv) by (nonlinear_arith)
        requires
            ay == a * y,
            a == total(l1) - total(r1),
            c == total(r0) - total(l0),
            lv == total(l1) * y + total(l0),
            rv == total(r1) * y + total(r0),
    ;
    if !(left_side(l, r).len() == 1 && right_side(l, r).len() == 1) {
        let step = StepForm {
            rule: Rule::CombineLikeTerms,
            statement: relation(rendered(single(a, 1), t), op, rendered(single(c, 0), t)),
        };
        assert(step_keeps_meaning(step, l, r, op, t, y));
        lemma_steps_push(w2.steps, step, l, r, op, t, y);
    }
    assert(steps_keep_meaning(w3.steps, l, r, op, t, y));
    assert(w3.op == op);
    if a != 0real {
        // The flip.
        let w4 = after_flip(w3, a, c, t);
        lemma_value_of_single(-a, 1, y);
        lemma_value_of_single(-c, 0, y);
        let nay = (-a) * y;
        assert(nay == -ay) by (nonlinear_arith)
            requires
                nay == (-a) * y,
                ay == a * y,
        ;
        if op.is_order() && a < 0real {
            let step = StepForm {
                rule: Rule::FlipInequality,
                statement: relation(
                    rendered(single(-a, 1), t),
                    op.mirrored(),
                    rendered(single(-c, 0), t),
                ),
            };
            assert(step_keeps_meaning(step, l, r, op, t, y));
            lemma_steps_push(w3.steps, step, l, r, op, t, y);
        }
        assert(steps_keep_meaning(w4.steps, l, r, op, t, y));
        assert(w4.op == final_relation(op, a));
        // Division.
        let k = c / a;
        lemma_value_of_single(1real, 1, y);
        lemma_value_of_single(k, 0, y);
        lemma_rendered_single(1real, 1, t);
        lemma_rendered_single(k, 0, t);
        assert(1real * y == y) by (nonlinear_arith);
        if a > 0real {
            assert(((ay < c) <==> (y < k)) && ((ay == c) <==> (y == k))) by (nonlinear_arith)
                requires
                    ay == a * y,
                    a > 0real,
                    k == c / a,
            ;
        } else {
            assert(((ay < c) <==> (y > k)) && ((ay == c) <==> (y == k))) by (nonlinear_arith)
                requires
                    ay == a * y,
                    a < 0real,
                    k == c / a,
            ;
        }
        if !is_solved(w4.lhs, w4.rhs, t) {
            let step = StepForm {
                rule: Rule::DivideByCoefficient,
                statement: relation(
                    ExpressionForm::Variable(t),
                    w4.op,
                    ExpressionForm::Numeric(normal_form(k)),
                ),
            };
            assert(rendered(single(1real, 1), t) == ExpressionForm::Variable(t));
            assert(rendered(single(k, 0), t) == ExpressionForm::Numeric(normal_form(k)));
            assert(step_keeps_meaning(step, l, r, op, t, y));
            lemma_steps_push(w4.steps, step, l, r, op, t, y);
        }
    }
}

} // verus!
