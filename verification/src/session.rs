//! One solving session: the statements that came before an equation fill the
//! environment in which it is solved.

use crate::ast::{names, Expression, ExpressionForm, Statement, StatementForm};
use crate::environment::{EntryForm, Environment};
use crate::expand::{
    expand, expand_terms, locals_view, Expansion, Local, Stop, CALL_DEPTH_LIMIT,
};
use crate::numeric::{lemma_normal_form_of, normal_form, NumericValue};
use crate::terms::{total, total_of};
use crate::token::Token;
use vstd::prelude::*;

verus! {

/// What an expression without an unknown is worth: the total of its sum.
pub open spec fn worth(e: ExpressionForm, env: Map<Seq<char>, EntryForm>) -> Expansion {
    expand(e, env, None, Seq::empty(), CALL_DEPTH_LIMIT as nat)
}

/// The value of an expression in which every name has a bound value, in
/// normal form.
pub fn evaluate(e: &Expression, env: &Environment) -> (out: Result<NumericValue, Stop>)
    ensures
        match out {
            Ok(v) => worth(e@, env@) matches Expansion::Terms(ts) && v@ == normal_form(
                total(ts),
            ) && v@.is_normal() && v@.value() == total(ts),
            Err(stop) => worth(e@, env@) == Expansion::Halted(stop@),
        },
{
    let locals: Vec<Local> = Vec::new();
    assert(locals_view(locals@) =~= Seq::empty());
    match expand_terms(e, env, None, &locals, CALL_DEPTH_LIMIT) {
        Err(stop) => Err(stop),
        Ok(ts) => {
            let v = total_of(&ts);
            proof {
                lemma_normal_form_of(v@);
            }
            Ok(v)
        },
    }
}

fn texts(tokens: &Vec<Token>) -> (out: Vec<String>)
    ensures
        out@.map_values(|p: String| p@) == names(tokens@),
{
    let mut out: Vec<String> = Vec::new();
    let mut i: usize = 0;
    while i < tokens.len()
        invariant
            i <= tokens.len(),
            out@.len() == i,
            forall|k: int| 0 <= k < i ==> (#[trigger] out@[k])@ == tokens@[k].lexeme@,
        decreases tokens.len() - i,
    {
        out.push(tokens[i].lexeme.clone());
        i = i + 1;
    }
    assert(out@.map_values(|p: String| p@) =~= names(tokens@));
    out
}

/// The environment after a statement has been taken into it.
///
/// A binding gives its name the worth of its expression; where that cannot
/// be had, the environment stays as it is. A definition gives its name the
/// function. An equation changes nothing.
pub open spec fn declared(stmt: StatementForm, env: Map<Seq<char>, EntryForm>) -> Map<
    Seq<char>,
    EntryForm,
> {
    match stmt {
        StatementForm::State { name, value } => match worth(value, env) {
            Expansion::Terms(ts) => env.insert(name, EntryForm::Value(normal_form(total(ts)))),
            Expansion::Halted(_) => env,
        },
        StatementForm::Function { name, params, body } => env.insert(
            name,
            EntryForm::Function { params, body },
        ),
        StatementForm::Equation { .. } => env,
    }
}

/// Takes a statement into the environment: a binding binds its name, a
/// definition defines its function. Fails where the expression of a binding
/// has no worth.
pub fn declare(stmt: &Statement, env: &mut Environment) -> (out: Result<(), Stop>)
    ensures
        final(env)@ == declared(stmt@, old(env)@),
        match out {
            Ok(_) => !(stmt@ matches StatementForm::State { name, value } && worth(
                value,
                old(env)@,
            ) is Halted),
            Err(stop) => stmt@ matches StatementForm::State { name, value } && worth(
                value,
                old(env)@,
            ) == Expansion::Halted(stop@),
        },
{
    match stmt {
        Statement::State { name, lt } => {
            match evaluate(lt, env) {
                Err(stop) => Err(stop),
                Ok(v) => {
                    env.bind(name.lexeme.clone(), v);
                    Ok(())
                },
            }
        },
        Statement::Function { name, params, body } => {
            env.define(name.lexeme.clone(), texts(params), body.duplicate());
            Ok(())
        },
        Statement::Equation { .. } => Ok(()),
    }
}

} // verus!
