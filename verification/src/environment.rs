//! The names known to one solving session.

use crate::ast::{Expression, ExpressionForm};
use crate::error::{SolveError, SymbolErrorForm};
use crate::numeric::{NumericForm, NumericValue};
use vstd::prelude::*;

verus! {

/// What a name stands for, mathematically.
pub enum EntryForm {
    /// A bound value.
    Value(NumericForm),
    /// A function: the names of its parameters and its body.
    Function { params: Seq<Seq<char>>, body: ExpressionForm },
}

/// A function definition: the names of its parameters and its body.
#[derive(Debug)]
pub struct Definition {
    pub params: Vec<String>,
    pub body: Expression,
}

impl Definition {
    /// The names of the parameters.
    pub open spec fn param_names(&self) -> Seq<Seq<char>> {
        self.params@.map_values(|p: String| p@)
    }
}

/// What a name stands for.
#[derive(Debug)]
pub enum Entry {
    /// A bound value.
    Value(NumericValue),
    /// A function definition.
    Function(Definition),
}

impl View for Entry {
    type V = EntryForm;

    open spec fn view(&self) -> EntryForm {
        match self {
            Entry::Value(v) => EntryForm::Value(v@),
            Entry::Function(d) => EntryForm::Function { params: d.param_names(), body: d.body@ },
        }
    }
}

#[derive(Debug)]
struct Slot {
    name: String,
    entry: Entry,
}

/// The mapping in which each name stands for the entry that was written for
/// it last.
spec fn map_of(s: Seq<Slot>) -> Map<Seq<char>, EntryForm>
    decreases s.len(),
{
    if s.len() == 0 {
        Map::empty()
    } else {
        map_of(s.drop_last()).insert(s.last().name@, s.last().entry@)
    }
}

/// The names known to one solving session: bound values and function
/// definitions, a later one replacing an earlier one of the same name.
#[derive(Debug)]
pub struct Environment {
    slots: Vec<Slot>,
}

impl View for Environment {
    type V = Map<Seq<char>, EntryForm>;

    closed spec fn view(&self) -> Map<Seq<char>, EntryForm> {
        map_of(self.slots@)
    }
}

impl Environment {
    /// An environment that knows no name.
    pub fn new() -> (env: Environment)
        ensures
            env@ == Map::<Seq<char>, EntryForm>::empty(),
    {
        Environment { slots: Vec::new() }
    }

    /// Binds `name` to `value`, in place of what it stood for.
    pub fn bind(&mut self, name: String, value: NumericValue)
        ensures
            final(self)@ == old(self)@.insert(name@, EntryForm::Value(value@)),
    {
        let ghost before = self.slots@;
        self.slots.push(Slot { name, entry: Entry::Value(value) });
        assert(self.slots@.drop_last() =~= before);
    }

    /// Defines the function `name`, in place of what the name stood for.
    pub fn define(&mut self, name: String, params: Vec<String>, body: Expression)
        ensures
            final(self)@ == old(self)@.insert(
                name@,
                EntryForm::Function { params: params@.map_values(|p: String| p@), body: body@ },
            ),
    {
        let ghost before = self.slots@;
        self.slots.push(Slot { name, entry: Entry::Function(Definition { params, body }) });
        assert(self.slots@.drop_last() =~= before);
    }

    /// The entry that `name` stands for.
    pub fn lookup(&self, name: &String) -> (r: Option<&Entry>)
        ensures
            r is Some <==> self@.contains_key(name@),
            r matches Some(e) ==> e@ == self@[name@],
    {
        let mut i: usize = self.slots.len();
        assert(self.slots@.take(i as int) =~= self.slots@);
        while i > 0
            invariant
                i <= self.slots.len(),
                map_of(self.slots@.take(i as int)).contains_key(name@) == self@.contains_key(
                    name@,
                ),
                self@.contains_key(name@) ==> map_of(self.slots@.take(i as int))[name@]
                    == self@[name@],
            decreases i,
        {
            assert(self.slots@.take(i as int).drop_last() =~= self.slots@.take(i - 1));
            i = i - 1;
            if self.slots[i].name == *name {
                return Some(&self.slots[i].entry);
            }
        }
        None
    }

    /// The value bound to `name`; fails where the name has no bound value.
    pub fn resolve(&self, name: &String) -> (r: Result<NumericValue, SolveError>)
        ensures
            r is Ok <==> self@.contains_key(name@) && self@[name@] is Value,
            r matches Ok(v) ==> EntryForm::Value(v@) == self@[name@],
            r matches Err(e) ==> e@ == SymbolErrorForm::UndefinedSymbol(name@),
    {
        match self.lookup(name) {
            Some(Entry::Value(v)) => Ok(v.duplicate()),
            _ => Err(SolveError::UndefinedSymbol(name.clone())),
        }
    }

    /// The definition of the function `name`; fails where the name has no
    /// definition.
    pub fn lookup_function(&self, name: &String) -> (r: Result<&Definition, SolveError>)
        ensures
            r is Ok <==> self@.contains_key(name@) && self@[name@] is Function,
            r matches Ok(d) ==> (EntryForm::Function { params: d.param_names(), body: d.body@ })
                == self@[name@],
            r matches Err(e) ==> e@ == SymbolErrorForm::UndefinedFunction(name@),
    {
        match self.lookup(name) {
            Some(Entry::Function(d)) => Ok(d),
            _ => Err(SolveError::UndefinedFunction(name.clone())),
        }
    }
}

} // verus!
