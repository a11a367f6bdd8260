//! The evaluator: the scope stack, and the evaluation of forms on it.

use crate::ast::{lemma_term_of_form, terms_of, texts_of, Ident, Member, SExpr, Term, AST};
use crate::semantics::{
    add_terms, apply, bind, bind_into, call_form, define, empty_frame, eval, fold_product,
    fold_sum, initial_env, lemma_eval_keeps_outer_scopes, lemma_resolve_all_keeps_outer_scopes,
    lookup_fun, lookup_var, mul_terms, number_of, product_form, product_of, resolve, resolve_all,
    run, set_fun, set_var, sum_form, sum_of, text_of, Closure, Env, Fault, Frame, Outcome,
    Outcomes,
};
use crate::text::{i32_to_string, parse_i32, str_eq};
use std::collections::VecDeque;
use vstd::prelude::*;
use vstd::string::*;

verus! {

/// Why an evaluation gave no value.
#[derive(Debug, PartialEq)]
pub enum EvalError<'a> {
    /// `def` with fewer than three operands.
    DefArity,
    /// The first operand of `def` is no name.
    DefName,
    /// The second operand of `def` is no form made of names.
    DefParams,
    /// The third operand of `def` is no form.
    DefBody,
    /// `def` with more than three operands.
    DefExtra,
    /// `let` with another number of operands than two.
    LetArity,
    /// The first operand of `let` is no name.
    LetName,
    /// `+` without operands.
    EmptySum,
    /// `*` without operands.
    EmptyProduct,
    /// A call of a name that no scope binds to a function.
    FunctionNotFound(Ident<'a>),
    /// A call with another number of operands than the function has
    /// parameters.
    ArityMismatch,
    /// A name that no scope binds to a value.
    VariableNotFound(Ident<'a>),
    /// A text that was needed as a number and is no numeral.
    NotANumber(String),
    /// A sum or product outside the 32-bit signed integers.
    Overflow,
    /// A form whose first member is no name.
    ListLiteral,
    /// A form without members.
    EmptyForm,
    /// The evaluation needs more nested steps than the depth allows.
    DepthExceeded,
}

impl<'a> View for EvalError<'a> {
    type V = Fault;

    open spec fn view(&self) -> Fault {
        match self {
            EvalError::DefArity => Fault::DefArity,
            EvalError::DefName => Fault::DefName,
            EvalError::DefParams => Fault::DefParams,
            EvalError::DefBody => Fault::DefBody,
            EvalError::DefExtra => Fault::DefExtra,
            EvalError::LetArity => Fault::LetArity,
            EvalError::LetName => Fault::LetName,
            EvalError::EmptySum => Fault::EmptySum,
            EvalError::EmptyProduct => Fault::EmptyProduct,
            EvalError::FunctionNotFound(name) => Fault::UnknownFunction(name@),
            EvalError::ArityMismatch => Fault::ArityMismatch,
            EvalError::VariableNotFound(name) => Fault::UnknownVariable(name@),
            EvalError::NotANumber(text) => Fault::NotANumber(text@),
            EvalError::Overflow => Fault::Overflow,
            EvalError::ListLiteral => Fault::ListLiteral,
            EvalError::EmptyForm => Fault::EmptyForm,
            EvalError::DepthExceeded => Fault::DepthExceeded,
        }
    }
}

/// The message for each fault.
pub open spec fn fault_text(fault: Fault) -> Seq<char> {
    match fault {
        Fault::DefArity => "def needs 3 arguments (def {name} ({args...}) ({function}))"@,
        Fault::DefName => "def needs argument 1 to be ident"@,
        Fault::DefParams => "def needs argument 2 to be ident list"@,
        Fault::DefBody => "def needs argument 3 to be SExpr"@,
        Fault::DefExtra => "def needs 3 arguments (def {name} ({args...}) ({function}))"@,
        Fault::LetArity => "let requires 2 arguments"@,
        Fault::LetName => "let requires argument 1 to be ident"@,
        Fault::EmptySum => "Sum called with no arguments"@,
        Fault::EmptyProduct => "Product called with no arguments"@,
        Fault::UnknownFunction(name) => "Function "@ + name + " not found"@,
        Fault::ArityMismatch => "Arg number missmatch"@,
        Fault::UnknownVariable(name) => "Variable "@ + name + " not found"@,
        Fault::NotANumber(text) => "Cannot convert string "@ + text + " into i32"@,
        Fault::Overflow => "Integer overflow"@,
        Fault::ListLiteral => "A form that starts with no name cannot be evaluated"@,
        Fault::EmptyForm => "An empty form cannot be evaluated"@,
        Fault::DepthExceeded => "Evaluation is nested too deeply"@,
    }
}

impl<'a> EvalError<'a> {
    /// A message for the user.
    pub fn message(&self) -> (text: String)
        ensures
            text@ == fault_text(self@),
    {
        match self {
            EvalError::DefArity => String::from_str(
                "def needs 3 arguments (def {name} ({args...}) ({function}))",
            ),
            EvalError::DefName => String::from_str("def needs argument 1 to be ident"),
            EvalError::DefParams => String::from_str("def needs argument 2 to be ident list"),
            EvalError::DefBody => String::from_str("def needs argument 3 to be SExpr"),
            EvalError::DefExtra => String::from_str(
                "def needs 3 arguments (def {name} ({args...}) ({function}))",
            ),
            EvalError::LetArity => String::from_str("let requires 2 arguments"),
            EvalError::LetName => String::from_str("let requires argument 1 to be ident"),
            EvalError::EmptySum => String::from_str("Sum called with no arguments"),
            EvalError::EmptyProduct => String::from_str("Product called with no arguments"),
            EvalError::FunctionNotFound(name) => String::from_str("Function ").concat(name).concat(
                " not found",
            ),
            EvalError::ArityMismatch => String::from_str("Arg number missmatch"),
            EvalError::VariableNotFound(name) => String::from_str("Variable ").concat(name).concat(
                " not found",
            ),
            EvalError::NotANumber(text) => String::from_str("Cannot convert string ").concat(
                text.as_str(),
            ).concat(" into i32"),
            EvalError::Overflow => String::from_str("Integer overflow"),
            EvalError::ListLiteral => String::from_str(
                "A form that starts with no name cannot be evaluated",
            ),
            EvalError::EmptyForm => String::from_str("An empty form cannot be evaluated"),
            EvalError::DepthExceeded => String::from_str("Evaluation is nested too deeply"),
        }
    }

    /// Whether the fault is of the fatal tier.
    pub fn is_fatal(&self) -> (fatal: bool)
        ensures
            fatal == self@.is_fatal(),
    {
        match self {
            EvalError::DefExtra => true,
            EvalError::VariableNotFound(_) => true,
            EvalError::NotANumber(_) => true,
            EvalError::Overflow => true,
            EvalError::ListLiteral => true,
            EvalError::EmptyForm => true,
            EvalError::DepthExceeded => true,
            _ => false,
        }
    }
}

/// What an evaluation gives.
pub type OpResult<'a> = Result<Member<'a>, EvalError<'a>>;

/// The model of what an evaluation gives.
pub open spec fn result_view<'a>(result: OpResult<'a>) -> Result<Term, Fault> {
    match result {
        Ok(value) => Ok(value@),
        Err(error) => Err(error@),
    }
}

/// The bindings of one kind in one scope: each name at most once, with what
/// it stands for.
#[derive(Debug, PartialEq)]
pub struct Bindings<'a, T> {
    names: Vec<Ident<'a>>,
    values: Vec<T>,
}

impl<'a, T> Bindings<'a, T> {
    /// Every name has its value, and no name occurs twice.
    pub closed spec fn wf(&self) -> bool {
        &&& self.names@.len() == self.values@.len()
        &&& forall|i: int, j: int|
            0 <= i < j < self.names@.len() ==> (#[trigger] self.names@[i])@
                != (#[trigger] self.names@[j])@
    }

    /// Whether `name` stands at the place `i`.
    pub closed spec fn at(&self, name: Seq<char>, i: int) -> bool {
        0 <= i < self.names@.len() && self.names@[i]@ == name
    }

    /// The bindings as a map.
    pub closed spec fn entries(&self) -> Map<Seq<char>, T> {
        Map::new(
            |name: Seq<char>| exists|i: int| self.at(name, i),
            |name: Seq<char>| self.values@[choose|i: int| self.at(name, i)],
        )
    }

    /// The number of names bound.
    pub closed spec fn count(&self) -> nat {
        self.names@.len()
    }

    /// No bindings.
    pub fn new() -> (bindings: Self)
        ensures
            bindings.wf(),
            bindings.entries() == Map::<Seq<char>, T>::empty(),
            bindings.count() == 0,
    {
        let bindings = Bindings { names: Vec::new(), values: Vec::new() };
        assert(bindings.entries() =~= Map::<Seq<char>, T>::empty());
        bindings
    }

    /// The number of names bound.
    pub fn len(&self) -> (n: usize)
        ensures
            n == self.count(),
    {
        self.names.len()
    }

    /// The place of `name`, if it is bound.
    fn find(&self, name: &str) -> (place: Option<usize>)
        requires
            self.wf(),
        ensures
            match place {
                Some(i) => self.at(name@, i as int),
                None => forall|i: int| !self.at(name@, i),
            },
    {
        let mut i: usize = 0;
        while i < self.names.len()
            invariant
                i <= self.names.len(),
                forall|k: int| 0 <= k < i ==> !self.at(name@, k),
            decreases self.names.len() - i,
        {
            if str_eq(self.names[i], name) {
                return Some(i);
            }
            i += 1;
        }
        None
    }

    /// What `name` stands for, if it is bound.
    pub fn get(&self, name: &str) -> (value: Option<&T>)
        requires
            self.wf(),
        ensures
            match value {
                Some(v) => self.entries().contains_key(name@) && self.entries()[name@] == *v,
                None => !self.entries().contains_key(name@),
            },
    {
        match self.find(name) {
            Some(i) => {
                proof {
                    let j = choose|j: int| self.at(name@, j);
                    assert(self.at(name@, i as int));
                    assert(j == i);
                }
                Some(&self.values[i])
            },
            None => None,
        }
    }

    /// Binds `name` to `value`. An earlier binding of the name is replaced.
    pub fn insert(&mut self, name: Ident<'a>, value: T)
        requires
            old(self).wf(),
        ensures
            final(self).wf(),
            final(self).entries() == old(self).entries().insert(name@, value),
            final(self).count() == old(self).count() + (if old(self).entries().contains_key(
                name@,
            ) {
                0nat
            } else {
                1nat
            }),
    {
        let ghost before = *self;
        match self.find(name) {
            Some(i) => {
                self.values.set(i, value);
                assert(self.wf());
                assert forall|key: Seq<char>| #[trigger]
                    self.entries().contains_key(key) == before.entries().insert(
                        name@,
                        value,
                    ).contains_key(key) by {
                    if before.entries().contains_key(key) {
                        let j = choose|j: int| before.at(key, j);
                        assert(self.at(key, j));
                    }
                    if key == name@ {
                        assert(self.at(key, i as int));
                        assert(before.at(key, i as int));
                    }
                    if self.entries().contains_key(key) {
                        let j = choose|j: int| self.at(key, j);
                        assert(before.at(key, j));
                    }
                }
                assert forall|key: Seq<char>| #[trigger]
                    self.entries().contains_key(key) implies self.entries()[key]
                    == before.entries().insert(name@, value)[key] by {
                    let j = choose|j: int| self.at(key, j);
                    assert(before.at(key, j));
                    let k = choose|k: int| before.at(key, k);
                    assert(j == k);
                    if key == name@ {
                        assert(self.at(key, i as int));
                        assert(j == i);
                    }
                }
                assert(self.entries() =~= before.entries().insert(name@, value));
                assert(before.at(name@, i as int));
            },
            None => {
                self.names.push(name);
                self.values.push(value);
                let ghost n = before.names@.len() as int;
                assert(self.names@[n] == name);
                assert(self.wf()) by {
                    assert forall|i: int, j: int| 0 <= i < j < self.names@.len() implies (
                    #[trigger] self.names@[i])@ != (#[trigger] self.names@[j])@ by {
                        if j == n {
                            assert(!before.at(name@, i));
                        }
                    }
                }
                assert forall|key: Seq<char>| #[trigger]
                    self.entries().contains_key(key) == before.entries().insert(
                        name@,
                        value,
                    ).contains_key(key) by {
                    if before.entries().contains_key(key) {
                        let j = choose|j: int| before.at(key, j);
                        assert(self.at(key, j));
                    }
                    if key == name@ {
                        assert(self.at(key, n));
                    }
                    if self.entries().contains_key(key) {
                        let j = choose|j: int| self.at(key, j);
                        if j < n {
                            assert(before.at(key, j));
                        }
                    }
                }
                assert forall|key: Seq<char>| #[trigger]
                    self.entries().contains_key(key) implies self.entries()[key]
                    == before.entries().insert(name@, value)[key] by {
                    let j = choose|j: int| self.at(key, j);
                    if key == name@ {
                        assert(self.at(key, n));
                        assert(j == n) by {
                            if j < n {
                                assert(before.at(key, j));
                            }
                        }
                    } else {
                        assert(before.at(key, j));
                        let k = choose|k: int| before.at(key, k);
                        assert(j == k);
                    }
                }
                assert(self.entries() =~= before.entries().insert(name@, value));
                assert(!before.entries().contains_key(name@)) by {
                    if before.entries().contains_key(name@) {
                        let j = choose|j: int| before.at(name@, j);
                        assert(false);
                    }
                }
            },
        }
    }
}

/// A function of the language: the names of its parameters, and its body.
#[derive(Debug, PartialEq)]
pub struct Fun<'a> {
    args: Vec<Ident<'a>>,
    expr: SExpr<'a>,
}

impl<'a> View for Fun<'a> {
    type V = Closure;

    closed spec fn view(&self) -> Closure {
        Closure { params: texts_of(self.args@), body: self.expr@ }
    }
}

impl<'a> Clone for Fun<'a> {
    fn clone(&self) -> (copy: Self)
        ensures
            copy@ == self@,
    {
        let mut args: Vec<Ident<'a>> = Vec::new();
        let mut i: usize = 0;
        while i < self.args.len()
            invariant
                i <= self.args.len(),
                args@ == self.args@.take(i as int),
            decreases self.args.len() - i,
        {
            args.push(self.args[i]);
            assert(self.args@.take(i + 1) =~= self.args@.take(i as int).push(self.args@[i as int]));
            i += 1;
        }
        assert(args@ =~= self.args@);
        Fun { args, expr: self.expr.clone() }
    }
}

/// One scope: what its names stand for, as variables and as functions.
#[derive(Debug, PartialEq)]
pub struct Scope<'a> {
    variables: Bindings<'a, Member<'a>>,
    functions: Bindings<'a, Fun<'a>>,
}

impl<'a> View for Scope<'a> {
    type V = Frame;

    closed spec fn view(&self) -> Frame {
        Frame {
            vars: self.variables.entries().map_values(|value: Member<'a>| value@),
            funs: self.functions.entries().map_values(|fun: Fun<'a>| fun@),
        }
    }
}

impl<'a> Scope<'a> {
    /// No name is bound twice.
    pub closed spec fn wf(&self) -> bool {
        self.variables.wf() && self.functions.wf()
    }

    /// The number of variables that the scope binds.
    pub closed spec fn var_count(&self) -> nat {
        self.variables.count()
    }
}

impl<'a> Default for Scope<'a> {
    /// The scope that binds nothing.
    fn default() -> (scope: Self)
        ensures
            scope.wf(),
            scope@ == empty_frame(),
            scope.var_count() == 0,
    {
        let scope = Scope { variables: Bindings::new(), functions: Bindings::new() };
        assert(scope@.vars =~= Map::<Seq<char>, Term>::empty());
        assert(scope@.funs =~= Map::<Seq<char>, Closure>::empty());
        scope
    }
}

/// The scope stack: the global scope first, the innermost scope last.
#[derive(Debug, PartialEq)]
pub struct ProgContext<'a> {
    stack: Vec<Scope<'a>>,
}

impl<'a> View for ProgContext<'a> {
    type V = Env;

    closed spec fn view(&self) -> Env {
        Seq::new(self.stack@.len(), |i: int| self.stack@[i]@)
    }
}

impl<'a> ProgContext<'a> {
    /// The stack holds the global scope at least, and no scope binds a
    /// name twice.
    pub closed spec fn wf(&self) -> bool {
        &&& self.stack@.len() > 0
        &&& forall|i: int| 0 <= i < self.stack@.len() ==> (#[trigger] self.stack@[i]).wf()
    }

    /// The number of variables that the innermost scope binds.
    pub closed spec fn top_var_count(&self) -> nat {
        self.stack@.last().var_count()
    }

    /// A stack is never empty.
    pub proof fn lemma_wf_not_empty(&self)
        requires
            self.wf(),
        ensures
            self@.len() > 0,
    {
    }

    /// The scope stack at the start of a program: the global scope alone,
    /// with nothing bound.
    pub fn default() -> (context: Self)
        ensures
            context.wf(),
            context@ == initial_env(),
            context.top_var_count() == 0,
    {
        let mut stack: Vec<Scope<'a>> = Vec::new();
        stack.push(Scope::default());
        let context = ProgContext { stack };
        assert(context@ =~= initial_env());
        context
    }

    /// The number of scopes on the stack.
    pub fn depth(&self) -> (n: usize)
        ensures
            n == self@.len(),
    {
        self.stack.len()
    }

    /// The number of variables that the innermost scope binds.
    pub fn var_count(&self) -> (n: usize)
        requires
            self.wf(),
        ensures
            n == self.top_var_count(),
    {
        self.stack[self.stack.len() - 1].variables.len()
    }

    /// Opens a new innermost scope, with nothing bound.
    pub fn next_level(&mut self)
        requires
            old(self).wf(),
        ensures
            final(self).wf(),
            final(self)@ == old(self)@.push(empty_frame()),
    {
        self.stack.push(Scope::default());
        assert(self@ =~= old(self)@.push(empty_frame()));
    }

    /// Closes the innermost scope. The global scope cannot be closed.
    pub fn pop_level(&mut self)
        requires
            old(self).wf(),
            old(self)@.len() > 1,
        ensures
            final(self).wf(),
            final(self)@ == old(self)@.drop_last(),
    {
        self.stack.pop();
        assert(self@ =~= old(self)@.drop_last());
    }

    /// Binds `ident` to `fun` in the innermost scope. An earlier binding
    /// of the name there is replaced.
    pub fn reg_fun(&mut self, ident: Ident<'a>, fun: Fun<'a>)
        requires
            old(self).wf(),
        ensures
            final(self).wf(),
            final(self)@ == set_fun(old(self)@, ident@, fun@),
    {
        let ghost before = old(self).stack@;
        let mut top = self.stack.pop().unwrap();
        let ghost frame = top@;
        assert(top == before.last());
        top.functions.insert(ident, fun);
        assert(top@.funs =~= frame.funs.insert(ident@, fun@));
        self.stack.push(top);
        assert(self.stack@.len() == before.len());
        assert forall|i: int| 0 <= i < self.stack@.len() implies (#[trigger] self.stack@[i]).wf() by {
            if i < before.len() - 1 {
                assert(self.stack@[i] == before[i]);
            }
        }
        assert(self@ =~= set_fun(old(self)@, ident@, fun@));
    }

    /// Binds `ident` to `value` in the innermost scope. An earlier binding
    /// of the name there is replaced: the scope holds one binding for the
    /// name, with the latest value.
    pub fn reg_var(&mut self, ident: Ident<'a>, value: Member<'a>)
        requires
            old(self).wf(),
        ensures
            final(self).wf(),
            final(self)@ == set_var(old(self)@, ident@, value@),
            final(self).top_var_count() == old(self).top_var_count() + (if old(
                self,
            )@.last().vars.contains_key(ident@) {
                0nat
            } else {
                1nat
            }),
    {
        let ghost before = old(self).stack@;
        let mut top = self.stack.pop().unwrap();
        let ghost frame = top@;
        assert(top == before.last());
        assert(old(self)@.last() == frame);
        top.variables.insert(ident, value);
        assert(top@.vars =~= frame.vars.insert(ident@, value@));
        self.stack.push(top);
        assert(self.stack@.len() == before.len());
        assert forall|i: int| 0 <= i < self.stack@.len() implies (#[trigger] self.stack@[i]).wf() by {
            if i < before.len() - 1 {
                assert(self.stack@[i] == before[i]);
            }
        }
        assert(self@ =~= set_var(old(self)@, ident@, value@));
    }

    /// What `ident` stands for as a function: a copy of the binding of the
    /// innermost scope that has one.
    pub fn get_fun(&self, ident: Ident<'a>) -> (fun: Option<Fun<'a>>)
        requires
            self.wf(),
        ensures
            match lookup_fun(self@, ident@) {
                Some(closure) => fun is Some && fun->0@ == closure,
                None => fun is None,
            },
    {
        let mut i: usize = self.stack.len();
        assert(self@.take(i as int) =~= self@);
        while i > 0
            invariant
                self.wf(),
                i <= self.stack.len(),
                lookup_fun(self@, ident@) == lookup_fun(self@.take(i as int), ident@),
            decreases i,
        {
            i -= 1;
            assert(self@.take(i + 1).drop_last() =~= self@.take(i as int));
            assert(self@.take(i + 1).last() == self.stack@[i as int]@);
            match self.stack[i].functions.get(ident) {
                Some(fun) => {
                    return Some(fun.clone());
                },
                None => {},
            }
        }
        None
    }

    /// What `ident` stands for as a variable, if a scope binds it: a copy
    /// of the binding of the innermost scope that has one.
    pub fn find_var(&self, ident: Ident<'a>) -> (value: Option<Member<'a>>)
        requires
            self.wf(),
        ensures
            match lookup_var(self@, ident@) {
                Some(term) => value is Some && value->0@ == term,
                None => value is None,
            },
    {
        let mut i: usize = self.stack.len();
        assert(self@.take(i as int) =~= self@);
        while i > 0
            invariant
                self.wf(),
                i <= self.stack.len(),
                lookup_var(self@, ident@) == lookup_var(self@.take(i as int), ident@),
            decreases i,
        {
            i -= 1;
            assert(self@.take(i + 1).drop_last() =~= self@.take(i as int));
            assert(self@.take(i + 1).last() == self.stack@[i as int]@);
            match self.stack[i].variables.get(ident) {
                Some(value) => {
                    return Some(value.clone());
                },
                None => {},
            }
        }
        None
    }

    /// What `ident` stands for as a variable, for a name that some scope
    /// binds.
    pub fn get_var(&self, ident: Ident<'a>) -> (value: Member<'a>)
        requires
            self.wf(),
            lookup_var(self@, ident@) is Some,
        ensures
            Some(value@) == lookup_var(self@, ident@),
    {
        self.find_var(ident).unwrap()
    }
}

/// A value as text.
fn value_text<'a>(value: &Member<'a>) -> (text: String)
    ensures
        text@ == text_of(value@),
{
    match value {
        Member::String(text) => text.clone(),
        Member::NumI(n) => i32_to_string(*n),
        _ => String::from_str("()"),
    }
}

/// A value as a number.
fn value_number<'a>(value: &Member<'a>) -> (number: Result<i32, EvalError<'a>>)
    ensures
        match number_of(value@) {
            Ok(n) => number == Ok::<i32, EvalError<'a>>(n),
            Err(fault) => number is Err && number->Err_0@ == fault,
        },
{
    match value {
        Member::NumI(n) => Ok(*n),
        Member::String(text) => match parse_i32(text.as_str()) {
            Some(n) => Ok(n),
            None => Err(EvalError::NotANumber(text.clone())),
        },
        _ => Ok(1),
    }
}

/// One step of a sum.
fn add_values<'a>(acc: Member<'a>, operand: &Member<'a>) -> (sum: OpResult<'a>)
    ensures
        result_view(sum) == add_terms(acc@, operand@),
{
    match acc {
        Member::String(text) => {
            let tail = value_text(operand);
            Ok(Member::String(text.concat(tail.as_str())))
        },
        Member::NumI(n) => match value_number(operand) {
            Ok(k) => match n.checked_add(k) {
                Some(total) => Ok(Member::NumI(total)),
                None => Err(EvalError::Overflow),
            },
            Err(error) => Err(error),
        },
        other => Ok(other),
    }
}

/// The sum of values: the last one, to which the others are added from
/// right to left.
fn sum_values<'a>(values: Vec<Member<'a>>) -> (sum: OpResult<'a>)
    ensures
        result_view(sum) == sum_of(terms_of(values@)),
{
    let mut rest = values;
    let ghost all = terms_of(values@);
    let mut acc = match rest.pop() {
        Some(last) => last,
        None => {
            return Err(EvalError::EmptySum);
        },
    };
    assert(terms_of(rest@) =~= all.drop_last());
    while rest.len() > 0
        invariant
            all == terms_of(values@),
            fold_sum(acc@, terms_of(rest@)) == sum_of(all),
        decreases rest.len(),
    {
        let ghost before = terms_of(rest@);
        let operand = rest.pop().unwrap();
        assert(terms_of(rest@) =~= before.drop_last());
        assert(operand@ == before.last());
        match add_values(acc, &operand) {
            Ok(next) => {
                acc = next;
            },
            Err(error) => {
                return Err(error);
            },
        }
    }
    Ok(acc)
}

/// One step of a product.
fn mul_values<'a>(acc: i32, operand: &Member<'a>) -> (product: Result<i32, EvalError<'a>>)
    ensures
        match mul_terms(acc, operand@) {
            Ok(n) => product == Ok::<i32, EvalError<'a>>(n),
            Err(fault) => product is Err && product->Err_0@ == fault,
        },
{
    match value_number(operand) {
        Ok(k) => match acc.checked_mul(k) {
            Some(total) => Ok(total),
            None => Err(EvalError::Overflow),
        },
        Err(error) => Err(error),
    }
}

/// The product of values, each taken as a number.
fn product_values<'a>(values: Vec<Member<'a>>) -> (product: OpResult<'a>)
    ensures
        result_view(product) == product_of(terms_of(values@)),
{
    let mut rest = values;
    let ghost all = terms_of(values@);
    let last = match rest.pop() {
        Some(last) => last,
        None => {
            return Err(EvalError::EmptyProduct);
        },
    };
    assert(terms_of(rest@) =~= all.drop_last());
    assert(last@ == all.last());
    let mut acc = match value_number(&last) {
        Ok(n) => n,
        Err(error) => {
            return Err(error);
        },
    };
    while rest.len() > 0
        invariant
            all == terms_of(values@),
            all.len() > 0,
            number_of(all.last()) is Ok,
            match fold_product(acc, terms_of(rest@)) {
                Ok(n) => product_of(all) == Ok::<Term, Fault>(Term::NumI(n)),
                Err(fault) => product_of(all) == Err::<Term, Fault>(fault),
            },
        decreases rest.len(),
    {
        let ghost before = terms_of(rest@);
        let operand = rest.pop().unwrap();
        assert(terms_of(rest@) =~= before.drop_last());
        assert(operand@ == before.last());
        match mul_values(acc, &operand) {
            Ok(next) => {
                acc = next;
            },
            Err(error) => {
                return Err(error);
            },
        }
    }
    Ok(Member::NumI(acc))
}

/// The members of a form as a vector, in the same order.
fn into_vec<'a>(members: VecDeque<Member<'a>>) -> (list: Vec<Member<'a>>)
    ensures
        list@ == members@,
{
    let mut queue = members;
    let mut list: Vec<Member<'a>> = Vec::new();
    while queue.len() > 0
        invariant
            list@ + queue@ == members@,
        decreases queue.len(),
    {
        let ghost before = queue@;
        let first = queue.pop_front().unwrap();
        list.push(first);
        assert(list@ + queue@ =~= list@.drop_last() + before);
    }
    assert(list@ =~= members@);
    list
}

/// Whether an evaluation did what `outcome` says: it gave that value or
/// fault, and left the scope stack so.
pub open spec fn agrees<'a>(result: OpResult<'a>, context: ProgContext<'a>, outcome: Outcome) -> bool {
    &&& context.wf()
    &&& context@ == outcome.env
    &&& result_view(result) == outcome.result
}

impl<'a> Member<'a> {
    /// Reduces the member to a final value: a name is replaced by what it
    /// stands for, a form by its value, until a value is reached.
    ///
    /// `depth` bounds the nested steps; where it does not suffice the
    /// result is `DepthExceeded`.
    pub fn resolve(self, context: &mut ProgContext<'a>, depth: usize) -> (result: OpResult<'a>)
        requires
            old(context).wf(),
        ensures
            agrees(result, *final(context), resolve(self@, old(context)@, depth as nat)),
        decreases depth, 0nat, 0nat,
    {
        let ghost goal = resolve(self@, old(context)@, depth as nat);
        let mut value = self;
        let mut left: usize = depth;
        loop
            invariant
                context.wf(),
                left <= depth,
                goal == resolve(self@, old(context)@, depth as nat),
                resolve(value@, context@, left as nat) == goal,
            decreases left,
        {
            match value {
                Member::Ident(name) => {
                    if left == 0 {
                        return Err(EvalError::DepthExceeded);
                    }
                    match context.find_var(name) {
                        Some(found) => {
                            value = found;
                            left = left - 1;
                        },
                        None => {
                            return Err(EvalError::VariableNotFound(name));
                        },
                    }
                },
                Member::SExpr(form) => {
                    if left == 0 {
                        return Err(EvalError::DepthExceeded);
                    }
                    proof {
                        lemma_term_of_form(form);
                    }
                    match interpret_sexpr(form, context, left - 1) {
                        Ok(next) => {
                            value = next;
                            left = left - 1;
                        },
                        Err(error) => {
                            return Err(error);
                        },
                    }
                },
                _ => {
                    return Ok(value);
                },
            }
        }
    }

    /// The member as text, once it has been reduced to a final value: a
    /// text is itself, a number is its decimal numeral, and the unit is
    /// `()`.
    pub fn into_string_value(self, context: &mut ProgContext<'a>, depth: usize) -> (text: Result<
        String,
        EvalError<'a>,
    >)
        requires
            old(context).wf(),
        ensures
            final(context).wf(),
            final(context)@ == resolve(self@, old(context)@, depth as nat).env,
            match resolve(self@, old(context)@, depth as nat).result {
                Ok(value) => text is Ok && text->Ok_0@ == text_of(value),
                Err(fault) => text is Err && text->Err_0@ == fault,
            },
    {
        match self.resolve(context, depth) {
            Ok(value) => Ok(value_text(&value)),
            Err(error) => Err(error),
        }
    }

    /// The member as a number, once it has been reduced to a final value:
    /// a number is itself, a text is the number it denotes, and the unit is
    /// one. A text that is no numeral is the error `NotANumber`.
    pub fn into_inum_value(self, context: &mut ProgContext<'a>, depth: usize) -> (number: Result<
        i32,
        EvalError<'a>,
    >)
        requires
            old(context).wf(),
        ensures
            final(context).wf(),
            final(context)@ == resolve(self@, old(context)@, depth as nat).env,
            match resolve(self@, old(context)@, depth as nat).result {
                Ok(value) => match number_of(value) {
                    Ok(n) => number == Ok::<i32, EvalError<'a>>(n),
                    Err(fault) => number is Err && number->Err_0@ == fault,
                },
                Err(fault) => number is Err && number->Err_0@ == fault,
            },
    {
        match self.resolve(context, depth) {
            Ok(value) => value_number(&value),
            Err(error) => Err(error),
        }
    }
}

/// Reduces several members to final values, from left to right. The first
/// error ends it.
fn resolve_members<'a>(args: Vec<Member<'a>>, context: &mut ProgContext<'a>, depth: usize) -> (values:
    Result<Vec<Member<'a>>, EvalError<'a>>)
    requires
        old(context).wf(),
    ensures
        final(context).wf(),
        final(context)@ == resolve_all(terms_of(args@), old(context)@, depth as nat).env,
        match resolve_all(terms_of(args@), old(context)@, depth as nat).result {
            Ok(terms) => values is Ok && terms_of(values->Ok_0@) == terms,
            Err(fault) => values is Err && values->Err_0@ == fault,
        },
    decreases depth, 1nat, args@.len(),
{
    let ghost start = context@;
    let ghost terms = terms_of(args@);
    let mut values: Vec<Member<'a>> = Vec::new();
    assert(terms.take(0) =~= Seq::<Term>::empty());
    assert(terms_of(values@) =~= Seq::<Term>::empty());
    for arg in it: args
        invariant
            context.wf(),
            it.seq() == args@,
            terms == terms_of(args@),
            start == old(context)@,
            resolve_all(terms.take(it.index() as int), start, depth as nat) == (Outcomes {
                result: Ok(terms_of(values@)),
                env: context@,
            }),
    {
        let ghost i = it.index() as int;
        let ghost before = terms_of(values@);
        assert(terms.take(i + 1).drop_last() =~= terms.take(i));
        assert(terms.take(i + 1).last() == arg@);
        match arg.resolve(context, depth) {
            Ok(value) => {
                values.push(value);
                assert(terms_of(values@) =~= before.push(value@));
            },
            Err(error) => {
                proof {
                    lemma_resolve_all_error_stays(terms, i + 1, start, depth as nat);
                }
                return Err(error);
            },
        }
    }
    assert(terms.take(args@.len() as int) =~= terms);
    Ok(values)
}

/// Once reducing the first terms of a sequence has failed, reducing more of
/// them fails the same way.
proof fn lemma_resolve_all_error_stays(terms: Seq<Term>, n: int, env: Env, depth: nat)
    requires
        0 <= n <= terms.len(),
        resolve_all(terms.take(n), env, depth).result is Err,
    ensures
        resolve_all(terms, env, depth) == resolve_all(terms.take(n), env, depth),
    decreases terms.len() - n,
{
    if n < terms.len() {
        assert(terms.take(n + 1).drop_last() =~= terms.take(n));
        lemma_resolve_all_error_stays(terms, n + 1, env, depth);
    } else {
        assert(terms.take(n) =~= terms);
    }
}

/// The form `def`: binds a name to a function in the innermost scope.
fn define_fun<'a>(p_args: VecDeque<Member<'a>>, context: &mut ProgContext<'a>) -> (result: OpResult<'a>)
    requires
        old(context).wf(),
    ensures
        agrees(result, *final(context), define(terms_of(p_args@), old(context)@)),
{
    let ghost operands = terms_of(p_args@);
    let mut queue = p_args;
    let first = match queue.pop_front() {
        Some(member) => member,
        None => {
            return Err(EvalError::DefArity);
        },
    };
    assert(first@ == operands[0]);
    let ident = match first.as_ident() {
        Some(ident) => ident,
        None => {
            return Err(EvalError::DefName);
        },
    };
    let second = match queue.pop_front() {
        Some(member) => member,
        None => {
            return Err(EvalError::DefArity);
        },
    };
    assert(second@ == operands[1]);
    let args = match second.as_ident_list() {
        Some(args) => args,
        None => {
            return Err(EvalError::DefParams);
        },
    };
    let third = match queue.pop_front() {
        Some(member) => member,
        None => {
            return Err(EvalError::DefArity);
        },
    };
    assert(third@ == operands[2]);
    let expr = match third.as_sexpr() {
        Some(expr) => expr,
        None => {
            return Err(EvalError::DefBody);
        },
    };
    if queue.len() != 0 {
        return Err(EvalError::DefExtra);
    }
    let fun = Fun { args, expr };
    context.reg_fun(ident, fun);
    Ok(Member::Unit)
}

/// The form `let`: binds a name to a term, as it stands, in the innermost
/// scope.
fn define_var<'a>(p_args: VecDeque<Member<'a>>, context: &mut ProgContext<'a>) -> (result: OpResult<'a>)
    requires
        old(context).wf(),
    ensures
        agrees(result, *final(context), bind(terms_of(p_args@), old(context)@)),
{
    let ghost operands = terms_of(p_args@);
    let mut queue = p_args;
    let first = match queue.pop_front() {
        Some(member) => member,
        None => {
            return Err(EvalError::LetArity);
        },
    };
    assert(first@ == operands[0]);
    let ident = match first.as_ident() {
        Some(ident) => ident,
        None => {
            return Err(EvalError::LetName);
        },
    };
    let value = match queue.pop_front() {
        Some(member) => member,
        None => {
            return Err(EvalError::LetArity);
        },
    };
    assert(value@ == operands[1]);
    if queue.len() != 0 {
        return Err(EvalError::LetArity);
    }
    context.reg_var(ident, value.clone());
    Ok(value)
}

/// The form `+`: reduces its operands to values in a scope of their own
/// and adds them.
fn fun_std_sum<'a>(args: Vec<Member<'a>>, context: &mut ProgContext<'a>, depth: usize) -> (result:
    OpResult<'a>)
    requires
        old(context).wf(),
    ensures
        agrees(result, *final(context), sum_form(terms_of(args@), old(context)@, depth as nat)),
    decreases depth, 2nat, 0nat,
{
    context.next_level();
    proof {
        lemma_resolve_all_keeps_outer_scopes(terms_of(args@), context@, depth as nat);
    }
    let values = resolve_members(args, context, depth);
    context.pop_level();
    match values {
        Ok(values) => sum_values(values),
        Err(error) => Err(error),
    }
}

/// The form `*`: reduces its operands to values in a scope of their own
/// and multiplies them.
fn fun_std_mul<'a>(args: Vec<Member<'a>>, context: &mut ProgContext<'a>, depth: usize) -> (result:
    OpResult<'a>)
    requires
        old(context).wf(),
    ensures
        agrees(
            result,
            *final(context),
            product_form(terms_of(args@), old(context)@, depth as nat),
        ),
    decreases depth, 2nat, 0nat,
{
    context.next_level();
    proof {
        lemma_resolve_all_keeps_outer_scopes(terms_of(args@), context@, depth as nat);
    }
    let values = resolve_members(args, context, depth);
    context.pop_level();
    match values {
        Ok(values) => product_values(values),
        Err(error) => Err(error),
    }
}

impl<'a> Fun<'a> {
    /// The function with the parameters `args` and the body `expr`.
    pub fn new(args: Vec<Ident<'a>>, expr: SExpr<'a>) -> (fun: Self)
        ensures
            fun@ == (Closure { params: texts_of(args@), body: expr@ }),
    {
        Fun { args, expr }
    }

    /// Binds each parameter to the argument at its place, in the innermost
    /// scope. With another number of arguments than parameters nothing is
    /// bound.
    fn reg_args(&self, args: Vec<Member<'a>>, context: &mut ProgContext<'a>) -> (done: Result<
        (),
        EvalError<'a>,
    >)
        requires
            old(context).wf(),
        ensures
            final(context).wf(),
            self@.params.len() != args@.len() ==> done == Err::<(), EvalError<'a>>(
                EvalError::ArityMismatch,
            ) && final(context)@ == old(context)@,
            self@.params.len() == args@.len() ==> done is Ok && final(context)@ == old(
                context,
            )@.update(
                old(context)@.len() - 1,
                bind_into(old(context)@.last(), self@.params, terms_of(args@)),
            ),
    {
        if self.args.len() != args.len() {
            return Err(EvalError::ArityMismatch);
        }
        let ghost start = context@;
        let ghost params = self@.params;
        let ghost terms = terms_of(args@);
        proof {
            context.lemma_wf_not_empty();
            assert(params.take(0) =~= Seq::<Seq<char>>::empty());
            assert(start.update(start.len() - 1, start.last()) =~= start);
        }
        let count = self.args.len();
        let mut place: usize = 0;
        for arg in it: args
            invariant
                context.wf(),
                place == it.index(),
                count == args@.len(),
                it.seq() == args@,
                terms == terms_of(args@),
                params == self@.params,
                params == texts_of(self.args@),
                params.len() == args@.len(),
                start.len() > 0,
                context@ == start.update(
                    start.len() - 1,
                    bind_into(
                        start.last(),
                        params.take(it.index() as int),
                        terms.take(it.index() as int),
                    ),
                ),
        {
            let ghost i = it.index() as int;
            assert(i < args@.len());
            assert(params.take(i + 1).drop_last() =~= params.take(i));
            assert(terms.take(i + 1).drop_last() =~= terms.take(i));
            assert(params.take(i + 1).last() == self.args@[i]@);
            assert(terms.take(i + 1).last() == arg@);
            let ghost frame = bind_into(start.last(), params.take(i), terms.take(i));
            context.reg_var(self.args[place], arg);
            assert(context@ =~= start.update(
                start.len() - 1,
                bind_into(start.last(), params.take(i + 1), terms.take(i + 1)),
            ));
            place += 1;
        }
        assert(params.take(args@.len() as int) =~= params);
        assert(terms.take(args@.len() as int) =~= terms);
        Ok(())
    }

    /// Applies the function to arguments: binds them to the parameters in
    /// a scope of their own, evaluates the body there, and closes the
    /// scope, whatever the body gave. The scope stack is afterwards as it
    /// was before. With another number of arguments than parameters the
    /// error is `ArityMismatch`, and nothing is bound.
    pub fn call(self, args: Vec<Member<'a>>, context: &mut ProgContext<'a>, depth: usize) -> (result:
        OpResult<'a>)
        requires
            old(context).wf(),
        ensures
            agrees(result, *final(context), apply(self@, terms_of(args@), old(context)@, depth as nat)),
            final(context)@ == old(context)@,
            self@.params.len() != args@.len() ==> result == Err::<Member<'a>, EvalError<'a>>(
                EvalError::ArityMismatch,
            ),
        decreases depth, 0nat, 0nat,
    {
        let ghost start = context@;
        proof {
            context.lemma_wf_not_empty();
            crate::semantics::lemma_apply_keeps_scopes(
                self@,
                terms_of(args@),
                start,
                depth as nat,
            );
        }
        context.next_level();
        assert(context@.drop_last() =~= start);
        match self.reg_args(args, context) {
            Ok(()) => {},
            Err(error) => {
                context.pop_level();
                return Err(error);
            },
        }
        assert(context@ =~= start.push(
            crate::semantics::bind_args(self@.params, terms_of(args@)),
        ));
        if depth == 0 {
            context.pop_level();
            assert(context@ =~= start);
            return Err(EvalError::DepthExceeded);
        }
        proof {
            lemma_eval_keeps_outer_scopes(self@.body, context@, (depth - 1) as nat);
        }
        let result = interpret_sexpr(self.expr, context, depth - 1);
        context.pop_level();
        result
    }

    /// A call by name: looks the function up, reduces the operands to
    /// values in the caller's scope, and applies the function to them.
    fn get_and_call(
        ident: Ident<'a>,
        args: Vec<Member<'a>>,
        context: &mut ProgContext<'a>,
        depth: usize,
    ) -> (result: OpResult<'a>)
        requires
            old(context).wf(),
        ensures
            agrees(
                result,
                *final(context),
                call_form(ident@, terms_of(args@), old(context)@, depth as nat),
            ),
        decreases depth, 2nat, 0nat,
    {
        let fun = match context.get_fun(ident) {
            Some(fun) => fun,
            None => {
                return Err(EvalError::FunctionNotFound(ident));
            },
        };
        match resolve_members(args, context, depth) {
            Ok(values) => fun.call(values, context, depth),
            Err(error) => Err(error),
        }
    }
}

/// Evaluates one form on the scope stack.
///
/// The form is named by its first member: `def` binds a function and `let`
/// a variable in the innermost scope, `+` adds and `*` multiplies its
/// operands, and any other name calls the function of that name. A form
/// without members, and one whose first member is no name, is an error.
/// The stack is as deep afterwards as it was, and no scope but the
/// innermost has changed.
///
/// `depth` bounds the nested steps; where it does not suffice the result
/// is `DepthExceeded`.
pub fn interpret_sexpr<'a>(sexpr: SExpr<'a>, context: &mut ProgContext<'a>, depth: usize) -> (result:
    OpResult<'a>)
    requires
        old(context).wf(),
    ensures
        agrees(result, *final(context), eval(sexpr@, old(context)@, depth as nat)),
        crate::semantics::keeps_outer_scopes(old(context)@, final(context)@),
    decreases depth, 3nat, 0nat,
{
    proof {
        context.lemma_wf_not_empty();
        lemma_eval_keeps_outer_scopes(sexpr@, context@, depth as nat);
        reveal_strlit("def");
        reveal_strlit("let");
        reveal_strlit("+");
        reveal_strlit("*");
    }
    let ghost form = sexpr@;
    let mut members = sexpr.members;
    let first = match members.pop_front() {
        Some(member) => member,
        None => {
            return Err(EvalError::EmptyForm);
        },
    };
    assert(first@ == form[0]);
    assert(terms_of(members@) =~= form.skip(1));
    match first.as_ident() {
        Some(name) => {
            if str_eq(name, "def") {
                define_fun(members, context)
            } else if str_eq(name, "let") {
                define_var(members, context)
            } else if str_eq(name, "+") {
                fun_std_sum(into_vec(members), context, depth)
            } else if str_eq(name, "*") {
                fun_std_mul(into_vec(members), context, depth)
            } else {
                Fun::get_and_call(name, into_vec(members), context, depth)
            }
        },
        None => Err(EvalError::ListLiteral),
    }
}

/// What a run of a program gave: the values of the forms that were
/// evaluated, in order, and the error that ended the run, if one did.
#[derive(Debug, PartialEq)]
pub struct Trace<'a> {
    pub values: Vec<Member<'a>>,
    pub error: Option<EvalError<'a>>,
}

/// Runs a program from the start: evaluates its forms in turn on one scope
/// stack, which holds the global scope alone at first. The first error
/// ends the run; the forms after it are not evaluated.
///
/// `depth` bounds the nested steps of each form.
pub fn interpret<'a>(tree: AST<'a>, depth: usize) -> (trace: Trace<'a>)
    ensures
        terms_of(trace.values@) == run(tree@, initial_env(), depth as nat).values,
        match run(tree@, initial_env(), depth as nat).fault {
            Some(fault) => trace.error is Some && trace.error->0@ == fault,
            None => trace.error is None,
        },
{
    let ghost forms = tree@;
    let mut context = ProgContext::default();
    let mut values: Vec<Member<'a>> = Vec::new();
    assert(forms.take(0) =~= Seq::<Seq<Term>>::empty());
    assert(terms_of(values@) =~= Seq::<Term>::empty());
    for form in it: tree.prog
        invariant
            context.wf(),
            it.seq() == tree.prog@,
            forms == tree@,
            run(forms.take(it.index() as int), initial_env(), depth as nat).values == terms_of(
                values@,
            ),
            run(forms.take(it.index() as int), initial_env(), depth as nat).fault is None,
            run(forms.take(it.index() as int), initial_env(), depth as nat).env == context@,
    {
        let ghost i = it.index() as int;
        let ghost before = terms_of(values@);
        assert(forms.take(i + 1).drop_last() =~= forms.take(i));
        assert(forms.take(i + 1).last() == form@);
        match interpret_sexpr(form, &mut context, depth) {
            Ok(value) => {
                values.push(value);
                assert(terms_of(values@) =~= before.push(value@));
            },
            Err(error) => {
                proof {
                    lemma_run_fault_stays(forms, i + 1, initial_env(), depth as nat);
                }
                return Trace { values, error: Some(error) };
            },
        }
    }
    assert(forms.take(tree.prog@.len() as int) =~= forms);
    Trace { values, error: None }
}

/// Once a run of the first forms of a program has failed, the run of more
/// of them is the same.
proof fn lemma_run_fault_stays(forms: Seq<Seq<Term>>, n: int, env: Env, depth: nat)
    requires
        0 <= n <= forms.len(),
        run(forms.take(n), env, depth).fault is Some,
    ensures
        run(forms, env, depth) == run(forms.take(n), env, depth),
    decreases forms.len() - n,
{
    if n < forms.len() {
        assert(forms.take(n + 1).drop_last() =~= forms.take(n));
        lemma_run_fault_stays(forms, n + 1, env, depth);
    } else {
        assert(forms.take(n) =~= forms);
    }
}

} // verus!
