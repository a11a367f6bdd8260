//! What evaluation means: the scope stack as a sequence of frames, and the
//! value and final scope stack of every form, as functions on terms.
//!
//! Evaluation need not end: a name may stand for itself, and a function may
//! call itself for ever. So every function here takes a depth: the number
//! of nested steps it may take. Where the depth does not suffice the result
//! is the fault `DepthExceeded`.

use crate::ast::{all_idents, ident_names, Term};
use crate::text::{int_text, parse_numeral};
use vstd::prelude::*;

verus! {

/// A function of the language: the names of its parameters, and its body.
pub struct Closure {
    pub params: Seq<Seq<char>>,
    pub body: Seq<Term>,
}

/// One scope: what its names stand for.
pub struct Frame {
    pub vars: Map<Seq<char>, Term>,
    pub funs: Map<Seq<char>, Closure>,
}

/// The scope stack: the global scope first, the innermost scope last.
pub type Env = Seq<Frame>;

/// Why an evaluation gave no value.
pub enum Fault {
    /// `def` with fewer than three operands.
    DefArity,
    /// The first operand of `def` is no name.
    DefName,
    /// The second operand of `def` is no form made of names.
    DefParams,
    /// The third operand of `def` is no form.
    DefBody,
    /// `def` with more than three operands.
    DefExtra,
    /// `let` with another number of operands than two.
    LetArity,
    /// The first operand of `let` is no name.
    LetName,
    /// `+` without operands.
    EmptySum,
    /// `*` without operands.
    EmptyProduct,
    /// A call of a name that no scope binds to a function.
    UnknownFunction(Seq<char>),
    /// A call with another number of operands than the function has
    /// parameters.
    ArityMismatch,
    /// A name that no scope binds to a value.
    UnknownVariable(Seq<char>),
    /// A text that was needed as a number and is no numeral.
    NotANumber(Seq<char>),
    /// A sum or product outside the 32-bit signed integers.
    Overflow,
    /// A form whose first member is no name.
    ListLiteral,
    /// A form without members.
    EmptyForm,
    /// The evaluation needs more nested steps than the depth allows.
    DepthExceeded,
}

impl Fault {
    /// The faults of the fatal tier: a missing variable, a text that is no
    /// number, an overflow, a form that cannot be called, too many operands
    /// to `def`, a depth that does not suffice. The others report a call
    /// that is wrongly written: a wrong number or kind of operands, or a
    /// name that stands for no function.
    pub open spec fn is_fatal(self) -> bool {
        match self {
            Fault::DefExtra => true,
            Fault::UnknownVariable(_) => true,
            Fault::NotANumber(_) => true,
            Fault::Overflow => true,
            Fault::ListLiteral => true,
            Fault::EmptyForm => true,
            Fault::DepthExceeded => true,
            _ => false,
        }
    }
}

/// What evaluating one term gives: a value or a fault, and the scope stack
/// afterwards.
pub struct Outcome {
    pub result: Result<Term, Fault>,
    pub env: Env,
}

/// What evaluating several terms in turn gives: their values or the first
/// fault, and the scope stack afterwards.
pub struct Outcomes {
    pub result: Result<Seq<Term>, Fault>,
    pub env: Env,
}

/// The scope that binds nothing.
pub open spec fn empty_frame() -> Frame {
    Frame { vars: Map::empty(), funs: Map::empty() }
}

/// The scope stack at the start of a program: the global scope alone.
pub open spec fn initial_env() -> Env {
    seq![empty_frame()]
}

/// `env` with `name` bound to `value` in its innermost scope.
pub open spec fn set_var(env: Env, name: Seq<char>, value: Term) -> Env
    recommends
        env.len() > 0,
{
    env.update(
        env.len() - 1,
        Frame { vars: env.last().vars.insert(name, value), funs: env.last().funs },
    )
}

/// `env` with `name` bound to `fun` in its innermost scope.
pub open spec fn set_fun(env: Env, name: Seq<char>, fun: Closure) -> Env
    recommends
        env.len() > 0,
{
    env.update(
        env.len() - 1,
        Frame { vars: env.last().vars, funs: env.last().funs.insert(name, fun) },
    )
}

/// What `name` stands for as a variable: the binding of the innermost scope
/// that has one.
pub open spec fn lookup_var(env: Env, name: Seq<char>) -> Option<Term>
    decreases env.len(),
{
    if env.len() == 0 {
        None
    } else if env.last().vars.contains_key(name) {
        Some(env.last().vars[name])
    } else {
        lookup_var(env.drop_last(), name)
    }
}

/// What `name` stands for as a function: the binding of the innermost scope
/// that has one.
pub open spec fn lookup_fun(env: Env, name: Seq<char>) -> Option<Closure>
    decreases env.len(),
{
    if env.len() == 0 {
        None
    } else if env.last().funs.contains_key(name) {
        Some(env.last().funs[name])
    } else {
        lookup_fun(env.drop_last(), name)
    }
}

/// A value as text: a text is itself, a number is its decimal numeral, and
/// the unit is `()`.
pub open spec fn text_of(value: Term) -> Seq<char>
    recommends
        value.is_resolved(),
{
    match value {
        Term::Str(text) => text,
        Term::NumI(n) => int_text(n as int),
        _ => "()"@,
    }
}

/// A value as a number: a number is itself, a text is the number it
/// denotes, and the unit is one.
pub open spec fn number_of(value: Term) -> Result<i32, Fault>
    recommends
        value.is_resolved(),
{
    match value {
        Term::NumI(n) => Ok(n),
        Term::Str(text) => match parse_numeral(text) {
            Some(n) => Ok(n),
            None => Err(Fault::NotANumber(text)),
        },
        _ => Ok(1),
    }
}

/// One step of a sum. What is added depends on what has been gathered so
/// far: to a text the operand is appended as text, to a number it is added
/// as a number, and the unit stays the unit.
pub open spec fn add_terms(acc: Term, operand: Term) -> Result<Term, Fault> {
    match acc {
        Term::Str(text) => Ok(Term::Str(text + text_of(operand))),
        Term::NumI(n) => match number_of(operand) {
            Ok(k) => if i32::MIN <= n + k <= i32::MAX {
                Ok(Term::NumI((n + k) as i32))
            } else {
                Err(Fault::Overflow)
            },
            Err(fault) => Err(fault),
        },
        _ => Ok(acc),
    }
}

/// `operands` added to `acc` one by one, the last operand first.
pub open spec fn fold_sum(acc: Term, operands: Seq<Term>) -> Result<Term, Fault>
    decreases operands.len(),
{
    if operands.len() == 0 {
        Ok(acc)
    } else {
        match add_terms(acc, operands.last()) {
            Ok(next) => fold_sum(next, operands.drop_last()),
            Err(fault) => Err(fault),
        }
    }
}

/// The sum of values: the last one, to which the others are added from
/// right to left.
pub open spec fn sum_of(values: Seq<Term>) -> Result<Term, Fault> {
    if values.len() == 0 {
        Err(Fault::EmptySum)
    } else {
        fold_sum(values.last(), values.drop_last())
    }
}

/// One step of a product.
pub open spec fn mul_terms(acc: i32, operand: Term) -> Result<i32, Fault> {
    match number_of(operand) {
        Ok(k) => if i32::MIN <= acc * k <= i32::MAX {
            Ok((acc * k) as i32)
        } else {
            Err(Fault::Overflow)
        },
        Err(fault) => Err(fault),
    }
}

/// `acc` multiplied by `operands` one by one, the last operand first.
pub open spec fn fold_product(acc: i32, operands: Seq<Term>) -> Result<i32, Fault>
    decreases operands.len(),
{
    if operands.len() == 0 {
        Ok(acc)
    } else {
        match mul_terms(acc, operands.last()) {
            Ok(next) => fold_product(next, operands.drop_last()),
            Err(fault) => Err(fault),
        }
    }
}

/// The product of values, each taken as a number: the last one, multiplied
/// by the others from right to left.
pub open spec fn product_of(values: Seq<Term>) -> Result<Term, Fault> {
    if values.len() == 0 {
        Err(Fault::EmptyProduct)
    } else {
        match number_of(values.last()) {
            Ok(n) => match fold_product(n, values.drop_last()) {
                Ok(product) => Ok(Term::NumI(product)),
                Err(fault) => Err(fault),
            },
            Err(fault) => Err(fault),
        }
    }
}

/// The form `def` on its operands: a name, a form of parameter names and a
/// body. It binds the name to the function in the innermost scope and
/// gives the unit. The operands are checked from left to right.
pub open spec fn define(operands: Seq<Term>, env: Env) -> Outcome {
    if operands.len() < 1 {
        Outcome { result: Err(Fault::DefArity), env }
    } else if !(operands[0] is Ident) {
        Outcome { result: Err(Fault::DefName), env }
    } else if operands.len() < 2 {
        Outcome { result: Err(Fault::DefArity), env }
    } else if !(operands[1] is SExpr && all_idents(operands[1]->SExpr_0)) {
        Outcome { result: Err(Fault::DefParams), env }
    } else if operands.len() < 3 {
        Outcome { result: Err(Fault::DefArity), env }
    } else if !(operands[2] is SExpr) {
        Outcome { result: Err(Fault::DefBody), env }
    } else if operands.len() > 3 {
        Outcome { result: Err(Fault::DefExtra), env }
    } else {
        Outcome {
            result: Ok(Term::Unit),
            env: set_fun(
                env,
                operands[0]->Ident_0,
                Closure {
                    params: ident_names(operands[1]->SExpr_0),
                    body: operands[2]->SExpr_0,
                },
            ),
        }
    }
}

/// The form `let` on its operands: a name and a term. It binds the name to
/// the term as it stands, not evaluated, in the innermost scope, and gives
/// the term.
pub open spec fn bind(operands: Seq<Term>, env: Env) -> Outcome {
    if operands.len() < 1 {
        Outcome { result: Err(Fault::LetArity), env }
    } else if !(operands[0] is Ident) {
        Outcome { result: Err(Fault::LetName), env }
    } else if operands.len() != 2 {
        Outcome { result: Err(Fault::LetArity), env }
    } else {
        Outcome { result: Ok(operands[1]), env: set_var(env, operands[0]->Ident_0, operands[1]) }
    }
}

/// `frame` with each parameter bound to the argument at its place. Where a
/// name occurs twice among the parameters the later place counts.
pub open spec fn bind_into(frame: Frame, params: Seq<Seq<char>>, args: Seq<Term>) -> Frame
    recommends
        params.len() == args.len(),
    decreases params.len(),
{
    if params.len() == 0 {
        frame
    } else {
        let before = bind_into(frame, params.drop_last(), args.drop_last());
        Frame { vars: before.vars.insert(params.last(), args.last()), funs: before.funs }
    }
}

/// The scope of a call: each parameter bound to the argument at its place,
/// and nothing else.
pub open spec fn bind_args(params: Seq<Seq<char>>, args: Seq<Term>) -> Frame
    recommends
        params.len() == args.len(),
{
    bind_into(empty_frame(), params, args)
}

/// The value of a form, and what it does to the scope stack.
///
/// A form is named by its first member. `def` and `let` change the
/// innermost scope, `+` and `*` add and multiply, and any other name is a
/// call.
pub open spec fn eval(form: Seq<Term>, env: Env, depth: nat) -> Outcome
    decreases depth, 3nat, 0nat,
{
    if form.len() == 0 {
        Outcome { result: Err(Fault::EmptyForm), env }
    } else {
        match form[0] {
            Term::Ident(name) => {
                let operands = form.skip(1);
                if name == "def"@ {
                    define(operands, env)
                } else if name == "let"@ {
                    bind(operands, env)
                } else if name == "+"@ {
                    sum_form(operands, env, depth)
                } else if name == "*"@ {
                    product_form(operands, env, depth)
                } else {
                    call_form(name, operands, env, depth)
                }
            },
            _ => Outcome { result: Err(Fault::ListLiteral), env },
        }
    }
}

/// The form `+` on its operands: they are reduced to values in a scope of
/// their own, which is gone afterwards, and the values are added.
pub open spec fn sum_form(operands: Seq<Term>, env: Env, depth: nat) -> Outcome
    decreases depth, 2nat, 0nat,
{
    let values = resolve_all(operands, env.push(empty_frame()), depth);
    Outcome {
        result: match values.result {
            Ok(values) => sum_of(values),
            Err(fault) => Err(fault),
        },
        env: values.env.drop_last(),
    }
}

/// The form `*` on its operands: they are reduced to values in a scope of
/// their own, which is gone afterwards, and the values are multiplied.
pub open spec fn product_form(operands: Seq<Term>, env: Env, depth: nat) -> Outcome
    decreases depth, 2nat, 0nat,
{
    let values = resolve_all(operands, env.push(empty_frame()), depth);
    Outcome {
        result: match values.result {
            Ok(values) => product_of(values),
            Err(fault) => Err(fault),
        },
        env: values.env.drop_last(),
    }
}

/// A call by name: the function is looked up, then the operands are
/// reduced to values in the caller's scope, then the function is applied
/// to them.
pub open spec fn call_form(name: Seq<char>, operands: Seq<Term>, env: Env, depth: nat) -> Outcome
    decreases depth, 2nat, 0nat,
{
    match lookup_fun(env, name) {
        Some(fun) => {
            let values = resolve_all(operands, env, depth);
            match values.result {
                Ok(args) => apply(fun, args, values.env, depth),
                Err(fault) => Outcome { result: Err(fault), env: values.env },
            }
        },
        None => Outcome { result: Err(Fault::UnknownFunction(name)), env },
    }
}

/// A function applied to arguments: the arguments are bound in a new
/// scope, the body is evaluated there, and the scope is gone afterwards,
/// whatever the body gave. With the wrong number of arguments nothing is
/// bound.
pub open spec fn apply(fun: Closure, args: Seq<Term>, env: Env, depth: nat) -> Outcome
    decreases depth, 0nat, 0nat,
{
    if fun.params.len() != args.len() {
        Outcome { result: Err(Fault::ArityMismatch), env }
    } else if depth == 0 {
        Outcome { result: Err(Fault::DepthExceeded), env }
    } else {
        let body = eval(fun.body, env.push(bind_args(fun.params, args)), (depth - 1) as nat);
        Outcome { result: body.result, env: body.env.drop_last() }
    }
}

/// A term reduced to a final value: a name is replaced by what it stands
/// for, a form by its value, again and again until a value is reached.
pub open spec fn resolve(term: Term, env: Env, depth: nat) -> Outcome
    decreases depth, 0nat, 0nat,
{
    match term {
        Term::Ident(name) => if depth == 0 {
            Outcome { result: Err(Fault::DepthExceeded), env }
        } else {
            match lookup_var(env, name) {
                Some(value) => resolve(value, env, (depth - 1) as nat),
                None => Outcome { result: Err(Fault::UnknownVariable(name)), env },
            }
        },
        Term::SExpr(form) => if depth == 0 {
            Outcome { result: Err(Fault::DepthExceeded), env }
        } else {
            let step = eval(form, env, (depth - 1) as nat);
            match step.result {
                Ok(value) => resolve(value, step.env, (depth - 1) as nat),
                Err(fault) => Outcome { result: Err(fault), env: step.env },
            }
        },
        _ => Outcome { result: Ok(term), env },
    }
}

/// Several terms reduced to final values, from left to right, each in the
/// scope stack that the one before left. The first fault ends it.
pub open spec fn resolve_all(terms: Seq<Term>, env: Env, depth: nat) -> Outcomes
    decreases depth, 1nat, terms.len(),
{
    if terms.len() == 0 {
        Outcomes { result: Ok(Seq::empty()), env }
    } else {
        let before = resolve_all(terms.drop_last(), env, depth);
        match before.result {
            Ok(values) => {
                let last = resolve(terms.last(), before.env, depth);
                Outcomes {
                    result: match last.result {
                        Ok(value) => Ok(values.push(value)),
                        Err(fault) => Err(fault),
                    },
                    env: last.env,
                }
            },
            Err(fault) => before,
        }
    }
}

/// What a run of a program gives: the values of the forms that were
/// evaluated, the fault that ended the run if one did, and the scope stack
/// at the end.
pub struct Run {
    pub values: Seq<Term>,
    pub fault: Option<Fault>,
    pub env: Env,
}

/// The forms of a program evaluated in turn, each in the scope stack that
/// the one before left. The first fault ends the run.
pub open spec fn run(forms: Seq<Seq<Term>>, env: Env, depth: nat) -> Run
    decreases forms.len(),
{
    if forms.len() == 0 {
        Run { values: Seq::empty(), fault: None, env }
    } else {
        let before = run(forms.drop_last(), env, depth);
        if before.fault is Some {
            before
        } else {
            let last = eval(forms.last(), before.env, depth);
            match last.result {
                Ok(value) => Run { values: before.values.push(value), fault: None, env: last.env },
                Err(fault) => Run { values: before.values, fault: Some(fault), env: last.env },
            }
        }
    }
}

/// Whether `after` has the scopes of `before`, all but the innermost
/// unchanged.
pub open spec fn keeps_outer_scopes(before: Env, after: Env) -> bool {
    after.len() == before.len() && after.drop_last() == before.drop_last()
}

/// A form changes no scope but the innermost, and leaves the stack as deep
/// as it was.
pub proof fn lemma_eval_keeps_outer_scopes(form: Seq<Term>, env: Env, depth: nat)
    requires
        env.len() > 0,
    ensures
        keeps_outer_scopes(env, eval(form, env, depth).env),
    decreases depth, 3nat, 0nat,
{
    if form.len() > 0 {
        match form[0] {
            Term::Ident(name) => {
                let operands = form.skip(1);
                let inner = env.push(empty_frame());
                assert(inner.drop_last() == env);
                if name == "def"@ {
                    assert(define(operands, env).env.drop_last() =~= env.drop_last());
                } else if name == "let"@ {
                    assert(bind(operands, env).env.drop_last() =~= env.drop_last());
                } else if name == "+"@ {
                    lemma_resolve_all_keeps_outer_scopes(operands, inner, depth);
                } else if name == "*"@ {
                    lemma_resolve_all_keeps_outer_scopes(operands, inner, depth);
                } else {
                    match lookup_fun(env, name) {
                        Some(fun) => {
                            lemma_resolve_all_keeps_outer_scopes(operands, env, depth);
                            let values = resolve_all(operands, env, depth);
                            if values.result is Ok {
                                lemma_apply_keeps_scopes(
                                    fun,
                                    values.result->Ok_0,
                                    values.env,
                                    depth,
                                );
                            }
                        },
                        None => {},
                    }
                }
            },
            _ => {},
        }
    }
}

/// A call leaves the scope stack as it found it, whatever the body does
/// and whether or not it fails: what the body binds is gone with the scope
/// of the call.
pub proof fn lemma_apply_keeps_scopes(fun: Closure, args: Seq<Term>, env: Env, depth: nat)
    requires
        env.len() > 0,
    ensures
        apply(fun, args, env, depth).env == env,
    decreases depth, 0nat, 0nat,
{
    if fun.params.len() == args.len() && depth > 0 {
        let inner = env.push(bind_args(fun.params, args));
        assert(inner.drop_last() == env);
        lemma_eval_keeps_outer_scopes(fun.body, inner, (depth - 1) as nat);
    }
}

/// Reducing a term changes no scope but the innermost.
pub proof fn lemma_resolve_keeps_outer_scopes(term: Term, env: Env, depth: nat)
    requires
        env.len() > 0,
    ensures
        keeps_outer_scopes(env, resolve(term, env, depth).env),
    decreases depth, 0nat, 0nat,
{
    match term {
        Term::Ident(name) => {
            if depth > 0 {
                match lookup_var(env, name) {
                    Some(value) => {
                        lemma_resolve_keeps_outer_scopes(value, env, (depth - 1) as nat);
                    },
                    None => {},
                }
            }
        },
        Term::SExpr(form) => {
            if depth > 0 {
                lemma_eval_keeps_outer_scopes(form, env, (depth - 1) as nat);
                let step = eval(form, env, (depth - 1) as nat);
                if step.result is Ok {
                    lemma_resolve_keeps_outer_scopes(
                        step.result->Ok_0,
                        step.env,
                        (depth - 1) as nat,
                    );
                }
            }
        },
        _ => {},
    }
}

/// Reducing several terms changes no scope but the innermost.
pub proof fn lemma_resolve_all_keeps_outer_scopes(terms: Seq<Term>, env: Env, depth: nat)
    requires
        env.len() > 0,
    ensures
        keeps_outer_scopes(env, resolve_all(terms, env, depth).env),
    decreases depth, 1nat, terms.len(),
{
    if terms.len() > 0 {
        lemma_resolve_all_keeps_outer_scopes(terms.drop_last(), env, depth);
        let before = resolve_all(terms.drop_last(), env, depth);
        if before.result is Ok {
            lemma_resolve_keeps_outer_scopes(terms.last(), before.env, depth);
        }
    }
}

/// The forms `+` and `*` leave the scope stack as they found it: what
/// their operands bind is gone with the scope they were reduced in.
pub proof fn lemma_sum_and_product_keep_scopes(operands: Seq<Term>, env: Env, depth: nat)
    requires
        env.len() > 0,
    ensures
        sum_form(operands, env, depth).env == env,
        product_form(operands, env, depth).env == env,
{
    let inner = env.push(empty_frame());
    assert(inner.drop_last() == env);
    lemma_resolve_all_keeps_outer_scopes(operands, inner, depth);
}

/// A variable that a function binds in its body is not visible after the
/// call: after a call every name stands for what it stood for before.
pub proof fn lemma_call_binds_nothing_for_the_caller(
    fun: Closure,
    args: Seq<Term>,
    env: Env,
    depth: nat,
    name: Seq<char>,
)
    requires
        env.len() > 0,
    ensures
        lookup_var(apply(fun, args, env, depth).env, name) == lookup_var(env, name),
        lookup_fun(apply(fun, args, env, depth).env, name) == lookup_fun(env, name),
{
    lemma_apply_keeps_scopes(fun, args, env, depth);
}

/// A call of a name that stands for no function fails with the fault that
/// holds the name, before any operand is looked at, and changes nothing.
pub proof fn lemma_unknown_function_fails(
    name: Seq<char>,
    operands: Seq<Term>,
    env: Env,
    depth: nat,
)
    requires
        name != "def"@,
        name != "let"@,
        name != "+"@,
        name != "*"@,
        lookup_fun(env, name) is None,
    ensures
        eval(seq![Term::Ident(name)] + operands, env, depth) == (Outcome {
            result: Err(Fault::UnknownFunction(name)),
            env,
        }),
{
    let form = seq![Term::Ident(name)] + operands;
    assert(form[0] == Term::Ident(name));
    assert(form.skip(1) =~= operands);
}

/// A call with another number of arguments than the function has
/// parameters fails with `ArityMismatch`, and binds no parameter: the scope
/// stack stays as it was.
pub proof fn lemma_wrong_arity_fails(fun: Closure, args: Seq<Term>, env: Env, depth: nat)
    requires
        fun.params.len() != args.len(),
    ensures
        apply(fun, args, env, depth) == (Outcome { result: Err(Fault::ArityMismatch), env }),
{
}

/// A name that has been bound in the innermost scope stands for the value
/// it was bound to.
pub proof fn lemma_set_var_is_seen(env: Env, name: Seq<char>, value: Term)
    requires
        env.len() > 0,
    ensures
        lookup_var(set_var(env, name, value), name) == Some(value),
{
}

/// Binding a name again replaces the earlier binding: what counts is the
/// latest value. Binding it twice to the same value is the same as binding
/// it once.
pub proof fn lemma_set_var_overwrites(env: Env, name: Seq<char>, first: Term, second: Term)
    requires
        env.len() > 0,
    ensures
        set_var(set_var(env, name, first), name, second) == set_var(env, name, second),
        set_var(set_var(env, name, second), name, second) == set_var(env, name, second),
{
    let once = set_var(env, name, first);
    assert(once.last().vars.insert(name, second) =~= env.last().vars.insert(name, second));
    assert(set_var(once, name, second) =~= set_var(env, name, second));
    let same = set_var(env, name, second);
    assert(same.last().vars.insert(name, second) =~= env.last().vars.insert(name, second));
    assert(set_var(same, name, second) =~= set_var(env, name, second));
}

/// The form `let` evaluated twice on the same operands gives what it gives
/// once: the same value, and a scope with one binding for the name.
pub proof fn lemma_let_twice_is_let_once(operands: Seq<Term>, env: Env, depth: nat)
    requires
        env.len() > 0,
    ensures
        eval(
            seq![Term::Ident("let"@)] + operands,
            eval(seq![Term::Ident("let"@)] + operands, env, depth).env,
            depth,
        ) == eval(seq![Term::Ident("let"@)] + operands, env, depth),
{
    reveal_strlit("let");
    reveal_strlit("def");
    let form = seq![Term::Ident("let"@)] + operands;
    assert(form[0] == Term::Ident("let"@));
    assert(form.skip(1) =~= operands);
    assert("let"@[0] == 'l' && "def"@[0] == 'd');
    if operands.len() == 2 && operands[0] is Ident {
        lemma_set_var_overwrites(env, operands[0]->Ident_0, operands[1], operands[1]);
    }
}

/// Reducing a term gives a final value where it gives a value: a text, a
/// number or the unit, never a name or a form.
pub proof fn lemma_resolve_gives_a_value(term: Term, env: Env, depth: nat)
    ensures
        resolve(term, env, depth).result is Ok ==> resolve(
            term,
            env,
            depth,
        ).result->Ok_0.is_resolved(),
    decreases depth,
{
    match term {
        Term::Ident(name) => {
            if depth > 0 {
                match lookup_var(env, name) {
                    Some(value) => {
                        lemma_resolve_gives_a_value(value, env, (depth - 1) as nat);
                    },
                    None => {},
                }
            }
        },
        Term::SExpr(form) => {
            if depth > 0 {
                let step = eval(form, env, (depth - 1) as nat);
                if step.result is Ok {
                    lemma_resolve_gives_a_value(step.result->Ok_0, step.env, (depth - 1) as nat);
                }
            }
        },
        _ => {},
    }
}

/// Reducing several terms gives as many values, each of them final.
pub proof fn lemma_resolve_all_gives_values(terms: Seq<Term>, env: Env, depth: nat)
    ensures
        resolve_all(terms, env, depth).result matches Ok(values) ==> values.len() == terms.len()
            && forall|i: int| 0 <= i < values.len() ==> (#[trigger] values[i]).is_resolved(),
    decreases terms.len(),
{
    if terms.len() > 0 {
        lemma_resolve_all_gives_values(terms.drop_last(), env, depth);
        let before = resolve_all(terms.drop_last(), env, depth);
        if before.result is Ok {
            lemma_resolve_gives_a_value(terms.last(), before.env, depth);
        }
    }
}

/// Adding values never gives the fault `DepthExceeded`.
pub proof fn lemma_fold_sum_within_depth(acc: Term, operands: Seq<Term>)
    ensures
        fold_sum(acc, operands) != Err::<Term, Fault>(Fault::DepthExceeded),
    decreases operands.len(),
{
    if operands.len() > 0 {
        match add_terms(acc, operands.last()) {
            Ok(next) => {
                lemma_fold_sum_within_depth(next, operands.drop_last());
            },
            Err(fault) => {},
        }
    }
}

/// Multiplying values never gives the fault `DepthExceeded`.
pub proof fn lemma_fold_product_within_depth(acc: i32, operands: Seq<Term>)
    ensures
        fold_product(acc, operands) != Err::<i32, Fault>(Fault::DepthExceeded),
    decreases operands.len(),
{
    if operands.len() > 0 {
        match mul_terms(acc, operands.last()) {
            Ok(next) => {
                lemma_fold_product_within_depth(next, operands.drop_last());
            },
            Err(fault) => {},
        }
    }
}

/// The depth only bounds an evaluation: where a form has a value, or
/// fails for another reason than the depth, every greater depth gives the
/// same value or fault, and the same scope stack.
pub proof fn lemma_eval_with_more_depth(form: Seq<Term>, env: Env, depth: nat, more: nat)
    requires
        depth <= more,
        eval(form, env, depth).result != Err::<Term, Fault>(Fault::DepthExceeded),
    ensures
        eval(form, env, more) == eval(form, env, depth),
    decreases depth, 3nat, 0nat,
{
    if form.len() > 0 {
        match form[0] {
            Term::Ident(name) => {
                let operands = form.skip(1);
                if name == "def"@ {
                } else if name == "let"@ {
                } else if name == "+"@ {
                    let inner = env.push(empty_frame());
                    let values = resolve_all(operands, inner, depth);
                    if values.result is Ok {
                        let list = values.result->Ok_0;
                        if list.len() > 0 {
                            lemma_fold_sum_within_depth(list.last(), list.drop_last());
                        }
                    }
                    lemma_resolve_all_with_more_depth(operands, inner, depth, more);
                } else if name == "*"@ {
                    let inner = env.push(empty_frame());
                    let values = resolve_all(operands, inner, depth);
                    if values.result is Ok {
                        let list = values.result->Ok_0;
                        if list.len() > 0 && number_of(list.last()) is Ok {
                            lemma_fold_product_within_depth(
                                number_of(list.last())->Ok_0,
                                list.drop_last(),
                            );
                        }
                    }
                    lemma_resolve_all_with_more_depth(operands, inner, depth, more);
                } else {
                    match lookup_fun(env, name) {
                        Some(fun) => {
                            let values = resolve_all(operands, env, depth);
                            lemma_resolve_all_with_more_depth(operands, env, depth, more);
                            if values.result is Ok {
                                lemma_apply_with_more_depth(
                                    fun,
                                    values.result->Ok_0,
                                    values.env,
                                    depth,
                                    more,
                                );
                            }
                        },
                        None => {},
                    }
                }
            },
            _ => {},
        }
    }
}

/// A call that ends within a depth ends the same way within every greater
/// depth.
pub proof fn lemma_apply_with_more_depth(
    fun: Closure,
    args: Seq<Term>,
    env: Env,
    depth: nat,
    more: nat,
)
    requires
        depth <= more,
        apply(fun, args, env, depth).result != Err::<Term, Fault>(Fault::DepthExceeded),
    ensures
        apply(fun, args, env, more) == apply(fun, args, env, depth),
    decreases depth, 0nat, 0nat,
{
    if fun.params.len() == args.len() {
        lemma_eval_with_more_depth(
            fun.body,
            env.push(bind_args(fun.params, args)),
            (depth - 1) as nat,
            (more - 1) as nat,
        );
    }
}

/// A term that is reduced within a depth is reduced the same way within
/// every greater depth.
pub proof fn lemma_resolve_with_more_depth(term: Term, env: Env, depth: nat, more: nat)
    requires
        depth <= more,
        resolve(term, env, depth).result != Err::<Term, Fault>(Fault::DepthExceeded),
    ensures
        resolve(term, env, more) == resolve(term, env, depth),
    decreases depth, 0nat, 0nat,
{
    match term {
        Term::Ident(name) => {
            match lookup_var(env, name) {
                Some(value) => {
                    lemma_resolve_with_more_depth(
                        value,
                        env,
                        (depth - 1) as nat,
                        (more - 1) as nat,
                    );
                },
                None => {},
            }
        },
        Term::SExpr(form) => {
            let step = eval(form, env, (depth - 1) as nat);
            lemma_eval_with_more_depth(form, env, (depth - 1) as nat, (more - 1) as nat);
            if step.result is Ok {
                lemma_resolve_with_more_depth(
                    step.result->Ok_0,
                    step.env,
                    (depth - 1) as nat,
                    (more - 1) as nat,
                );
            }
        },
        _ => {},
    }
}

/// Terms that are reduced within a depth are reduced the same way within
/// every greater depth.
pub proof fn lemma_resolve_all_with_more_depth(terms: Seq<Term>, env: Env, depth: nat, more: nat)
    requires
        depth <= more,
        resolve_all(terms, env, depth).result != Err::<Seq<Term>, Fault>(Fault::DepthExceeded),
    ensures
        resolve_all(terms, env, more) == resolve_all(terms, env, depth),
    decreases depth, 1nat, terms.len(),
{
    if terms.len() > 0 {
        let before = resolve_all(terms.drop_last(), env, depth);
        lemma_resolve_all_with_more_depth(terms.drop_last(), env, depth, more);
        if before.result is Ok {
            lemma_resolve_with_more_depth(terms.last(), before.env, depth, more);
        }
    }
}

} // verus!
