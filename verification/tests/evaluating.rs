use risp::ast::{Member, SExpr, AST};
use risp::interp::{interpret, interpret_sexpr, EvalError, Fun, ProgContext, Trace};
use risp::lexer::tokenize;

const DEPTH: usize = 200;

fn form<'a>(members: Vec<Member<'a>>) -> SExpr<'a> {
    SExpr::new(members)
}

fn run(src: &str) -> Trace<'_> {
    interpret(AST::from_tokens(tokenize(src)).unwrap(), DEPTH)
}

fn last_value(src: &str) -> Member<'_> {
    let mut trace = run(src);
    assert_eq!(trace.error, None);
    trace.values.pop().unwrap()
}

fn failure(src: &str) -> EvalError<'_> {
    run(src).error.unwrap()
}

fn text(s: &str) -> Member<'static> {
    Member::String(s.to_string())
}

#[test]
fn sum_of_numbers() {
    assert_eq!(last_value("(+ 1 2)"), Member::NumI(3));
    assert_eq!(last_value("(+ 1 2 3 4)"), Member::NumI(10));
    assert_eq!(last_value("(+ 5)"), Member::NumI(5));
    assert_eq!(last_value("(+ -5 2)"), Member::NumI(-3));
}

#[test]
fn sum_of_texts_folds_from_the_right() {
    assert_eq!(last_value("(+ \"a\" \"b\")"), text("ba"));
    assert_eq!(last_value("(+ \"a\" \"b\" \"c\")"), text("cba"));
    assert_eq!(last_value("(+ \"a\")"), text("a"));
}

#[test]
fn sum_takes_its_kind_from_the_last_operand() {
    assert_eq!(last_value("(+ 1 \"a\")"), text("a1"));
    assert_eq!(last_value("(+ -12 \"a\")"), text("a-12"));
    assert_eq!(last_value("(+ \"4\" 1)"), Member::NumI(5));
    assert_eq!(last_value("(+ (let u 1) \"x\")"), text("x1"));
}

#[test]
fn sum_with_unit() {
    assert_eq!(last_value("(+ (def f () (+ 1))  2)"), Member::NumI(3));
    assert_eq!(last_value("(+ (def f () (+ 1)) \"u\")"), text("u()"));
    assert_eq!(last_value("(+ 1 2 (def f () (+ 1)))"), Member::Unit);
}

#[test]
fn sum_errors() {
    assert_eq!(failure("(+)"), EvalError::EmptySum);
    assert_eq!(failure("(+ \"x\" 1)"), EvalError::NotANumber("x".to_string()));
    assert_eq!(failure("(+ 2147483647 1)"), EvalError::Overflow);
    assert_eq!(failure("(+ -2147483648 -1)"), EvalError::Overflow);
    assert_eq!(last_value("(+ 2147483646 1)"), Member::NumI(2147483647));
}

#[test]
fn product_of_numbers() {
    assert_eq!(last_value("(* 2 3)"), Member::NumI(6));
    assert_eq!(last_value("(* 2 3 4)"), Member::NumI(24));
    assert_eq!(last_value("(* 7)"), Member::NumI(7));
    assert_eq!(last_value("(* \"6\" 7)"), Member::NumI(42));
    assert_eq!(last_value("(* 6 \"7\")"), Member::NumI(42));
    assert_eq!(last_value("(* -3 (+ 1 2))"), Member::NumI(-9));
    assert_eq!(last_value("(* 5 (def f () (+ 1)))"), Member::NumI(5));
}

#[test]
fn product_errors() {
    assert_eq!(failure("(*)"), EvalError::EmptyProduct);
    assert_eq!(failure("(* 65536 65536)"), EvalError::Overflow);
    assert_eq!(failure("(* 2 \"x\")"), EvalError::NotANumber("x".to_string()));
    assert_eq!(last_value("(* -65536 32768)"), Member::NumI(i32::MIN));
}

#[test]
fn let_then_use() {
    let trace = run("(let x 5) (+ x x)");
    assert_eq!(trace.error, None);
    assert_eq!(trace.values, vec![Member::NumI(5), Member::NumI(10)]);
}

#[test]
fn let_stores_the_term_as_it_stands() {
    let trace = run("(let x (+ 1 2)) (+ x 0)");
    assert_eq!(trace.error, None);
    assert_eq!(
        trace.values[0],
        Member::SExpr(form(vec![Member::Ident("+"), Member::NumI(1), Member::NumI(2)]))
    );
    assert_eq!(trace.values[1], Member::NumI(3));
}

#[test]
fn let_follows_names() {
    assert_eq!(last_value("(let x 5) (let y x) (+ y 1)"), Member::NumI(6));
    assert_eq!(last_value("(let y x) (let x 5) (+ y 1)"), Member::NumI(6));
}

#[test]
fn let_errors() {
    assert_eq!(failure("(let)"), EvalError::LetArity);
    assert_eq!(failure("(let x)"), EvalError::LetArity);
    assert_eq!(failure("(let x 1 2)"), EvalError::LetArity);
    assert_eq!(failure("(let 1 2)"), EvalError::LetName);
    assert_eq!(failure("(let 1)"), EvalError::LetName);
}

#[test]
fn def_then_call() {
    let trace = run("(def sq (n) (+ n n)) (sq 4)");
    assert_eq!(trace.error, None);
    assert_eq!(trace.values, vec![Member::Unit, Member::NumI(8)]);
}

#[test]
fn def_errors() {
    assert_eq!(failure("(def)"), EvalError::DefArity);
    assert_eq!(failure("(def f)"), EvalError::DefArity);
    assert_eq!(failure("(def f (a))"), EvalError::DefArity);
    assert_eq!(failure("(def 1 (a) (+ a))"), EvalError::DefName);
    assert_eq!(failure("(def 1)"), EvalError::DefName);
    assert_eq!(failure("(def f a (+ a))"), EvalError::DefParams);
    assert_eq!(failure("(def f (a 1) (+ a))"), EvalError::DefParams);
    assert_eq!(failure("(def f (a) a)"), EvalError::DefBody);
    assert_eq!(failure("(def f (a) (+ a) 1)"), EvalError::DefExtra);
}

#[test]
fn call_of_unknown_function_names_it() {
    let error = failure("(nope 1 2)");
    assert_eq!(error, EvalError::FunctionNotFound("nope"));
    assert_eq!(error.message(), "Function nope not found");
    assert!(!error.is_fatal());
}

#[test]
fn unknown_function_is_found_before_operands_are_reduced() {
    assert_eq!(failure("(nope missing)"), EvalError::FunctionNotFound("nope"));
}

#[test]
fn call_with_wrong_number_of_arguments() {
    assert_eq!(failure("(def f (a b) (+ a b)) (f 1)"), EvalError::ArityMismatch);
    assert_eq!(failure("(def f (a b) (+ a b)) (f 1 2 3)"), EvalError::ArityMismatch);
    assert_eq!(failure("(def f () (+ 1)) (f 1)"), EvalError::ArityMismatch);
}

#[test]
fn wrong_arity_binds_no_parameter() {
    let mut context = ProgContext::default();
    let fun = Fun::new(
        vec!["a", "b"],
        form(vec![Member::Ident("+"), Member::Ident("a"), Member::Ident("b")]),
    );
    let before = ProgContext::default();
    assert_eq!(fun.call(vec![Member::NumI(1)], &mut context, DEPTH), Err(EvalError::ArityMismatch));
    assert_eq!(context, before);
    assert_eq!(context.depth(), 1);
    assert_eq!(context.find_var("a"), None);
}

#[test]
fn variable_of_a_call_is_gone_afterwards() {
    let mut context = ProgContext::default();
    let def = AST::from_tokens(tokenize("(def f () (let y 1)) (f)")).unwrap();
    for form in def.prog {
        assert!(interpret_sexpr(form, &mut context, DEPTH).is_ok());
    }
    assert_eq!(context.depth(), 1);
    assert_eq!(context.find_var("y"), None);
    assert_eq!(
        Member::Ident("y").resolve(&mut context, DEPTH),
        Err(EvalError::VariableNotFound("y"))
    );
    assert_eq!(failure("(def f () (let y 1)) (f) (+ y)"), EvalError::VariableNotFound("y"));
}

#[test]
fn call_leaves_the_stack_as_it_was() {
    let mut context = ProgContext::default();
    context.reg_var("g", Member::NumI(1));
    let fun = Fun::new(vec!["a"], form(vec![Member::Ident("let"), Member::Ident("g"), Member::Ident("a")]));
    let mut expected = ProgContext::default();
    expected.reg_var("g", Member::NumI(1));
    assert_eq!(fun.call(vec![Member::NumI(7)], &mut context, DEPTH), Ok(Member::Ident("a")));
    assert_eq!(context, expected);
    assert_eq!(context.get_var("g"), Member::NumI(1));
}

#[test]
fn scoping_is_dynamic() {
    let src = "(def get () (+ v)) (def with (v) (get)) (with 9)";
    assert_eq!(last_value(src), Member::NumI(9));
    assert_eq!(failure("(def get () (+ v)) (get)"), EvalError::VariableNotFound("v"));
}

#[test]
fn inner_binding_shadows_outer() {
    let src = "(let v 1) (def get () (+ v)) (def with (v) (get)) (+ (with 9) v)";
    assert_eq!(last_value(src), Member::NumI(10));
}

#[test]
fn operands_of_sum_are_reduced_in_a_scope_of_their_own() {
    assert_eq!(failure("(+ (let t 3) t) (+ t)"), EvalError::VariableNotFound("t"));
    let trace = run("(+ (let t 3) t)");
    assert_eq!(trace.values, vec![Member::NumI(6)]);
}

#[test]
fn operands_of_a_call_are_reduced_in_the_callers_scope() {
    assert_eq!(last_value("(def id (a) (+ a)) (id (let t 3)) (+ t)"), Member::NumI(3));
}

#[test]
fn let_twice_leaves_one_binding() {
    let mut context = ProgContext::default();
    let tree = AST::from_tokens(tokenize("(let x 5) (let x 5)")).unwrap();
    let mut once = ProgContext::default();
    once.reg_var("x", Member::NumI(5));
    for form in tree.prog {
        assert_eq!(interpret_sexpr(form, &mut context, DEPTH), Ok(Member::NumI(5)));
        assert_eq!(context.var_count(), 1);
    }
    assert_eq!(context, once);
}

#[test]
fn let_again_overwrites() {
    let mut context = ProgContext::default();
    context.reg_var("x", Member::NumI(1));
    context.reg_var("y", Member::NumI(2));
    context.reg_var("x", Member::NumI(3));
    assert_eq!(context.var_count(), 2);
    assert_eq!(context.get_var("x"), Member::NumI(3));
    assert_eq!(context.get_var("y"), Member::NumI(2));
}

#[test]
fn list_literal_and_empty_form() {
    assert_eq!(failure("(1 2 3)"), EvalError::ListLiteral);
    assert_eq!(failure("((f) 2)"), EvalError::ListLiteral);
    assert_eq!(failure("(\"a\")"), EvalError::ListLiteral);
    assert_eq!(failure("()"), EvalError::EmptyForm);
    assert_eq!(failure("(+ ())"), EvalError::EmptyForm);
}

#[test]
fn name_that_stands_for_itself_exceeds_the_depth() {
    assert_eq!(failure("(let x x) (+ x)"), EvalError::DepthExceeded);
    assert_eq!(failure("(let x y) (let y x) (+ x)"), EvalError::DepthExceeded);
}

#[test]
fn function_that_calls_itself_exceeds_the_depth() {
    assert_eq!(failure("(def f () (f)) (f)"), EvalError::DepthExceeded);
}

#[test]
fn depth_is_counted_in_nested_steps() {
    let tree = AST::from_tokens(tokenize("(+ 1 2)")).unwrap();
    assert_eq!(interpret(tree, 0).values, vec![Member::NumI(3)]);
    let nested = AST::from_tokens(tokenize("(+ 1 (+ 2 3))")).unwrap();
    assert_eq!(interpret(nested, 0).error, Some(EvalError::DepthExceeded));
    let nested = AST::from_tokens(tokenize("(+ 1 (+ 2 3))")).unwrap();
    assert_eq!(interpret(nested, 1).values, vec![Member::NumI(6)]);
}

#[test]
fn first_error_ends_the_run() {
    let trace = run("(+ 1 1) (nope) (+ 2 2)");
    assert_eq!(trace.values, vec![Member::NumI(2)]);
    assert_eq!(trace.error, Some(EvalError::FunctionNotFound("nope")));
}

#[test]
fn later_definition_replaces_earlier() {
    assert_eq!(last_value("(def f () (+ 1)) (def f () (+ 2)) (f)"), Member::NumI(2));
}

#[test]
fn repeated_parameter_takes_the_later_argument() {
    assert_eq!(last_value("(def f (a a) (+ a)) (f 1 2)"), Member::NumI(2));
}

#[test]
fn coercions() {
    let mut context = ProgContext::default();
    context.reg_var("n", Member::NumI(-4));
    assert_eq!(text("t").into_string_value(&mut context, DEPTH), Ok("t".to_string()));
    assert_eq!(Member::NumI(12).into_string_value(&mut context, DEPTH), Ok("12".to_string()));
    assert_eq!(Member::Unit.into_string_value(&mut context, DEPTH), Ok("()".to_string()));
    assert_eq!(Member::Ident("n").into_string_value(&mut context, DEPTH), Ok("-4".to_string()));
    assert_eq!(Member::NumI(12).into_inum_value(&mut context, DEPTH), Ok(12));
    assert_eq!(text("-12").into_inum_value(&mut context, DEPTH), Ok(-12));
    assert_eq!(Member::Unit.into_inum_value(&mut context, DEPTH), Ok(1));
    assert_eq!(Member::Ident("n").into_inum_value(&mut context, DEPTH), Ok(-4));
    assert_eq!(
        text("x1").into_inum_value(&mut context, DEPTH),
        Err(EvalError::NotANumber("x1".to_string()))
    );
    assert_eq!(
        Member::Ident("m").into_string_value(&mut context, DEPTH),
        Err(EvalError::VariableNotFound("m"))
    );
    let sum = Member::SExpr(form(vec![Member::Ident("+"), Member::NumI(1), Member::NumI(2)]));
    assert_eq!(sum.into_string_value(&mut context, DEPTH), Ok("3".to_string()));
}

#[test]
fn resolve_reduces_to_a_value() {
    let mut context = ProgContext::default();
    context.reg_var("a", Member::Ident("b"));
    context.reg_var(
        "b",
        Member::SExpr(form(vec![Member::Ident("+"), Member::NumI(1), Member::NumI(2)])),
    );
    assert_eq!(Member::Ident("a").resolve(&mut context, DEPTH), Ok(Member::NumI(3)));
    assert_eq!(Member::NumI(9).resolve(&mut context, 0), Ok(Member::NumI(9)));
    assert_eq!(Member::Ident("a").resolve(&mut context, 0), Err(EvalError::DepthExceeded));
}

#[test]
fn scope_stack_operations() {
    let mut context = ProgContext::default();
    assert_eq!(context.depth(), 1);
    context.reg_var("x", Member::NumI(1));
    context.next_level();
    assert_eq!(context.depth(), 2);
    assert_eq!(context.var_count(), 0);
    assert_eq!(context.find_var("x"), Some(Member::NumI(1)));
    context.reg_var("x", Member::NumI(2));
    assert_eq!(context.get_var("x"), Member::NumI(2));
    context.pop_level();
    assert_eq!(context.depth(), 1);
    assert_eq!(context.get_var("x"), Member::NumI(1));
}

#[test]
fn functions_are_looked_up_from_the_innermost_scope() {
    let mut context = ProgContext::default();
    assert_eq!(context.get_fun("f"), None);
    context.reg_fun("f", Fun::new(vec![], form(vec![Member::Ident("+"), Member::NumI(1)])));
    context.next_level();
    context.reg_fun("f", Fun::new(vec![], form(vec![Member::Ident("+"), Member::NumI(2)])));
    assert_eq!(
        context.get_fun("f"),
        Some(Fun::new(vec![], form(vec![Member::Ident("+"), Member::NumI(2)])))
    );
    context.pop_level();
    assert_eq!(
        context.get_fun("f"),
        Some(Fun::new(vec![], form(vec![Member::Ident("+"), Member::NumI(1)])))
    );
}

#[test]
fn error_messages_and_tiers() {
    assert_eq!(
        EvalError::DefArity.message(),
        "def needs 3 arguments (def {name} ({args...}) ({function}))"
    );
    assert_eq!(EvalError::DefName.message(), "def needs argument 1 to be ident");
    assert_eq!(EvalError::DefParams.message(), "def needs argument 2 to be ident list");
    assert_eq!(EvalError::DefBody.message(), "def needs argument 3 to be SExpr");
    assert_eq!(EvalError::LetArity.message(), "let requires 2 arguments");
    assert_eq!(EvalError::LetName.message(), "let requires argument 1 to be ident");
    assert_eq!(EvalError::EmptySum.message(), "Sum called with no arguments");
    assert_eq!(EvalError::ArityMismatch.message(), "Arg number missmatch");
    assert_eq!(EvalError::VariableNotFound("v").message(), "Variable v not found");
    assert_eq!(
        EvalError::NotANumber("q".to_string()).message(),
        "Cannot convert string q into i32"
    );
    assert!(!EvalError::DefArity.is_fatal());
    assert!(!EvalError::ArityMismatch.is_fatal());
    assert!(!EvalError::EmptySum.is_fatal());
    assert!(EvalError::DefExtra.is_fatal());
    assert!(!EvalError::EmptyProduct.is_fatal());
    assert!(!EvalError::FunctionNotFound("f").is_fatal());
    assert!(EvalError::NotANumber("q".to_string()).is_fatal());
    assert!(EvalError::VariableNotFound("v").is_fatal());
    assert!(EvalError::Overflow.is_fatal());
    assert!(EvalError::ListLiteral.is_fatal());
    assert!(EvalError::EmptyForm.is_fatal());
    assert!(EvalError::DepthExceeded.is_fatal());
}
