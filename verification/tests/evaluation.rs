use symexpr::EvalError;
use symexpr::ExecutionContext;
use symexpr::Intrinsic;
use symexpr::evaluate;
use symexpr::evaluate_once;
use symexpr::term::Arena;
use symexpr::term::ArgumentPolicy;
use symexpr::term::AssignmentValueInner;
use symexpr::term::CallArgument;
use symexpr::term::DereferenceValueInner;
use symexpr::term::ExecutableFunctionValueInner;
use symexpr::term::ExecutableSequenceValueInner;
use symexpr::term::FloatingPointNumberValueInner;
use symexpr::term::FunctionApplicationValueInner;
use symexpr::term::HoldValueInner;
use symexpr::term::IntrinsicCallValueInner;
use symexpr::term::NullValueInner;
use symexpr::term::ReleaseValueInner;
use symexpr::term::SymbolValueInner;
use symexpr::term::TupleValueInner;
use symexpr::term::Value;

const FUEL: u64 = 10_000;

/// The native functions these tests register: float addition on number
/// terms, and the stack primitives used by the dynamic-scope discipline.
#[derive(Clone)]
enum Native {
    AddNumbers,
    PushValue,
    PopValue,
}

impl Intrinsic for Native {
    fn call(
        &self,
        context: &mut ExecutionContext<Self>,
        arena: &mut Arena,
        arguments: Vec<Value>,
    ) -> Result<Value, EvalError> {
        match self {
            Native::AddNumbers => {
                if arguments.len() != 2 {
                    return Err(EvalError::ArityMismatch);
                }
                let a = match arguments[0].try_downcast::<FloatingPointNumberValueInner>(arena) {
                    Some(p) => f64::from_bits(p.bits),
                    None => return Err(EvalError::VariantMismatch),
                };
                let b = match arguments[1].try_downcast::<FloatingPointNumberValueInner>(arena) {
                    Some(p) => f64::from_bits(p.bits),
                    None => return Err(EvalError::VariantMismatch),
                };
                Ok(Value::new(
                    arena,
                    FloatingPointNumberValueInner { bits: (a + b).to_bits() },
                ))
            }
            Native::PushValue => {
                if arguments.len() != 1 {
                    return Err(EvalError::ArityMismatch);
                }
                context.push(arguments[0]);
                Ok(Value::new(arena, NullValueInner))
            }
            Native::PopValue => {
                if !arguments.is_empty() {
                    return Err(EvalError::ArityMismatch);
                }
                context.pop()
            }
        }
    }
}

fn symbol(arena: &mut Arena, name: &str) -> Value {
    Value::new(arena, SymbolValueInner { name: String::from(name) })
}

fn number(arena: &mut Arena, x: f64) -> Value {
    Value::new(arena, FloatingPointNumberValueInner { bits: x.to_bits() })
}

fn evaluated(term: Value) -> CallArgument {
    CallArgument { policy: ArgumentPolicy::Evaluated, term }
}

fn as_number(arena: &Arena, v: Value) -> f64 {
    f64::from_bits(v.downcast::<FloatingPointNumberValueInner>(arena).bits)
}

#[test]
fn leaves_evaluate_to_themselves() {
    let mut arena = Arena::new();
    let mut context: ExecutionContext<Native> = ExecutionContext::new();
    let n = number(&mut arena, 7.0);
    let s = symbol(&mut arena, "free");
    let nil = Value::new(&mut arena, NullValueInner);
    let held_inner = symbol(&mut arena, "quoted");
    let h = Value::new(&mut arena, HoldValueInner { inner: held_inner });
    for v in [n, s, nil, h] {
        assert_eq!(evaluate(&mut context, &mut arena, v, FUEL), Ok(v));
    }
}

#[test]
fn evaluation_is_idempotent_on_results() {
    let mut arena = Arena::new();
    let mut context: ExecutionContext<Native> = ExecutionContext::new();
    let one = number(&mut arena, 1.0);
    let a = symbol(&mut arena, "a");
    let assign = Value::new(&mut arena, AssignmentValueInner { source: one, target: a });
    let first = evaluate(&mut context, &mut arena, assign, FUEL).unwrap();
    let second = evaluate(&mut context, &mut arena, first, FUEL).unwrap();
    assert_eq!(first, second);
    let deref = Value::new(&mut arena, DereferenceValueInner { inner: a });
    let first = evaluate(&mut context, &mut arena, deref, FUEL).unwrap();
    let second = evaluate(&mut context, &mut arena, first, FUEL).unwrap();
    assert_eq!(first, second);
}

#[test]
fn assignment_binds_and_dereference_reads() {
    // Scenario: assign 1.0 to `a`, then dereferencing `a` evaluates to it.
    let mut arena = Arena::new();
    let mut context: ExecutionContext<Native> = ExecutionContext::new();
    let one = number(&mut arena, 1.0);
    let a = symbol(&mut arena, "a");
    let assign = Value::new(&mut arena, AssignmentValueInner { source: one, target: a });
    let r = evaluate(&mut context, &mut arena, assign, FUEL).unwrap();
    assert!(r.is::<NullValueInner>(&arena));
    let deref = Value::new(&mut arena, DereferenceValueInner { inner: a });
    let v = evaluate(&mut context, &mut arena, deref, FUEL).unwrap();
    assert_eq!(v, one, "the bound term itself comes back, by identity");
    assert_eq!(as_number(&arena, v), 1.0);
}

#[test]
fn unbound_symbols_are_inert_under_dereference() {
    let mut arena = Arena::new();
    let mut context: ExecutionContext<Native> = ExecutionContext::new();
    let a = symbol(&mut arena, "never_bound");
    let deref = Value::new(&mut arena, DereferenceValueInner { inner: a });
    assert_eq!(evaluate(&mut context, &mut arena, deref, FUEL), Ok(a));
}

#[test]
fn function_application_substitutes_and_releases() {
    // Scenario: a two-formal function adding its arguments through a
    // registered float-add intrinsic maps (2.0, 3.0) to 5.0.
    let mut arena = Arena::new();
    let mut context: ExecutionContext<Native> = ExecutionContext::new();
    let add = symbol(&mut arena, "add");
    context.register_intrinsic(add, Native::AddNumbers);
    let x = symbol(&mut arena, "x");
    let y = symbol(&mut arena, "y");
    let formals = Value::new(&mut arena, TupleValueInner { inner: vec![x, y] });
    let call = Value::new(
        &mut arena,
        IntrinsicCallValueInner { intrinsic: add, arguments: vec![evaluated(x), evaluated(y)] },
    );
    let body = Value::new(&mut arena, HoldValueInner { inner: call });
    let f = Value::new(&mut arena, ExecutableFunctionValueInner { arguments: formals, body });
    let two = number(&mut arena, 2.0);
    let three = number(&mut arena, 3.0);
    let app = Value::new(
        &mut arena,
        FunctionApplicationValueInner {
            function: f,
            arguments: vec![evaluated(two), evaluated(three)],
        },
    );
    let v = evaluate(&mut context, &mut arena, app, FUEL).unwrap();
    assert_eq!(as_number(&arena, v), 5.0);
}

#[test]
fn held_arguments_pass_through_as_syntax() {
    let mut arena = Arena::new();
    let mut context: ExecutionContext<Native> = ExecutionContext::new();
    let x = symbol(&mut arena, "x");
    let formals = Value::new(&mut arena, TupleValueInner { inner: vec![x] });
    let body = Value::new(&mut arena, HoldValueInner { inner: x });
    let f = Value::new(&mut arena, ExecutableFunctionValueInner { arguments: formals, body });
    // the actual argument is itself a dereference, passed held: the body
    // sees the syntax, so the result is that very dereference term
    let a = symbol(&mut arena, "a");
    let deref = Value::new(&mut arena, DereferenceValueInner { inner: a });
    let app = Value::new(
        &mut arena,
        FunctionApplicationValueInner {
            function: f,
            arguments: vec![CallArgument { policy: ArgumentPolicy::Held, term: deref }],
        },
    );
    // `a` is unbound, so even after release the dereference resolves to `a`
    let v = evaluate(&mut context, &mut arena, app, FUEL).unwrap();
    assert_eq!(v, a);
}

#[test]
fn dynamic_scope_saves_rebinds_and_restores() {
    // Scenario: bind a -> 1.0; enter a dynamic scope rebinding a -> 2.0;
    // inside, `a` dereferences to 2.0; leaving restores 1.0. The scope is
    // ordinary program text built from the stack intrinsics.
    let mut arena = Arena::new();
    let mut context: ExecutionContext<Native> = ExecutionContext::new();
    let push = symbol(&mut arena, "push");
    let pop = symbol(&mut arena, "pop");
    context.register_intrinsic(push, Native::PushValue);
    context.register_intrinsic(pop, Native::PopValue);
    let a = symbol(&mut arena, "a");
    let one = number(&mut arena, 1.0);
    let two = number(&mut arena, 2.0);
    let deref_a = Value::new(&mut arena, DereferenceValueInner { inner: a });

    let bind_one = Value::new(&mut arena, AssignmentValueInner { source: one, target: a });
    let save = Value::new(
        &mut arena,
        IntrinsicCallValueInner { intrinsic: push, arguments: vec![evaluated(deref_a)] },
    );
    let rebind = Value::new(&mut arena, AssignmentValueInner { source: two, target: a });
    let enter = Value::new(
        &mut arena,
        ExecutableSequenceValueInner { inner: vec![bind_one, save, rebind] },
    );
    evaluate(&mut context, &mut arena, enter, FUEL).unwrap();

    let inside = evaluate(&mut context, &mut arena, deref_a, FUEL).unwrap();
    assert_eq!(as_number(&arena, inside), 2.0);

    let restore_source = Value::new(
        &mut arena,
        IntrinsicCallValueInner { intrinsic: pop, arguments: vec![] },
    );
    let leave = Value::new(
        &mut arena,
        AssignmentValueInner { source: restore_source, target: a },
    );
    evaluate(&mut context, &mut arena, leave, FUEL).unwrap();

    let outside = evaluate(&mut context, &mut arena, deref_a, FUEL).unwrap();
    assert_eq!(as_number(&arena, outside), 1.0);
    assert_eq!(outside, one, "the saved binding is the original term");
}

#[test]
fn arity_mismatch_is_fatal() {
    // Scenario: applying a two-formal function to one argument aborts.
    let mut arena = Arena::new();
    let mut context: ExecutionContext<Native> = ExecutionContext::new();
    let x = symbol(&mut arena, "x");
    let y = symbol(&mut arena, "y");
    let formals = Value::new(&mut arena, TupleValueInner { inner: vec![x, y] });
    let body = Value::new(&mut arena, HoldValueInner { inner: x });
    let f = Value::new(&mut arena, ExecutableFunctionValueInner { arguments: formals, body });
    let two = number(&mut arena, 2.0);
    let app = Value::new(
        &mut arena,
        FunctionApplicationValueInner { function: f, arguments: vec![evaluated(two)] },
    );
    assert_eq!(
        evaluate(&mut context, &mut arena, app, FUEL),
        Err(EvalError::ArityMismatch)
    );
}

#[test]
fn unregistered_intrinsic_is_fatal() {
    // Scenario: an intrinsic call naming an unregistered symbol aborts.
    let mut arena = Arena::new();
    let mut context: ExecutionContext<Native> = ExecutionContext::new();
    let ghost_fn = symbol(&mut arena, "nowhere");
    let call = Value::new(
        &mut arena,
        IntrinsicCallValueInner { intrinsic: ghost_fn, arguments: vec![] },
    );
    assert_eq!(
        evaluate(&mut context, &mut arena, call, FUEL),
        Err(EvalError::IntrinsicNotFound)
    );
}

#[test]
fn release_peels_exactly_one_hold() {
    let mut arena = Arena::new();
    let mut context: ExecutionContext<Native> = ExecutionContext::new();
    let n = number(&mut arena, 4.0);
    let inner_hold = Value::new(&mut arena, HoldValueInner { inner: n });
    let outer_hold = Value::new(&mut arena, HoldValueInner { inner: inner_hold });
    let rel = Value::new(&mut arena, ReleaseValueInner { inner: outer_hold });
    let v = evaluate(&mut context, &mut arena, rel, FUEL).unwrap();
    assert_eq!(v, inner_hold, "one layer of quoting is stripped, no more");
}

#[test]
fn release_of_a_non_hold_is_fatal() {
    let mut arena = Arena::new();
    let mut context: ExecutionContext<Native> = ExecutionContext::new();
    let n = number(&mut arena, 4.0);
    let rel = Value::new(&mut arena, ReleaseValueInner { inner: n });
    assert_eq!(
        evaluate(&mut context, &mut arena, rel, FUEL),
        Err(EvalError::ReleaseWithoutHold)
    );
}

#[test]
fn assignment_to_a_non_symbol_is_fatal() {
    let mut arena = Arena::new();
    let mut context: ExecutionContext<Native> = ExecutionContext::new();
    let n = number(&mut arena, 4.0);
    let m = number(&mut arena, 5.0);
    let assign = Value::new(&mut arena, AssignmentValueInner { source: n, target: m });
    assert_eq!(
        evaluate(&mut context, &mut arena, assign, FUEL),
        Err(EvalError::VariantMismatch)
    );
}

#[test]
fn applying_a_non_function_is_fatal() {
    let mut arena = Arena::new();
    let mut context: ExecutionContext<Native> = ExecutionContext::new();
    let n = number(&mut arena, 4.0);
    let app = Value::new(
        &mut arena,
        FunctionApplicationValueInner { function: n, arguments: vec![] },
    );
    assert_eq!(
        evaluate(&mut context, &mut arena, app, FUEL),
        Err(EvalError::VariantMismatch)
    );
}

#[test]
fn empty_sequence_evaluates_to_null() {
    let mut arena = Arena::new();
    let mut context: ExecutionContext<Native> = ExecutionContext::new();
    let seq = Value::new(&mut arena, ExecutableSequenceValueInner { inner: vec![] });
    let v = evaluate(&mut context, &mut arena, seq, FUEL).unwrap();
    assert!(v.is::<NullValueInner>(&arena));
}

#[test]
fn sequence_yields_its_last_result() {
    let mut arena = Arena::new();
    let mut context: ExecutionContext<Native> = ExecutionContext::new();
    let one = number(&mut arena, 1.0);
    let two = number(&mut arena, 2.0);
    let seq = Value::new(&mut arena, ExecutableSequenceValueInner { inner: vec![one, two] });
    assert_eq!(evaluate(&mut context, &mut arena, seq, FUEL), Ok(two));
}

#[test]
fn a_diverging_program_runs_out_of_fuel() {
    // the classic self-application: applying a function to itself so that
    // every step reproduces the same application
    let mut arena = Arena::new();
    let mut context: ExecutionContext<Native> = ExecutionContext::new();
    let x = symbol(&mut arena, "x");
    let formals = Value::new(&mut arena, TupleValueInner { inner: vec![x] });
    let inner_app = Value::new(
        &mut arena,
        FunctionApplicationValueInner {
            function: x,
            arguments: vec![CallArgument { policy: ArgumentPolicy::Held, term: x }],
        },
    );
    let body = Value::new(&mut arena, HoldValueInner { inner: inner_app });
    let f = Value::new(&mut arena, ExecutableFunctionValueInner { arguments: formals, body });
    let omega = Value::new(
        &mut arena,
        FunctionApplicationValueInner {
            function: f,
            arguments: vec![CallArgument { policy: ArgumentPolicy::Held, term: f }],
        },
    );
    assert_eq!(
        evaluate(&mut context, &mut arena, omega, 300),
        Err(EvalError::OutOfFuel)
    );
}

#[test]
fn one_step_strips_one_release() {
    let mut arena = Arena::new();
    let mut context: ExecutionContext<Native> = ExecutionContext::new();
    let x = symbol(&mut arena, "x");
    let h = Value::new(&mut arena, HoldValueInner { inner: x });
    let rel = Value::new(&mut arena, ReleaseValueInner { inner: h });
    assert_eq!(evaluate_once(&mut context, &mut arena, rel, FUEL), Ok(x));
}

#[test]
fn one_step_performs_a_settled_assignment() {
    let mut arena = Arena::new();
    let mut context: ExecutionContext<Native> = ExecutionContext::new();
    let one = number(&mut arena, 1.0);
    let a = symbol(&mut arena, "a");
    let assign = Value::new(&mut arena, AssignmentValueInner { source: one, target: a });
    let r = evaluate_once(&mut context, &mut arena, assign, FUEL).unwrap();
    assert!(r.is::<NullValueInner>(&arena));
    assert_eq!(context.lookup(a), Some(one));
}

#[test]
fn popping_an_empty_stack_is_fatal() {
    let mut context: ExecutionContext<Native> = ExecutionContext::new();
    assert_eq!(context.pop(), Err(EvalError::EmptyStack));
}

#[test]
fn the_stack_is_last_in_first_out() {
    let mut arena = Arena::new();
    let mut context: ExecutionContext<Native> = ExecutionContext::new();
    let one = number(&mut arena, 1.0);
    let two = number(&mut arena, 2.0);
    context.push(one);
    context.push(two);
    assert_eq!(context.pop(), Ok(two));
    assert_eq!(context.pop(), Ok(one));
    assert_eq!(context.pop(), Err(EvalError::EmptyStack));
}

#[test]
fn binding_overwrites_in_place() {
    let mut arena = Arena::new();
    let mut context: ExecutionContext<Native> = ExecutionContext::new();
    let a = symbol(&mut arena, "a");
    let one = number(&mut arena, 1.0);
    let two = number(&mut arena, 2.0);
    context.bind(a, one);
    assert_eq!(context.lookup(a), Some(one));
    context.bind(a, two);
    assert_eq!(context.lookup(a), Some(two));
    let other = symbol(&mut arena, "a");
    assert_eq!(context.lookup(other), None, "lookup is by identity, not name");
}
