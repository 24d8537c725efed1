//! The evaluator: a one-step congruence/execute rewrite driven to a fixed
//! point. Sub-terms are normalized bottom-up; call-site arguments follow
//! their own per-argument policy (held arguments stay syntax, evaluated
//! arguments become values); quoting (`Hold`) stops evaluation and
//! `Release` peels exactly one quoting layer after evaluating its operand.
//!
//! The hosted language can express non-terminating programs, so every entry
//! point takes a step budget (`fuel`); a program that has not settled when
//! the budget runs out aborts with [`EvalError::OutOfFuel`].

use vstd::prelude::*;

use crate::context::EvalError;
use crate::context::ExecutionContext;
use crate::context::Intrinsic;
use crate::context::lemma_binding_value_valid;
use crate::context::lemma_valid_in_prefix;
use crate::navigate::children_of;
use crate::navigate::with_children;
use crate::subst::lemma_child_valid;
use crate::subst::replace;
use crate::term::Arena;
use crate::term::ArgumentPolicy;
use crate::term::arena_wf;
use crate::term::CallArgument;
use crate::term::Node;
use crate::term::NodeView;
use crate::term::NullValueInner;
use crate::term::Value;
use crate::term::copy_call_arguments;
use crate::term::copy_values;
use crate::term::is_leaf;
use crate::term::lemma_prefix_index;
use crate::term::lemma_prefix_trans;
use crate::term::node_children;
use crate::term::valid_id;

verus! {

broadcast use crate::term::lemma_slot_nonneg, crate::term::lemma_prefix_refl;

/// Terms on which one evaluation step does nothing at all: leaves and
/// quoted terms. `Null`, `Number` and unbound `Symbol` terms are values;
/// `Symbol` lookup happens only under an explicit `Dereference`; a `Hold`
/// keeps its contents un-evaluated until a `Release` reaches it.
pub open spec fn is_inert(a: Seq<NodeView>, v: Value) -> bool {
    valid_id(a, v) && (a[v.slot()] is Null || a[v.slot()] is Symbol || a[v.slot()] is Number
        || a[v.slot()] is Hold)
}

/// Terminal terms within a step budget: inert terms, and tuples or
/// function templates all of whose parts are terminal (each nesting level
/// consumes one unit of budget, since congruence recurses there). On such
/// terms evaluation is the identity and touches nothing.
pub open spec fn is_terminal_within(a: Seq<NodeView>, v: Value, fuel: int) -> bool
    decreases v.slot(),
    when arena_wf(a) && valid_id(a, v)
{
    is_inert(a, v) || ((a[v.slot()] is Tuple || a[v.slot()] is Function) && fuel >= 1 && forall|
        i: int,
    |
        0 <= i < node_children(a[v.slot()]).len() ==> is_terminal_within(
            a,
            #[trigger] node_children(a[v.slot()])[i],
            fuel - 1,
        ))
}

/// An assignment whose source and target are terminal within the budget:
/// one step evaluates both to themselves and then either binds (target a
/// symbol) or aborts.
pub open spec fn settled_assignment(a: Seq<NodeView>, v: Value, fuel: int) -> bool {
    valid_id(a, v) && match a[v.slot()] {
        NodeView::Assignment { source, target } => is_terminal_within(a, source, fuel)
            && is_terminal_within(a, target, fuel),
        _ => false,
    }
}

/// The source of an assignment node.
pub open spec fn assignment_source(a: Seq<NodeView>, v: Value) -> Value {
    match a[v.slot()] {
        NodeView::Assignment { source, .. } => source,
        _ => v,
    }
}

/// The target of an assignment node.
pub open spec fn assignment_target(a: Seq<NodeView>, v: Value) -> Value {
    match a[v.slot()] {
        NodeView::Assignment { target, .. } => target,
        _ => v,
    }
}

/// A dereference whose operand is terminal within the budget: one step
/// evaluates the operand to itself and then either looks the symbol up
/// (a free symbol stands for itself) or aborts.
pub open spec fn settled_dereference(a: Seq<NodeView>, v: Value, fuel: int) -> bool {
    valid_id(a, v) && match a[v.slot()] {
        NodeView::Dereference { inner } => valid_id(a, inner) && is_terminal_within(
            a,
            inner,
            fuel,
        ),
        _ => false,
    }
}

/// The operand of a dereference node.
pub open spec fn dereference_inner(a: Seq<NodeView>, v: Value) -> Value {
    match a[v.slot()] {
        NodeView::Dereference { inner } => inner,
        _ => v,
    }
}

/// A release whose operand is terminal within the budget: one step
/// evaluates the operand to itself and then either strips the quoting
/// layer or aborts.
pub open spec fn settled_release(a: Seq<NodeView>, v: Value, fuel: int) -> bool {
    valid_id(a, v) && match a[v.slot()] {
        NodeView::Release { inner } => valid_id(a, inner) && is_terminal_within(a, inner, fuel),
        _ => false,
    }
}

/// The operand of a release node.
pub open spec fn release_operand(a: Seq<NodeView>, v: Value) -> Value {
    match a[v.slot()] {
        NodeView::Release { inner } => inner,
        _ => v,
    }
}

/// The term inside the quoting layer a settled release strips.
pub open spec fn release_result(a: Seq<NodeView>, v: Value) -> Value {
    match a[v.slot()] {
        NodeView::Release { inner } => match a[inner.slot()] {
            NodeView::Hold { inner: held } => held,
            _ => v,
        },
        _ => v,
    }
}

/// An empty executable sequence: its value is a fresh null term.
pub open spec fn empty_sequence(a: Seq<NodeView>, v: Value) -> bool {
    valid_id(a, v) && a[v.slot()] is Sequence && node_children(a[v.slot()]).len() == 0
}

/// The operator position of a call site: the function of an application,
/// the symbol of an intrinsic call.
pub open spec fn call_operator(a: Seq<NodeView>, v: Value) -> Value {
    match a[v.slot()] {
        NodeView::Application { function, .. } => function,
        NodeView::IntrinsicCall { intrinsic, .. } => intrinsic,
        _ => v,
    }
}

/// The tagged arguments of a call site.
pub open spec fn call_arguments(a: Seq<NodeView>, v: Value) -> Seq<CallArgument> {
    match a[v.slot()] {
        NodeView::Application { arguments, .. } => arguments,
        NodeView::IntrinsicCall { arguments, .. } => arguments,
        _ => Seq::empty(),
    }
}

/// Every call-site argument either passes as held syntax or is terminal
/// within the budget, so policy resolution hands each argument term
/// through unchanged.
pub open spec fn settled_arguments(a: Seq<NodeView>, v: Value, fuel: int) -> bool {
    forall|j: int|
        0 <= j < call_arguments(a, v).len() ==> ((#[trigger] call_arguments(a, v)[j]).policy
            is Held || is_terminal_within(a, call_arguments(a, v)[j].term, fuel))
}

/// The formal-parameter term of a function template node.
pub open spec fn function_formals(a: Seq<NodeView>, f: Value) -> Value {
    match a[f.slot()] {
        NodeView::Function { arguments, .. } => arguments,
        _ => f,
    }
}

/// The body of a function template node.
pub open spec fn function_body(a: Seq<NodeView>, f: Value) -> Value {
    match a[f.slot()] {
        NodeView::Function { body, .. } => body,
        _ => f,
    }
}

/// The elements of a tuple node.
pub open spec fn tuple_items(a: Seq<NodeView>, t: Value) -> Seq<Value> {
    match a[t.slot()] {
        NodeView::Tuple { inner } => inner,
        _ => Seq::empty(),
    }
}

/// What one step does to an application whose operator and arguments are
/// settled, as far as the fatal rules reach: applying a non-function, a
/// formal list that is not a tuple, an arity mismatch, or a formal that is
/// not a symbol each abort with the exact error; otherwise the step
/// proceeds into substitution and release, whose outcome depends on the
/// rewritten body.
pub open spec fn settled_application_outcome<F>(
    a: Seq<NodeView>,
    v: Value,
    r: Result<Value, EvalError>,
    a_post: Seq<NodeView>,
    c_pre: ExecutionContext<F>,
    c_post: ExecutionContext<F>,
) -> bool {
    let f = call_operator(a, v);
    let ft = function_formals(a, f);
    if !(a[f.slot()] is Function) {
        r == Err::<Value, EvalError>(EvalError::VariantMismatch) && a_post =~= a && c_post
            == c_pre
    } else if !(a[ft.slot()] is Tuple) {
        r == Err::<Value, EvalError>(EvalError::VariantMismatch) && a_post =~= a && c_post
            == c_pre
    } else if tuple_items(a, ft).len() != call_arguments(a, v).len() {
        r == Err::<Value, EvalError>(EvalError::ArityMismatch) && a_post =~= a && c_post
            == c_pre
    } else if exists|j: int|
        0 <= j < tuple_items(a, ft).len() && !(a[(#[trigger] tuple_items(a, ft)[j]).slot()]
            is Symbol) {
        r == Err::<Value, EvalError>(EvalError::VariantMismatch)
    } else {
        let body0 = function_body(a, f);
        let formals = tuple_items(a, ft);
        let actuals = call_arguments(a, v).map_values(|ca: CallArgument| ca.term);
        &&& valid_id(a_post, body0)
        &&& forall|j: int| 0 <= j < formals.len() ==> valid_id(a_post, #[trigger] formals[j])
        &&& forall|j: int| 0 <= j < actuals.len() ==> valid_id(a_post, #[trigger] actuals[j])
        &&& exists|b: Value|
            #[trigger] crate::subst::subst_chain(a_post, body0, formals, actuals, b) && valid_id(
                a_post,
                b,
            ) && (!(a_post[b.slot()] is Hold) ==> r == Err::<Value, EvalError>(
                EvalError::VariantMismatch,
            ))
    }
}

/// One rewrite step: normalize structural sub-parts, resolve per-argument
/// evaluation policy, and perform the variant's own rule (bind, look up,
/// substitute-and-release, call an intrinsic).
///
/// The contract pins the step exactly on the settled fragment — terms whose
/// operands need no further evaluation: terminal terms come back identical
/// with nothing changed; a settled assignment binds or aborts with a
/// variant mismatch exactly when its target is no symbol; a settled
/// dereference looks up or aborts likewise; a settled release strips one
/// quoting layer or aborts exactly when its operand is no quote; an
/// all-terminal sequence yields its last element (a fresh null when
/// empty); a settled intrinsic call aborts exactly when its symbol is
/// unregistered; and a settled application either aborts with the exact
/// fatal error (non-function, formals not a tuple of symbols, arity) or
/// performs the left-to-right substitution chain, whose witness the
/// contract exhibits, and releases the rewritten body. What remains open
/// is only what genuinely depends on recursive evaluation or on the
/// embedder's native functions.
#[verifier::rlimit(100)]
#[verifier::spinoff_prover]
pub fn evaluate_once<F: Intrinsic>(
    context: &mut ExecutionContext<F>,
    arena: &mut Arena,
    value: Value,
    fuel: u64,
) -> (r: Result<Value, EvalError>)
    requires
        old(arena).wf(),
        old(arena).valid(value),
        old(context).wf(),
        old(context).valid_in(old(arena)@),
    ensures
        final(arena).wf(),
        old(arena)@.is_prefix_of(final(arena)@),
        final(context).wf(),
        final(context).valid_in(final(arena)@),
        match r {
            Ok(v) => valid_id(final(arena)@, v),
            Err(_) => true,
        },
        is_terminal_within(old(arena)@, value, fuel as int) ==> r == Ok::<Value, EvalError>(
            value,
        ) && final(arena)@ =~= old(arena)@ && *final(context) == *old(context),
        fuel >= 1 && settled_assignment(old(arena)@, value, fuel as int - 1) ==> (
        if old(arena)@[assignment_target(old(arena)@, value).slot()] is Symbol {
            match r {
                Ok(res) => final(arena)@ =~= old(arena)@.push(NodeView::Null)
                    && final(context).bindings() =~= old(context).bindings().insert(
                    assignment_target(old(arena)@, value),
                    assignment_source(old(arena)@, value),
                ) && final(context).stack_view() == old(context).stack_view()
                    && final(context).intrinsics_map() == old(context).intrinsics_map()
                    && final(arena)@[res.slot()] is Null,
                Err(_) => false,
            }
        } else {
            r == Err::<Value, EvalError>(EvalError::VariantMismatch) && final(arena)@ =~= old(
                arena,
            )@ && *final(context) == *old(context)
        }),
        fuel >= 1 && settled_dereference(old(arena)@, value, fuel as int - 1) ==> final(arena)@
            =~= old(arena)@ && *final(context) == *old(context) && (
        if old(arena)@[dereference_inner(old(arena)@, value).slot()] is Symbol {
            r == Ok::<Value, EvalError>(
                if old(context).bindings().dom().contains(dereference_inner(old(arena)@, value)) {
                    old(context).bindings()[dereference_inner(old(arena)@, value)]
                } else {
                    dereference_inner(old(arena)@, value)
                },
            )
        } else {
            r == Err::<Value, EvalError>(EvalError::VariantMismatch)
        }),
        fuel >= 1 && settled_release(old(arena)@, value, fuel as int - 1) ==> final(arena)@ =~= old(
            arena,
        )@ && *final(context) == *old(context) && (
        if old(arena)@[release_operand(old(arena)@, value).slot()] is Hold {
            r == Ok::<Value, EvalError>(release_result(old(arena)@, value))
        } else {
            r == Err::<Value, EvalError>(EvalError::ReleaseWithoutHold)
        }),
        fuel >= 1 && empty_sequence(old(arena)@, value) ==> match r {
            Ok(res) => final(arena)@ =~= old(arena)@.push(NodeView::Null) && *final(context)
                == *old(context) && final(arena)@[res.slot()] is Null,
            Err(_) => false,
        },
        fuel >= 1 && old(arena)@[value.slot()] is Sequence && node_children(
            old(arena)@[value.slot()],
        ).len() >= 1 && (forall|j: int|
            0 <= j < node_children(old(arena)@[value.slot()]).len() ==> is_terminal_within(
                old(arena)@,
                #[trigger] node_children(old(arena)@[value.slot()])[j],
                fuel as int - 1,
            )) ==> r == Ok::<Value, EvalError>(node_children(old(arena)@[value.slot()]).last())
            && final(arena)@ =~= old(arena)@ && *final(context) == *old(context),
        fuel >= 1 && old(arena)@[value.slot()] is IntrinsicCall && is_terminal_within(
            old(arena)@,
            call_operator(old(arena)@, value),
            fuel as int - 1,
        ) && settled_arguments(old(arena)@, value, fuel as int - 1)
            && !old(context).intrinsics_map().dom().contains(call_operator(old(arena)@, value))
            ==> r == Err::<Value, EvalError>(EvalError::IntrinsicNotFound) && final(arena)@
            =~= old(arena)@ && *final(context) == *old(context),
        fuel >= 1 && old(arena)@[value.slot()] is Application && is_terminal_within(
            old(arena)@,
            call_operator(old(arena)@, value),
            fuel as int - 1,
        ) && settled_arguments(old(arena)@, value, fuel as int - 1)
            ==> settled_application_outcome(
            old(arena)@,
            value,
            r,
            final(arena)@,
            *old(context),
            *final(context),
        ),
    decreases fuel, 2int,
{
    let ghost a0 = arena@;
    match arena.node(value) {
        Node::Null(_) => Ok(value),
        Node::Symbol(_) => Ok(value),
        Node::Number(_) => Ok(value),
        Node::Hold(_) => Ok(value),
        Node::Release(p) => {
            let inner = p.inner;
            proof {
                lemma_child_valid(a0, value, 0);
            }
            if fuel == 0 {
                return Err(EvalError::OutOfFuel);
            }
            let evaluated = match evaluate(context, arena, inner, fuel - 1) {
                Ok(v) => v,
                Err(e) => {
                    return Err(e);
                },
            };
            let ghost a1 = arena@;
            match arena.node(evaluated) {
                Node::Hold(q) => {
                    proof {
                        lemma_child_valid(a1, evaluated, 0);
                    }
                    Ok(q.inner)
                },
                _ => Err(EvalError::ReleaseWithoutHold),
            }
        },
        Node::Sequence(_) => {
            if fuel == 0 {
                return Err(EvalError::OutOfFuel);
            }
            run_sequence(context, arena, value, fuel)
        },
        Node::Assignment(p) => {
            let source = p.source;
            let target = p.target;
            proof {
                lemma_child_valid(a0, value, 0);
                lemma_child_valid(a0, value, 1);
            }
            if fuel == 0 {
                return Err(EvalError::OutOfFuel);
            }
            let s = match evaluate(context, arena, source, fuel - 1) {
                Ok(v) => v,
                Err(e) => {
                    return Err(e);
                },
            };
            let ghost a1 = arena@;
            let t = match evaluate(context, arena, target, fuel - 1) {
                Ok(v) => v,
                Err(e) => {
                    proof {
                        lemma_prefix_trans(a0, a1, arena@);
                    }
                    return Err(e);
                },
            };
            proof {
                lemma_prefix_trans(a0, a1, arena@);
            }
            let symbol_ok = match arena.node(t) {
                Node::Symbol(_) => true,
                _ => false,
            };
            if !symbol_ok {
                return Err(EvalError::VariantMismatch);
            }
            context.bind(t, s);
            let ghost a2 = arena@;
            let nil = Value::new(arena, NullValueInner);
            proof {
                lemma_prefix_trans(a0, a2, arena@);
                lemma_valid_in_prefix(*context, a2, arena@);
            }
            Ok(nil)
        },
        Node::Dereference(p) => {
            let inner = p.inner;
            proof {
                lemma_child_valid(a0, value, 0);
            }
            if fuel == 0 {
                return Err(EvalError::OutOfFuel);
            }
            let evaluated = match evaluate(context, arena, inner, fuel - 1) {
                Ok(v) => v,
                Err(e) => {
                    return Err(e);
                },
            };
            let symbol_ok = match arena.node(evaluated) {
                Node::Symbol(_) => true,
                _ => false,
            };
            if !symbol_ok {
                return Err(EvalError::VariantMismatch);
            }
            match context.lookup(evaluated) {
                Some(bound) => {
                    proof {
                        lemma_binding_value_valid(*context, arena@, evaluated);
                    }
                    Ok(bound)
                },
                None => Ok(evaluated),
            }
        },
        Node::Tuple(_) => {
            if fuel == 0 {
                return Err(EvalError::OutOfFuel);
            }
            congruence_children(context, arena, value, fuel)
        },
        Node::Function(_) => {
            if fuel == 0 {
                return Err(EvalError::OutOfFuel);
            }
            congruence_children(context, arena, value, fuel)
        },
        Node::Application(_) => {
            if fuel == 0 {
                return Err(EvalError::OutOfFuel);
            }
            apply_application(context, arena, value, fuel)
        },
        Node::IntrinsicCall(_) => {
            if fuel == 0 {
                return Err(EvalError::OutOfFuel);
            }
            run_intrinsic_call(context, arena, value, fuel)
        },
    }
}

/// Execute a sequence left to right, discarding intermediate results; the
/// value is the last element's result, or a fresh null term for an empty
/// sequence.
fn run_sequence<F: Intrinsic>(
    context: &mut ExecutionContext<F>,
    arena: &mut Arena,
    value: Value,
    fuel: u64,
) -> (r: Result<Value, EvalError>)
    requires
        old(arena).wf(),
        old(arena).valid(value),
        old(context).wf(),
        old(context).valid_in(old(arena)@),
        old(arena)@[value.slot()] is Sequence,
        fuel >= 1,
    ensures
        final(arena).wf(),
        old(arena)@.is_prefix_of(final(arena)@),
        final(context).wf(),
        final(context).valid_in(final(arena)@),
        match r {
            Ok(v) => valid_id(final(arena)@, v),
            Err(_) => true,
        },
        node_children(old(arena)@[value.slot()]).len() == 0 ==> match r {
            Ok(res) => final(arena)@ =~= old(arena)@.push(NodeView::Null) && *final(context)
                == *old(context) && final(arena)@[res.slot()] is Null,
            Err(_) => false,
        },
        node_children(old(arena)@[value.slot()]).len() >= 1 && (forall|j: int|
            0 <= j < node_children(old(arena)@[value.slot()]).len() ==> is_terminal_within(
                old(arena)@,
                #[trigger] node_children(old(arena)@[value.slot()])[j],
                fuel as int - 1,
            )) ==> r == Ok::<Value, EvalError>(node_children(old(arena)@[value.slot()]).last())
            && final(arena)@ =~= old(arena)@ && *final(context) == *old(context),
    decreases fuel, 1int,
{
    let ghost a0 = arena@;
    let items = match arena.node(value) {
        Node::Sequence(p) => copy_values(&p.inner),
        _ => vstd::pervasive::unreached(),
    };
    proof {
        assert(items@ =~= node_children(a0[value.slot()]));
    }
    let n = items.len();
    if n == 0 {
        let nil = Value::new(arena, NullValueInner);
        proof {
            lemma_valid_in_prefix(*context, a0, arena@);
        }
        return Ok(nil);
    }
    let mut last: Option<Value> = None;
    let mut i: usize = 0;
    while i < n
        invariant
            arena.wf(),
            context.wf(),
            context.valid_in(arena@),
            a0 == old(arena)@,
            a0.is_prefix_of(arena@),
            valid_id(a0, value),
            a0[value.slot()] is Sequence,
            n == node_children(a0[value.slot()]).len(),
            n >= 1,
            n == items@.len(),
            i <= n,
            fuel >= 1,
            items@ =~= node_children(a0[value.slot()]),
            forall|j: int| 0 <= j < n ==> valid_id(arena@, #[trigger] items@[j]),
            i > 0 ==> last is Some,
            match last {
                Some(v) => valid_id(arena@, v),
                None => true,
            },
            (forall|j: int|
                0 <= j < n ==> is_terminal_within(a0, #[trigger] items@[j], fuel as int - 1))
                ==> arena@ == a0 && *context == *old(context) && (i > 0 ==> last == Some(
                items@[i - 1],
            )),
        decreases n - i,
    {
        let ghost a_pre = arena@;
        let v = match evaluate(context, arena, items[i], fuel - 1) {
            Ok(v) => v,
            Err(e) => {
                proof {
                    lemma_prefix_trans(a0, a_pre, arena@);
                }
                return Err(e);
            },
        };
        proof {
            lemma_prefix_trans(a0, a_pre, arena@);
        }
        last = Some(v);
        i = i + 1;
    }
    match last {
        Some(v) => Ok(v),
        None => vstd::pervasive::unreached(),
    }
}

/// Apply a function template: the function position and the evaluated
/// arguments are normalized first, the formal list must be a tuple of
/// symbols matching the actual count, each formal is substituted through
/// the rewrite engine, and the rewritten body must be a quoted term whose
/// contents are then evaluated.
fn apply_application<F: Intrinsic>(
    context: &mut ExecutionContext<F>,
    arena: &mut Arena,
    value: Value,
    fuel: u64,
) -> (r: Result<Value, EvalError>)
    requires
        old(arena).wf(),
        old(arena).valid(value),
        old(context).wf(),
        old(context).valid_in(old(arena)@),
        old(arena)@[value.slot()] is Application,
        fuel >= 1,
    ensures
        final(arena).wf(),
        old(arena)@.is_prefix_of(final(arena)@),
        final(context).wf(),
        final(context).valid_in(final(arena)@),
        match r {
            Ok(v) => valid_id(final(arena)@, v),
            Err(_) => true,
        },
        is_terminal_within(old(arena)@, call_operator(old(arena)@, value), fuel as int - 1)
            && settled_arguments(old(arena)@, value, fuel as int - 1)
            ==> settled_application_outcome(
            old(arena)@,
            value,
            r,
            final(arena)@,
            *old(context),
            *final(context),
        ),
    decreases fuel, 1int,
{
    let ghost a0 = arena@;
    let ghost settled = is_terminal_within(a0, call_operator(a0, value), fuel as int - 1)
        && settled_arguments(a0, value, fuel as int - 1);
    let (function, arguments) = match arena.node(value) {
        Node::Application(p) => (p.function, copy_call_arguments(&p.arguments)),
        _ => vstd::pervasive::unreached(),
    };
    proof {
        lemma_child_valid(a0, value, 0);
        assert(function == call_operator(a0, value));
        assert(arguments@ =~= call_arguments(a0, value));
        assert forall|j: int| 0 <= j < arguments@.len() implies valid_id(
            a0,
            (#[trigger] arguments@[j]).term,
        ) by {
            lemma_child_valid(a0, value, j + 1);
            assert(node_children(a0[value.slot()])[j + 1] == arguments@[j].term);
        }
        if settled {
            assert forall|j: int|
                0 <= j < arguments@.len() implies ((#[trigger] arguments@[j]).policy is Held
                || is_terminal_within(a0, arguments@[j].term, fuel as int - 1)) by {
                assert(arguments@[j] == call_arguments(a0, value)[j]);
            }
        }
    }
    let f = match evaluate(context, arena, function, fuel - 1) {
        Ok(v) => v,
        Err(e) => {
            return Err(e);
        },
    };
    let ghost a1 = arena@;
    let actuals = match resolve_arguments(context, arena, &arguments, fuel) {
        Ok(v) => v,
        Err(e) => {
            proof {
                lemma_prefix_trans(a0, a1, arena@);
            }
            return Err(e);
        },
    };
    proof {
        lemma_prefix_trans(a0, a1, arena@);
    }
    let ghost a2 = arena@;
    let (formals_term, mut body) = match arena.node(f) {
        Node::Function(q) => (q.arguments, q.body),
        _ => {
            return Err(EvalError::VariantMismatch);
        },
    };
    proof {
        lemma_child_valid(a2, f, 0);
        lemma_child_valid(a2, f, 1);
    }
    let formals = match arena.node(formals_term) {
        Node::Tuple(q) => copy_values(&q.inner),
        _ => {
            return Err(EvalError::VariantMismatch);
        },
    };
    proof {
        assert(formals@ =~= node_children(a2[formals_term.slot()]));
    }
    if formals.len() != actuals.len() {
        return Err(EvalError::ArityMismatch);
    }
    proof {
        if settled {
            lemma_child_valid(a0, f, 1);
            assert(actuals@ =~= call_arguments(a0, value).map_values(
                |ca: CallArgument| ca.term,
            ));
            assert(formals@.subrange(0, 0) =~= Seq::<Value>::empty());
            assert(actuals@.subrange(0, 0) =~= Seq::<Value>::empty());
        }
    }
    let m = formals.len();
    let mut k: usize = 0;
    while k < m
        invariant
            arena.wf(),
            context.wf(),
            context.valid_in(arena@),
            a0 == old(arena)@,
            a0.is_prefix_of(a2),
            a2.is_prefix_of(arena@),
            m == formals@.len(),
            m == actuals@.len(),
            k <= m,
            fuel >= 1,
            valid_id(arena@, body),
            forall|j: int| 0 <= j < m ==> valid_id(a2, #[trigger] formals@[j]),
            forall|j: int| 0 <= j < m ==> valid_id(a2, #[trigger] actuals@[j]),
            settled == (is_terminal_within(a0, call_operator(a0, value), fuel as int - 1)
                && settled_arguments(a0, value, fuel as int - 1)),
            valid_id(a0, value),
            a0[value.slot()] is Application,
            settled ==> a2 == a0 && f == call_operator(a0, value) && a0[f.slot()] is Function
                && formals_term == function_formals(a0, f) && a0[formals_term.slot()] is Tuple
                && formals@ =~= tuple_items(a0, formals_term) && m == call_arguments(
                a0,
                value,
            ).len(),
            settled ==> forall|j: int|
                0 <= j < k ==> a0[(#[trigger] formals@[j]).slot()] is Symbol,
            settled ==> actuals@ =~= call_arguments(a0, value).map_values(
                |ca: CallArgument| ca.term,
            ),
            settled ==> valid_id(a0, function_body(a0, f)),
            settled ==> crate::subst::subst_chain(
                arena@,
                function_body(a0, f),
                formals@.subrange(0, k as int),
                actuals@.subrange(0, k as int),
                body,
            ),
        decreases m - k,
    {
        let formal = formals[k];
        proof {
            if settled {
                crate::term::lemma_prefix_index(a2, arena@, formal.slot());
            }
        }
        let symbol_ok = match arena.node(formal) {
            Node::Symbol(_) => true,
            _ => false,
        };
        if !symbol_ok {
            proof {
                lemma_prefix_trans(a0, a2, arena@);
                if settled {
                    assert(!(a0[(tuple_items(a0, function_formals(a0, call_operator(a0, value)))[
                        k as int]).slot()] is Symbol));
                }
            }
            return Err(EvalError::VariantMismatch);
        }
        let ghost a_pre = arena@;
        let ghost body_pre = body;
        body = replace(arena, body, formal, actuals[k]);
        proof {
            lemma_prefix_trans(a2, a_pre, arena@);
            lemma_valid_in_prefix(*context, a_pre, arena@);
            if settled {
                crate::subst::lemma_subst_chain_prefix(
                    a_pre,
                    arena@,
                    function_body(a0, f),
                    formals@.subrange(0, k as int),
                    actuals@.subrange(0, k as int),
                    body_pre,
                );
                crate::subst::lemma_subst_chain_snoc(
                    arena@,
                    function_body(a0, f),
                    formals@.subrange(0, k as int),
                    actuals@.subrange(0, k as int),
                    body_pre,
                    formal,
                    actuals@[k as int],
                    body,
                );
                assert(formals@.subrange(0, k as int + 1) =~= formals@.subrange(
                    0,
                    k as int,
                ).push(formals@[k as int]));
                assert(actuals@.subrange(0, k as int + 1) =~= actuals@.subrange(
                    0,
                    k as int,
                ).push(actuals@[k as int]));
            }
        }
        k = k + 1;
    }
    proof {
        lemma_prefix_trans(a0, a2, arena@);
        if settled {
            assert forall|j: int|
                0 <= j < tuple_items(a0, function_formals(a0, call_operator(a0, value))).len()
                implies a0[(#[trigger] tuple_items(
                a0,
                function_formals(a0, call_operator(a0, value)),
            )[j]).slot()] is Symbol by {
                assert(tuple_items(a0, function_formals(a0, call_operator(a0, value)))[j]
                    == formals@[j]);
            }
            assert(formals@.subrange(0, m as int) =~= formals@);
            assert(actuals@.subrange(0, m as int) =~= actuals@);
            assert(formals@ =~= tuple_items(a0, function_formals(a0, call_operator(a0, value))));
            assert(crate::subst::subst_chain(
                arena@,
                function_body(a0, call_operator(a0, value)),
                tuple_items(a0, function_formals(a0, call_operator(a0, value))),
                call_arguments(a0, value).map_values(|ca: CallArgument| ca.term),
                body,
            ));
        }
    }
    let ghost a3 = arena@;
    let held = match arena.node(body) {
        Node::Hold(q) => q.inner,
        _ => {
            return Err(EvalError::VariantMismatch);
        },
    };
    proof {
        lemma_child_valid(a3, body, 0);
    }
    let r = evaluate(context, arena, held, fuel - 1);
    proof {
        lemma_prefix_trans(a0, a3, arena@);
        if settled {
            crate::subst::lemma_subst_chain_prefix(
                a3,
                arena@,
                function_body(a0, call_operator(a0, value)),
                tuple_items(a0, function_formals(a0, call_operator(a0, value))),
                call_arguments(a0, value).map_values(|ca: CallArgument| ca.term),
                body,
            );
            crate::term::lemma_prefix_index(a3, arena@, body.slot());
        }
    }
    r
}

/// Call a native function: the intrinsic position and the evaluated
/// arguments are normalized first, then the registry dispatches.
fn run_intrinsic_call<F: Intrinsic>(
    context: &mut ExecutionContext<F>,
    arena: &mut Arena,
    value: Value,
    fuel: u64,
) -> (r: Result<Value, EvalError>)
    requires
        old(arena).wf(),
        old(arena).valid(value),
        old(context).wf(),
        old(context).valid_in(old(arena)@),
        old(arena)@[value.slot()] is IntrinsicCall,
        fuel >= 1,
    ensures
        final(arena).wf(),
        old(arena)@.is_prefix_of(final(arena)@),
        final(context).wf(),
        final(context).valid_in(final(arena)@),
        match r {
            Ok(v) => valid_id(final(arena)@, v),
            Err(_) => true,
        },
        is_terminal_within(old(arena)@, call_operator(old(arena)@, value), fuel as int - 1)
            && settled_arguments(old(arena)@, value, fuel as int - 1)
            && !old(context).intrinsics_map().dom().contains(call_operator(old(arena)@, value))
            ==> r == Err::<Value, EvalError>(EvalError::IntrinsicNotFound) && final(arena)@
            =~= old(arena)@ && *final(context) == *old(context),
    decreases fuel, 1int,
{
    let ghost a0 = arena@;
    let (intrinsic, arguments) = match arena.node(value) {
        Node::IntrinsicCall(p) => (p.intrinsic, copy_call_arguments(&p.arguments)),
        _ => vstd::pervasive::unreached(),
    };
    proof {
        lemma_child_valid(a0, value, 0);
        assert(intrinsic == call_operator(a0, value));
        assert(arguments@ =~= call_arguments(a0, value));
        assert forall|j: int| 0 <= j < arguments@.len() implies valid_id(
            a0,
            (#[trigger] arguments@[j]).term,
        ) by {
            lemma_child_valid(a0, value, j + 1);
            assert(node_children(a0[value.slot()])[j + 1] == arguments@[j].term);
        }
    }
    let i_v = match evaluate(context, arena, intrinsic, fuel - 1) {
        Ok(v) => v,
        Err(e) => {
            return Err(e);
        },
    };
    let ghost a1 = arena@;
    let actuals = match resolve_arguments(context, arena, &arguments, fuel) {
        Ok(v) => v,
        Err(e) => {
            proof {
                lemma_prefix_trans(a0, a1, arena@);
            }
            return Err(e);
        },
    };
    proof {
        lemma_prefix_trans(a0, a1, arena@);
    }
    let ghost a2 = arena@;
    let r = context.call_intrinsic(arena, i_v, actuals);
    proof {
        lemma_prefix_trans(a0, a2, arena@);
    }
    r
}

/// Normalize every structural child of a congruence variant (tuples and
/// function templates), rebuilding the node only when a child actually
/// changed; otherwise the identical term comes back.
fn congruence_children<F: Intrinsic>(
    context: &mut ExecutionContext<F>,
    arena: &mut Arena,
    value: Value,
    fuel: u64,
) -> (r: Result<Value, EvalError>)
    requires
        old(arena).wf(),
        old(arena).valid(value),
        old(context).wf(),
        old(context).valid_in(old(arena)@),
        !is_leaf(old(arena)@[value.slot()]),
        fuel >= 1,
    ensures
        final(arena).wf(),
        old(arena)@.is_prefix_of(final(arena)@),
        final(context).wf(),
        final(context).valid_in(final(arena)@),
        match r {
            Ok(v) => valid_id(final(arena)@, v),
            Err(_) => true,
        },
        (forall|j: int|
            0 <= j < node_children(old(arena)@[value.slot()]).len() ==> is_terminal_within(
                old(arena)@,
                #[trigger] node_children(old(arena)@[value.slot()])[j],
                fuel as int - 1,
            )) ==> r == Ok::<Value, EvalError>(value) && final(arena)@ =~= old(arena)@
            && *final(context) == *old(context),
    decreases fuel, 0int,
{
    let ghost a0 = arena@;
    let children = children_of(arena, value);
    let n = children.len();
    let mut out: Vec<Value> = Vec::new();
    let mut i: usize = 0;
    while i < n
        invariant
            arena.wf(),
            context.wf(),
            context.valid_in(arena@),
            a0 == old(arena)@,
            a0.is_prefix_of(arena@),
            children@ =~= node_children(a0[value.slot()]),
            n == children@.len(),
            i <= n,
            fuel >= 1,
            out@.len() == i,
            forall|j: int| 0 <= j < n ==> valid_id(a0, #[trigger] children@[j]),
            forall|j: int| 0 <= j < i ==> valid_id(arena@, #[trigger] out@[j]),
            (forall|j: int|
                0 <= j < n ==> is_terminal_within(a0, #[trigger] children@[j], fuel as int - 1))
                ==> arena@ == a0 && *context == *old(context) && out@ =~= children@.subrange(
                0,
                i as int,
            ),
        decreases n - i,
    {
        let ghost a_pre = arena@;
        let v = match evaluate(context, arena, children[i], fuel - 1) {
            Ok(v) => v,
            Err(e) => {
                proof {
                    lemma_prefix_trans(a0, a_pre, arena@);
                }
                return Err(e);
            },
        };
        proof {
            lemma_prefix_trans(a0, a_pre, arena@);
        }
        out.push(v);
        i = i + 1;
    }
    proof {
        lemma_prefix_index(a0, arena@, value.slot());
        assert(node_children(arena@[value.slot()]) == node_children(a0[value.slot()]));
        if forall|j: int|
            0 <= j < n ==> is_terminal_within(a0, #[trigger] children@[j], fuel as int - 1) {
            assert(out@ =~= node_children(arena@[value.slot()]));
        }
    }
    let ghost a_end = arena@;
    let r = with_children(arena, value, &out);
    proof {
        lemma_prefix_trans(a0, a_end, arena@);
        lemma_valid_in_prefix(*context, a_end, arena@);
    }
    Ok(r)
}

/// Resolve the per-argument evaluation policy of a call site: a held
/// argument passes through as raw syntax, an evaluated argument is driven
/// through the evaluator first.
fn resolve_arguments<F: Intrinsic>(
    context: &mut ExecutionContext<F>,
    arena: &mut Arena,
    arguments: &Vec<CallArgument>,
    fuel: u64,
) -> (r: Result<Vec<Value>, EvalError>)
    requires
        old(arena).wf(),
        old(context).wf(),
        old(context).valid_in(old(arena)@),
        forall|j: int|
            0 <= j < arguments@.len() ==> valid_id(old(arena)@, (#[trigger] arguments@[j]).term),
        fuel >= 1,
    ensures
        final(arena).wf(),
        old(arena)@.is_prefix_of(final(arena)@),
        final(context).wf(),
        final(context).valid_in(final(arena)@),
        match r {
            Ok(vs) => vs@.len() == arguments@.len() && (forall|j: int|
                0 <= j < vs@.len() ==> valid_id(final(arena)@, #[trigger] vs@[j])) && forall|
                j: int,
            |
                0 <= j < vs@.len() && (#[trigger] arguments@[j]).policy is Held ==> vs@[j]
                    == arguments@[j].term,
            Err(_) => true,
        },
        (forall|j: int|
            0 <= j < arguments@.len() ==> ((#[trigger] arguments@[j]).policy is Held
                || is_terminal_within(old(arena)@, arguments@[j].term, fuel as int - 1)))
            ==> final(arena)@ =~= old(arena)@ && *final(context) == *old(context) && match r {
            Ok(vs) => forall|j: int| 0 <= j < vs@.len() ==> #[trigger] vs@[j] == arguments@[j].term,
            Err(_) => false,
        },
    decreases fuel, 0int,
{
    let ghost a0 = arena@;
    let n = arguments.len();
    let mut out: Vec<Value> = Vec::new();
    let mut i: usize = 0;
    while i < n
        invariant
            arena.wf(),
            context.wf(),
            context.valid_in(arena@),
            a0 == old(arena)@,
            a0.is_prefix_of(arena@),
            n == arguments@.len(),
            i <= n,
            fuel >= 1,
            out@.len() == i,
            forall|j: int|
                0 <= j < n ==> valid_id(a0, (#[trigger] arguments@[j]).term),
            forall|j: int| 0 <= j < i ==> valid_id(arena@, #[trigger] out@[j]),
            forall|j: int|
                0 <= j < i && (#[trigger] arguments@[j]).policy is Held ==> out@[j]
                    == arguments@[j].term,
            (forall|j: int|
                0 <= j < n ==> ((#[trigger] arguments@[j]).policy is Held || is_terminal_within(
                    a0,
                    arguments@[j].term,
                    fuel as int - 1,
                ))) ==> arena@ == a0 && *context == *old(context) && forall|j: int|
                0 <= j < i ==> #[trigger] out@[j] == arguments@[j].term,
        decreases n - i,
    {
        let arg = arguments[i];
        let v = match arg.policy {
            ArgumentPolicy::Held => arg.term,
            ArgumentPolicy::Evaluated => {
                let ghost a_pre = arena@;
                let v = match evaluate(context, arena, arg.term, fuel - 1) {
                    Ok(v) => v,
                    Err(e) => {
                        proof {
                            lemma_prefix_trans(a0, a_pre, arena@);
                        }
                        return Err(e);
                    },
                };
                proof {
                    lemma_prefix_trans(a0, a_pre, arena@);
                }
                v
            },
        };
        out.push(v);
        i = i + 1;
    }
    Ok(out)
}

/// Drive the one-step rewrite to a fixed point: apply [`evaluate_once`]
/// until the result is identity-equal to its input. Because substitution
/// and congruence return the identical handle when nothing changed, this
/// equality check is a single slot comparison.
///
/// The contract mirrors the one-step contract on the settled fragment. On
/// a terminal term the evaluator is the identity and touches nothing, for
/// any sufficient budget; since the result is then terminal in the
/// unchanged arena, evaluating twice gives exactly what evaluating once
/// gives — evaluation is idempotent there. (For terms whose evaluation
/// runs intrinsics the corresponding general statement is not even true: a
/// native function may consult the operand stack or bindings and so answer
/// differently on a second run. For the same reason "the result is a fixed
/// point of one rewrite step" is not a spec-level statement: a step through
/// an intrinsic is effectful and need not repeat.)
pub fn evaluate<F: Intrinsic>(
    context: &mut ExecutionContext<F>,
    arena: &mut Arena,
    value: Value,
    fuel: u64,
) -> (r: Result<Value, EvalError>)
    requires
        old(arena).wf(),
        old(arena).valid(value),
        old(context).wf(),
        old(context).valid_in(old(arena)@),
    ensures
        final(arena).wf(),
        old(arena)@.is_prefix_of(final(arena)@),
        final(context).wf(),
        final(context).valid_in(final(arena)@),
        match r {
            Ok(v) => valid_id(final(arena)@, v),
            Err(_) => true,
        },
        is_terminal_within(old(arena)@, value, fuel as int) ==> r == Ok::<Value, EvalError>(
            value,
        ) && final(arena)@ =~= old(arena)@ && *final(context) == *old(context),
        fuel >= 1 && settled_assignment(old(arena)@, value, fuel as int - 1) ==> (
        if old(arena)@[assignment_target(old(arena)@, value).slot()] is Symbol {
            match r {
                Ok(res) => final(arena)@ =~= old(arena)@.push(NodeView::Null)
                    && final(context).bindings() =~= old(context).bindings().insert(
                    assignment_target(old(arena)@, value),
                    assignment_source(old(arena)@, value),
                ) && final(context).stack_view() == old(context).stack_view()
                    && final(context).intrinsics_map() == old(context).intrinsics_map()
                    && final(arena)@[res.slot()] is Null,
                Err(_) => false,
            }
        } else {
            r == Err::<Value, EvalError>(EvalError::VariantMismatch) && final(arena)@ =~= old(
                arena,
            )@ && *final(context) == *old(context)
        }),
        fuel >= 1 && settled_dereference(old(arena)@, value, fuel as int - 1) && (old(
            context,
        ).bindings().dom().contains(dereference_inner(old(arena)@, value)) ==> is_terminal_within(
            old(arena)@,
            old(context).bindings()[dereference_inner(old(arena)@, value)],
            fuel as int - 1,
        )) ==> final(arena)@ =~= old(arena)@ && *final(context) == *old(context) && (
        if old(arena)@[dereference_inner(old(arena)@, value).slot()] is Symbol {
            r == Ok::<Value, EvalError>(
                if old(context).bindings().dom().contains(dereference_inner(old(arena)@, value)) {
                    old(context).bindings()[dereference_inner(old(arena)@, value)]
                } else {
                    dereference_inner(old(arena)@, value)
                },
            )
        } else {
            r == Err::<Value, EvalError>(EvalError::VariantMismatch)
        }),
        fuel >= 1 && settled_release(old(arena)@, value, fuel as int - 1) && (old(
            arena,
        )@[release_operand(old(arena)@, value).slot()] is Hold ==> is_terminal_within(
            old(arena)@,
            release_result(old(arena)@, value),
            fuel as int - 1,
        )) ==> final(arena)@ =~= old(arena)@ && *final(context) == *old(context) && (
        if old(arena)@[release_operand(old(arena)@, value).slot()] is Hold {
            r == Ok::<Value, EvalError>(release_result(old(arena)@, value))
        } else {
            r == Err::<Value, EvalError>(EvalError::ReleaseWithoutHold)
        }),
        fuel >= 1 && empty_sequence(old(arena)@, value) ==> match r {
            Ok(res) => final(arena)@ =~= old(arena)@.push(NodeView::Null) && *final(context)
                == *old(context) && final(arena)@[res.slot()] is Null,
            Err(_) => false,
        },
        fuel >= 1 && old(arena)@[value.slot()] is Sequence && node_children(
            old(arena)@[value.slot()],
        ).len() >= 1 && (forall|j: int|
            0 <= j < node_children(old(arena)@[value.slot()]).len() ==> is_terminal_within(
                old(arena)@,
                #[trigger] node_children(old(arena)@[value.slot()])[j],
                fuel as int - 1,
            )) ==> r == Ok::<Value, EvalError>(node_children(old(arena)@[value.slot()]).last())
            && final(arena)@ =~= old(arena)@ && *final(context) == *old(context),
        fuel >= 1 && old(arena)@[value.slot()] is IntrinsicCall && is_terminal_within(
            old(arena)@,
            call_operator(old(arena)@, value),
            fuel as int - 1,
        ) && settled_arguments(old(arena)@, value, fuel as int - 1)
            && !old(context).intrinsics_map().dom().contains(call_operator(old(arena)@, value))
            ==> r == Err::<Value, EvalError>(EvalError::IntrinsicNotFound) && final(arena)@
            =~= old(arena)@ && *final(context) == *old(context),
        fuel >= 1 && old(arena)@[value.slot()] is Application && is_terminal_within(
            old(arena)@,
            call_operator(old(arena)@, value),
            fuel as int - 1,
        ) && settled_arguments(old(arena)@, value, fuel as int - 1)
            ==> settled_application_outcome(
            old(arena)@,
            value,
            r,
            final(arena)@,
            *old(context),
            *final(context),
        ),
    decreases fuel, 3int,
{
    let stepped = match evaluate_once(context, arena, value, fuel) {
        Ok(v) => v,
        Err(e) => {
            return Err(e);
        },
    };
    if stepped == value {
        return Ok(value);
    }
    if fuel == 0 {
        return Err(EvalError::OutOfFuel);
    }
    let ghost a1 = arena@;
    let r = evaluate(context, arena, stepped, fuel - 1);
    proof {
        lemma_prefix_trans(old(arena)@, a1, arena@);
        let a = old(arena)@;
        if fuel >= 1 && a[value.slot()] is Application && is_terminal_within(
            a,
            call_operator(a, value),
            fuel as int - 1,
        ) && settled_arguments(a, value, fuel as int - 1) {
            let f = call_operator(a, value);
            let ft = function_formals(a, f);
            if a[f.slot()] is Function && a[ft.slot()] is Tuple && tuple_items(a, ft).len()
                == call_arguments(a, value).len() && !(exists|j: int|
                0 <= j < tuple_items(a, ft).len() && !(a[(#[trigger] tuple_items(a, ft)[
                    j]).slot()] is Symbol)) {
                let body0 = function_body(a, f);
                let formals = tuple_items(a, ft);
                let actuals = call_arguments(a, value).map_values(|ca: CallArgument| ca.term);
                let b = choose|b: Value|
                    #[trigger] crate::subst::subst_chain(a1, body0, formals, actuals, b)
                        && valid_id(a1, b) && (!(a1[b.slot()] is Hold) ==> Ok::<
                        Value,
                        EvalError,
                    >(stepped) == Err::<Value, EvalError>(EvalError::VariantMismatch));
                crate::subst::lemma_subst_chain_prefix(a1, arena@, body0, formals, actuals, b);
                crate::term::lemma_prefix_index(a1, arena@, b.slot());
                assert(crate::subst::subst_chain(arena@, body0, formals, actuals, b)
                    && valid_id(arena@, b) && (!(arena@[b.slot()] is Hold) ==> r == Err::<
                    Value,
                    EvalError,
                >(EvalError::VariantMismatch)));
            }
        }
    }
    r
}

} // verus!
