//! The substitution engine: a capture-naive, structure-sharing tree rewrite.
//! A node is rebuilt only when something below it actually changed, measured
//! by identity; untouched subtrees come back as the very same handles. That
//! short-circuit is what makes "did anything change" checks in the
//! evaluator's fixed-point loop cheap, and it is part of the contract here,
//! not an optimization.

use vstd::prelude::*;

use crate::navigate::children_of;
use crate::navigate::with_children;
use crate::term::Arena;
use crate::term::NodeView;
use crate::term::Value;
use crate::term::arena_wf;
use crate::term::is_leaf;
use crate::term::node_children;
use crate::term::same_shape;
use crate::term::valid_id;

verus! {

broadcast use crate::term::lemma_slot_nonneg;

/// Whether `x` occurs, by identity, anywhere in the tree rooted at `v`.
pub open spec fn occurs(a: Seq<NodeView>, v: Value, x: Value) -> bool
    decreases v.slot(),
    when arena_wf(a) && valid_id(a, v)
{
    v == x || exists|i: int|
        0 <= i < node_children(a[v.slot()]).len() && occurs(
            a,
            #[trigger] node_children(a[v.slot()])[i],
            x,
        )
}

/// What it means for `r` to be the result of substituting `to` for `from`
/// in `v`: the occurrence itself becomes `to`; a subtree without any
/// occurrence is handed back as the identical reference; and a subtree with
/// occurrences becomes a node of the same shape whose children are,
/// recursively, replacements.
pub open spec fn is_replacement(
    a: Seq<NodeView>,
    v: Value,
    from: Value,
    to: Value,
    r: Value,
) -> bool
    decreases v.slot(),
    when arena_wf(a) && valid_id(a, v)
{
    if v == from {
        r == to
    } else if !occurs(a, v, from) {
        r == v
    } else {
        &&& valid_id(a, r)
        &&& same_shape(a[v.slot()], a[r.slot()])
        &&& node_children(a[r.slot()]).len() == node_children(a[v.slot()]).len()
        &&& forall|i: int|
            0 <= i < node_children(a[v.slot()]).len() ==> is_replacement(
                a,
                #[trigger] node_children(a[v.slot()])[i],
                from,
                to,
                node_children(a[r.slot()])[i],
            )
    }
}

/// A child of a valid node is valid and sits at a strictly smaller slot.
pub proof fn lemma_child_valid(a: Seq<NodeView>, v: Value, i: int)
    requires
        arena_wf(a),
        valid_id(a, v),
        0 <= i < node_children(a[v.slot()]).len(),
    ensures
        valid_id(a, node_children(a[v.slot()])[i]),
        node_children(a[v.slot()])[i].slot() < v.slot(),
{
    assert(crate::term::node_wf(a[v.slot()], v.slot()));
}

/// An occurrence below a child is an occurrence below the parent.
pub proof fn lemma_occurs_child(a: Seq<NodeView>, v: Value, x: Value, i: int)
    requires
        arena_wf(a),
        valid_id(a, v),
        0 <= i < node_children(a[v.slot()]).len(),
        occurs(a, node_children(a[v.slot()])[i], x),
    ensures
        occurs(a, v, x),
{
    assert(0 <= i < node_children(a[v.slot()]).len() && occurs(
        a,
        node_children(a[v.slot()])[i],
        x,
    ));
}

/// If nothing in `v` is `x`, nothing in any child of `v` is either.
pub proof fn lemma_not_occurs_child(a: Seq<NodeView>, v: Value, x: Value, i: int)
    requires
        arena_wf(a),
        valid_id(a, v),
        !occurs(a, v, x),
        0 <= i < node_children(a[v.slot()]).len(),
    ensures
        !occurs(a, node_children(a[v.slot()])[i], x),
{
    if occurs(a, node_children(a[v.slot()])[i], x) {
        assert(occurs(a, v, x));
    }
}

/// Occurrence only looks at slots below `v`, so growing the arena does not
/// change it.
pub proof fn lemma_occurs_prefix(a1: Seq<NodeView>, a2: Seq<NodeView>, v: Value, x: Value)
    requires
        arena_wf(a1),
        arena_wf(a2),
        a1.is_prefix_of(a2),
        valid_id(a1, v),
    ensures
        occurs(a1, v, x) == occurs(a2, v, x),
    decreases v.slot(),
{
    crate::term::lemma_prefix_index(a1, a2, v.slot());
    let children = node_children(a1[v.slot()]);
    assert forall|i: int| 0 <= i < children.len() implies occurs(a1, #[trigger] children[i], x)
        == occurs(a2, children[i], x) by {
        lemma_child_valid(a1, v, i);
        lemma_occurs_prefix(a1, a2, children[i], x);
    }
    if occurs(a1, v, x) && v != x {
        let i = choose|i: int|
            0 <= i < node_children(a1[v.slot()]).len() && occurs(
                a1,
                #[trigger] node_children(a1[v.slot()])[i],
                x,
            );
        assert(occurs(a2, node_children(a2[v.slot()])[i], x));
    }
    if occurs(a2, v, x) && v != x {
        let i = choose|i: int|
            0 <= i < node_children(a2[v.slot()]).len() && occurs(
                a2,
                #[trigger] node_children(a2[v.slot()])[i],
                x,
            );
        assert(occurs(a1, node_children(a1[v.slot()])[i], x));
    }
}

/// A replacement relation established in an arena still holds after the
/// arena grows: it only reads slots that already existed.
pub proof fn lemma_replacement_prefix(
    a1: Seq<NodeView>,
    a2: Seq<NodeView>,
    v: Value,
    from: Value,
    to: Value,
    r: Value,
)
    requires
        arena_wf(a1),
        arena_wf(a2),
        a1.is_prefix_of(a2),
        valid_id(a1, v),
        valid_id(a1, r),
        is_replacement(a1, v, from, to, r),
    ensures
        is_replacement(a2, v, from, to, r),
    decreases v.slot(),
{
    lemma_occurs_prefix(a1, a2, v, from);
    crate::term::lemma_prefix_index(a1, a2, v.slot());
    if v == from {
    } else if !occurs(a1, v, from) {
    } else {
        crate::term::lemma_prefix_index(a1, a2, r.slot());
        let cv = node_children(a1[v.slot()]);
        let cr = node_children(a1[r.slot()]);
        assert forall|i: int| 0 <= i < cv.len() implies is_replacement(
            a2,
            #[trigger] cv[i],
            from,
            to,
            cr[i],
        ) by {
            lemma_child_valid(a1, v, i);
            lemma_child_valid(a1, r, i);
            lemma_replacement_prefix(a1, a2, cv[i], from, to, cr[i]);
        }
    }
}

/// Substitute `to` for every occurrence (by identity) of `from` inside
/// `value`. A subtree in which `from` does not occur is returned as the
/// identical reference, and if `from` occurs nowhere in `value` the whole
/// call returns `value` itself without allocating; substituting at the root
/// returns `to` itself.
pub fn replace(arena: &mut Arena, value: Value, from: Value, to: Value) -> (r: Value)
    requires
        old(arena).wf(),
        old(arena).valid(value),
        old(arena).valid(from),
        old(arena).valid(to),
    ensures
        final(arena).wf(),
        old(arena)@.is_prefix_of(final(arena)@),
        final(arena).valid(r),
        is_replacement(final(arena)@, value, from, to, r),
        value == from ==> r == to && final(arena)@ =~= old(arena)@,
        !occurs(old(arena)@, value, from) ==> r == value && final(arena)@ =~= old(arena)@,
    decreases value.slot(),
{
    if value == from {
        return to;
    }
    let ghost a0 = arena@;
    let children = children_of(arena, value);
    let ghost cv = node_children(a0[value.slot()]);
    let n = children.len();
    let mut out: Vec<Value> = Vec::new();
    let mut i: usize = 0;
    while i < n
        invariant
            arena.wf(),
            a0 == old(arena)@,
            a0.is_prefix_of(arena@),
            valid_id(a0, value),
            valid_id(a0, from),
            valid_id(a0, to),
            value != from,
            cv == node_children(a0[value.slot()]),
            children@ == cv,
            n == children@.len(),
            i <= n,
            out@.len() == i,
            forall|j: int| 0 <= j < i ==> valid_id(arena@, #[trigger] out@[j]),
            forall|j: int| 0 <= j < i ==> is_replacement(arena@, cv[j], from, to, #[trigger] out@[j]),
            forall|j: int| 0 <= j < i && !occurs(a0, cv[j], from) ==> #[trigger] out@[j] == cv[j],
            (forall|j: int| 0 <= j < i ==> #[trigger] out@[j] == cv[j]) || occurs(a0, value, from),
            !occurs(a0, value, from) ==> arena@ =~= a0,
        decreases n - i,
    {
        let c = children[i];
        proof {
            lemma_child_valid(a0, value, i as int);
            assert(valid_id(arena@, c));
            assert(valid_id(arena@, from));
            assert(valid_id(arena@, to));
            if !occurs(a0, value, from) {
                lemma_not_occurs_child(a0, value, from, i as int);
            }
        }
        let ghost a_pre = arena@;
        let nc = replace(arena, c, from, to);
        proof {
            assert forall|j: int| 0 <= j < i implies is_replacement(
                arena@,
                cv[j],
                from,
                to,
                #[trigger] out@[j],
            ) by {
                lemma_child_valid(a0, value, j);
                lemma_replacement_prefix(a_pre, arena@, cv[j], from, to, out@[j]);
            }
            if nc != c {
                // the child changed, so `from` occurs below it, hence below us
                assert(occurs(a_pre, c, from));
                lemma_occurs_prefix(a0, a_pre, c, from);
                lemma_occurs_child(a0, value, from, i as int);
            }
        }
        out.push(nc);
        i = i + 1;
    }
    if n == 0 {
        proof {
            assert(!occurs(a0, value, from));
        }
        return value;
    }
    proof {
        assert(!is_leaf(a0[value.slot()])) by {
            assert(node_children(a0[value.slot()]).len() > 0);
        }
        assert(node_children(arena@[value.slot()]) == cv) by {
            crate::term::lemma_prefix_index(a0, arena@, value.slot());
        }
    }
    let ghost a_mid = arena@;
    let r = with_children(arena, value, &out);
    proof {
        assert forall|j: int| 0 <= j < n implies is_replacement(
            arena@,
            cv[j],
            from,
            to,
            #[trigger] out@[j],
        ) by {
            lemma_child_valid(a0, value, j);
            lemma_replacement_prefix(a_mid, arena@, cv[j], from, to, out@[j]);
        }
        lemma_occurs_prefix(a0, arena@, value, from);
        if out@ =~= cv {
            // nothing changed: the same handle came back, no allocation
            assert(r == value);
            if occurs(arena@, value, from) {
                assert(is_replacement(arena@, value, from, to, r));
            }
        } else {
            // some child changed, so an occurrence exists and a rebuilt
            // node of the same shape was allocated
            let j = choose|j: int| 0 <= j < n && out@[j] != cv[j];
            assert(occurs(a0, cv[j], from));
            lemma_occurs_child(a0, value, from, j);
            assert(occurs(arena@, value, from));
            assert(node_children(arena@[r.slot()]) =~= out@);
            assert(is_replacement(arena@, value, from, to, r));
        }
    }
    r
}


/// The result of a replacement is itself a usable handle.
pub proof fn lemma_replacement_valid(a: Seq<NodeView>, v: Value, from: Value, to: Value, r: Value)
    requires
        arena_wf(a),
        valid_id(a, v),
        valid_id(a, to),
        is_replacement(a, v, from, to, r),
    ensures
        valid_id(a, r),
{
    if v == from {
    } else if !occurs(a, v, from) {
    } else {
    }
}

/// The left-to-right chain of single substitutions an application performs:
/// substitute the first formal, then chain the rest through the
/// intermediate result.
pub open spec fn subst_chain(
    a: Seq<NodeView>,
    body: Value,
    formals: Seq<Value>,
    actuals: Seq<Value>,
    result: Value,
) -> bool
    decreases formals.len(),
{
    if formals.len() == 0 {
        result == body
    } else {
        exists|mid: Value|
            #[trigger] is_replacement(a, body, formals[0], actuals[0], mid) && subst_chain(
                a,
                mid,
                formals.drop_first(),
                actuals.drop_first(),
                result,
            )
    }
}

/// A substitution chain survives growing the arena.
pub proof fn lemma_subst_chain_prefix(
    a1: Seq<NodeView>,
    a2: Seq<NodeView>,
    body: Value,
    formals: Seq<Value>,
    actuals: Seq<Value>,
    result: Value,
)
    requires
        arena_wf(a1),
        arena_wf(a2),
        a1.is_prefix_of(a2),
        valid_id(a1, body),
        forall|j: int| 0 <= j < formals.len() ==> valid_id(a1, #[trigger] formals[j]),
        forall|j: int| 0 <= j < actuals.len() ==> valid_id(a1, #[trigger] actuals[j]),
        formals.len() == actuals.len(),
        subst_chain(a1, body, formals, actuals, result),
    ensures
        subst_chain(a2, body, formals, actuals, result),
    decreases formals.len(),
{
    if formals.len() == 0 {
    } else {
        let mid = choose|mid: Value|
            #[trigger] is_replacement(a1, body, formals[0], actuals[0], mid) && subst_chain(
                a1,
                mid,
                formals.drop_first(),
                actuals.drop_first(),
                result,
            );
        lemma_replacement_valid(a1, body, formals[0], actuals[0], mid);
        lemma_replacement_prefix(a1, a2, body, formals[0], actuals[0], mid);
        lemma_subst_chain_prefix(
            a1,
            a2,
            mid,
            formals.drop_first(),
            actuals.drop_first(),
            result,
        );
        assert(is_replacement(a2, body, formals[0], actuals[0], mid) && subst_chain(
            a2,
            mid,
            formals.drop_first(),
            actuals.drop_first(),
            result,
        ));
    }
}

/// Performing one more substitution extends a chain at its end.
pub proof fn lemma_subst_chain_snoc(
    a: Seq<NodeView>,
    body: Value,
    formals: Seq<Value>,
    actuals: Seq<Value>,
    mid: Value,
    from: Value,
    to: Value,
    r: Value,
)
    requires
        formals.len() == actuals.len(),
        subst_chain(a, body, formals, actuals, mid),
        is_replacement(a, mid, from, to, r),
    ensures
        subst_chain(a, body, formals.push(from), actuals.push(to), r),
    decreases formals.len(),
{
    if formals.len() == 0 {
        assert(formals.push(from).drop_first() =~= formals);
        assert(actuals.push(to).drop_first() =~= actuals);
        assert(is_replacement(a, body, formals.push(from)[0], actuals.push(to)[0], r)
            && subst_chain(
            a,
            r,
            formals.push(from).drop_first(),
            actuals.push(to).drop_first(),
            r,
        ));
    } else {
        let mid1 = choose|mid1: Value|
            #[trigger] is_replacement(a, body, formals[0], actuals[0], mid1) && subst_chain(
                a,
                mid1,
                formals.drop_first(),
                actuals.drop_first(),
                mid,
            );
        lemma_subst_chain_snoc(
            a,
            mid1,
            formals.drop_first(),
            actuals.drop_first(),
            mid,
            from,
            to,
            r,
        );
        assert(formals.push(from).drop_first() =~= formals.drop_first().push(from));
        assert(actuals.push(to).drop_first() =~= actuals.drop_first().push(to));
        assert(is_replacement(a, body, formals.push(from)[0], actuals.push(to)[0], mid1)
            && subst_chain(
            a,
            mid1,
            formals.push(from).drop_first(),
            actuals.push(to).drop_first(),
            r,
        ));
    }
}

} // verus!
