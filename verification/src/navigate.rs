//! Generic tree navigation: decompose any term into its ordered children and
//! rebuild it with new children. This is the interface external tooling (for
//! example a visual editor) works against, and the substitution engine is
//! built on it too.

use vstd::prelude::*;

use crate::term::Arena;
use crate::term::AssignmentValueInner;
use crate::term::CallArgument;
use crate::term::DereferenceValueInner;
use crate::term::ExecutableFunctionValueInner;
use crate::term::ExecutableSequenceValueInner;
use crate::term::FunctionApplicationValueInner;
use crate::term::HoldValueInner;
use crate::term::IntrinsicCallValueInner;
use crate::term::Node;
use crate::term::NodeView;
use crate::term::ReleaseValueInner;
use crate::term::TupleValueInner;
use crate::term::Value;
use crate::subst::lemma_child_valid;
use crate::term::arena_wf;
use crate::term::copy_call_arguments;
use crate::term::copy_values;
use crate::term::is_leaf;
use crate::term::node_children;
use crate::term::same_shape;
use crate::term::valid_id;

verus! {

broadcast use crate::term::lemma_slot_nonneg;

/// The ordered children of a term, as a vector of handles. Leaves give the
/// empty vector.
pub fn children_of(arena: &Arena, value: Value) -> (r: Vec<Value>)
    requires
        arena.valid(value),
    ensures
        r@ =~= node_children(arena@[value.slot()]),
{
    match arena.node(value) {
        Node::Null(_) => Vec::new(),
        Node::Symbol(_) => Vec::new(),
        Node::Number(_) => Vec::new(),
        Node::Tuple(p) => copy_values(&p.inner),
        Node::Hold(p) => {
            let mut r: Vec<Value> = Vec::new();
            r.push(p.inner);
            r
        },
        Node::Release(p) => {
            let mut r: Vec<Value> = Vec::new();
            r.push(p.inner);
            r
        },
        Node::Sequence(p) => copy_values(&p.inner),
        Node::Assignment(p) => {
            let mut r: Vec<Value> = Vec::new();
            r.push(p.source);
            r.push(p.target);
            r
        },
        Node::Dereference(p) => {
            let mut r: Vec<Value> = Vec::new();
            r.push(p.inner);
            r
        },
        Node::Function(p) => {
            let mut r: Vec<Value> = Vec::new();
            r.push(p.arguments);
            r.push(p.body);
            r
        },
        Node::Application(p) => {
            let mut r: Vec<Value> = Vec::new();
            r.push(p.function);
            let n = p.arguments.len();
            let mut i: usize = 0;
            while i < n
                invariant
                    n == p.arguments@.len(),
                    i <= n,
                    r@ =~= seq![p.function] + p.arguments@.subrange(0, i as int).map_values(
                        |a: CallArgument| a.term,
                    ),
                decreases n - i,
            {
                r.push(p.arguments[i].term);
                proof {
                    assert(p.arguments@.subrange(0, i as int + 1) =~= p.arguments@.subrange(
                        0,
                        i as int,
                    ).push(p.arguments@[i as int]));
                }
                i = i + 1;
            }
            proof {
                assert(p.arguments@.subrange(0, n as int) =~= p.arguments@);
            }
            r
        },
        Node::IntrinsicCall(p) => {
            let mut r: Vec<Value> = Vec::new();
            r.push(p.intrinsic);
            let n = p.arguments.len();
            let mut i: usize = 0;
            while i < n
                invariant
                    n == p.arguments@.len(),
                    i <= n,
                    r@ =~= seq![p.intrinsic] + p.arguments@.subrange(0, i as int).map_values(
                        |a: CallArgument| a.term,
                    ),
                decreases n - i,
            {
                r.push(p.arguments[i].term);
                proof {
                    assert(p.arguments@.subrange(0, i as int + 1) =~= p.arguments@.subrange(
                        0,
                        i as int,
                    ).push(p.arguments@[i as int]));
                }
                i = i + 1;
            }
            proof {
                assert(p.arguments@.subrange(0, n as int) =~= p.arguments@);
            }
            r
        },
    }
}

/// Rebuild a non-leaf term around new children, preserving its variant, its
/// leaf payloads and its argument policies. When the new children are
/// identical (slot for slot) to the current ones the very same term comes
/// back and nothing is allocated, so
/// `with_children(t, children_of(t)) == t` — the identity-preserving round
/// trip external tooling relies on.
pub fn with_children(arena: &mut Arena, value: Value, new_children: &Vec<Value>) -> (r: Value)
    requires
        old(arena).wf(),
        old(arena).valid(value),
        forall|i: int|
            0 <= i < new_children@.len() ==> valid_id(old(arena)@, #[trigger] new_children@[i]),
        new_children@.len() == node_children(old(arena)@[value.slot()]).len(),
        !is_leaf(old(arena)@[value.slot()]),
    ensures
        final(arena).wf(),
        old(arena)@.is_prefix_of(final(arena)@),
        final(arena).valid(r),
        same_shape(old(arena)@[value.slot()], final(arena)@[r.slot()]),
        node_children(final(arena)@[r.slot()]) =~= new_children@,
        new_children@ =~= node_children(old(arena)@[value.slot()]) ==> r == value
            && final(arena)@ =~= old(arena)@,
{
    let current = children_of(arena, value);
    let n = current.len();
    let mut equal = true;
    let mut i: usize = 0;
    while i < n
        invariant
            n == current@.len(),
            n == new_children@.len(),
            i <= n,
            equal <==> new_children@.subrange(0, i as int) =~= current@.subrange(0, i as int),
        decreases n - i,
    {
        if new_children[i] != current[i] {
            equal = false;
            proof {
                assert(new_children@.subrange(0, i as int + 1)[i as int] != current@.subrange(
                    0,
                    i as int + 1,
                )[i as int]);
            }
        } else {
            proof {
                assert(new_children@.subrange(0, i as int + 1) =~= new_children@.subrange(
                    0,
                    i as int,
                ).push(new_children@[i as int]));
                assert(current@.subrange(0, i as int + 1) =~= current@.subrange(0, i as int).push(
                    current@[i as int],
                ));
            }
        }
        i = i + 1;
    }
    proof {
        assert(new_children@.subrange(0, n as int) =~= new_children@);
        assert(current@.subrange(0, n as int) =~= current@);
    }
    if equal {
        return value;
    }
    let ghost old_node = arena@[value.slot()];
    match arena.node(value) {
        Node::Null(_) => vstd::pervasive::unreached(),
        Node::Symbol(_) => vstd::pervasive::unreached(),
        Node::Number(_) => vstd::pervasive::unreached(),
        Node::Tuple(_) => {
            let items = copy_values(new_children);
            Value::new(arena, TupleValueInner { inner: items })
        },
        Node::Hold(_) => {
            let r = Value::new(arena, HoldValueInner { inner: new_children[0] });
            proof {
                assert(node_children(arena@[r.slot()]) =~= new_children@);
            }
            r
        },
        Node::Release(_) => {
            let r = Value::new(arena, ReleaseValueInner { inner: new_children[0] });
            proof {
                assert(node_children(arena@[r.slot()]) =~= new_children@);
            }
            r
        },
        Node::Sequence(_) => {
            let items = copy_values(new_children);
            Value::new(arena, ExecutableSequenceValueInner { inner: items })
        },
        Node::Assignment(_) => {
            let r = Value::new(
                arena,
                AssignmentValueInner { source: new_children[0], target: new_children[1] },
            );
            proof {
                assert(node_children(arena@[r.slot()]) =~= new_children@);
            }
            r
        },
        Node::Dereference(_) => {
            let r = Value::new(arena, DereferenceValueInner { inner: new_children[0] });
            proof {
                assert(node_children(arena@[r.slot()]) =~= new_children@);
            }
            r
        },
        Node::Function(_) => {
            let r = Value::new(
                arena,
                ExecutableFunctionValueInner { arguments: new_children[0], body: new_children[1] },
            );
            proof {
                assert(node_children(arena@[r.slot()]) =~= new_children@);
            }
            r
        },
        Node::Application(p) => {
            let function = new_children[0];
            let old_args = copy_call_arguments(&p.arguments);
            let m = old_args.len();
            let mut args: Vec<CallArgument> = Vec::new();
            let mut j: usize = 0;
            while j < m
                invariant
                    m == old_args@.len(),
                    m + 1 == new_children@.len(),
                    j <= m,
                    args@.len() == j,
                    forall|k: int|
                        0 <= k < j ==> (#[trigger] args@[k]).policy == old_args@[k].policy
                            && args@[k].term == new_children@[k + 1],
                decreases m - j,
            {
                args.push(
                    CallArgument { policy: old_args[j].policy, term: new_children[j + 1] },
                );
                j = j + 1;
            }
            let r = Value::new(
                arena,
                FunctionApplicationValueInner { function, arguments: args },
            );
            proof {
                assert(node_children(arena@[r.slot()]) =~= new_children@);
                assert(same_shape(old_node, arena@[r.slot()]));
            }
            r
        },
        Node::IntrinsicCall(p) => {
            let intrinsic = new_children[0];
            let old_args = copy_call_arguments(&p.arguments);
            let m = old_args.len();
            let mut args: Vec<CallArgument> = Vec::new();
            let mut j: usize = 0;
            while j < m
                invariant
                    m == old_args@.len(),
                    m + 1 == new_children@.len(),
                    j <= m,
                    args@.len() == j,
                    forall|k: int|
                        0 <= k < j ==> (#[trigger] args@[k]).policy == old_args@[k].policy
                            && args@[k].term == new_children@[k + 1],
                decreases m - j,
            {
                args.push(
                    CallArgument { policy: old_args[j].policy, term: new_children[j + 1] },
                );
                j = j + 1;
            }
            let r = Value::new(arena, IntrinsicCallValueInner { intrinsic, arguments: args });
            proof {
                assert(node_children(arena@[r.slot()]) =~= new_children@);
                assert(same_shape(old_node, arena@[r.slot()]));
            }
            r
        },
    }
}


/// The sub-term at a path of child indices, when every index is in range.
pub open spec fn spec_part_at(a: Seq<NodeView>, v: Value, path: Seq<int>) -> Option<Value>
    decreases path.len(),
{
    if path.len() == 0 {
        Some(v)
    } else {
        let cs = node_children(a[v.slot()]);
        if 0 <= path[0] < cs.len() {
            spec_part_at(a, cs[path[0]], path.drop_first())
        } else {
            None
        }
    }
}

/// Walk a path of child indices down from a term; an index out of range
/// gives nothing.
pub fn get_part(arena: &Arena, value: Value, path: &Vec<usize>) -> (r: Option<Value>)
    requires
        arena.wf(),
        arena.valid(value),
    ensures
        r == spec_part_at(arena@, value, path@.map_values(|u: usize| u as int)),
        match r {
            Some(v) => arena.valid(v),
            None => true,
        },
{
    let ghost full = path@.map_values(|u: usize| u as int);
    proof {
        assert(full.subrange(0, full.len() as int) =~= full);
    }
    let mut cur = value;
    let mut pos: usize = 0;
    let n = path.len();
    while pos < n
        invariant
            arena.wf(),
            arena.valid(cur),
            n == path@.len(),
            full == path@.map_values(|u: usize| u as int),
            pos <= n,
            spec_part_at(arena@, value, full) == spec_part_at(
                arena@,
                cur,
                full.subrange(pos as int, n as int),
            ),
        decreases n - pos,
    {
        let children = children_of(arena, cur);
        let idx = path[pos];
        proof {
            assert(full.subrange(pos as int, n as int)[0] == idx as int);
        }
        if idx >= children.len() {
            return None;
        }
        proof {
            lemma_child_valid(arena@, cur, idx as int);
            assert(full.subrange(pos as int, n as int).drop_first() =~= full.subrange(
                pos as int + 1,
                n as int,
            ));
        }
        cur = children[idx];
        pos = pos + 1;
    }
    proof {
        assert(full.subrange(n as int, n as int).len() == 0);
    }
    Some(cur)
}

/// What it means for `r` to be `v` with the sub-term at `path` replaced by
/// `repl`: along the path each node is rebuilt with the same shape and the
/// identical siblings, and at the path's end stands `repl` itself.
pub open spec fn is_part_replacement(
    a: Seq<NodeView>,
    v: Value,
    path: Seq<int>,
    repl: Value,
    r: Value,
) -> bool
    decreases path.len(),
    when arena_wf(a) && valid_id(a, v)
{
    if path.len() == 0 {
        r == repl
    } else {
        let cs = node_children(a[v.slot()]);
        &&& 0 <= path[0] < cs.len()
        &&& valid_id(a, r)
        &&& same_shape(a[v.slot()], a[r.slot()])
        &&& node_children(a[r.slot()]).len() == cs.len()
        &&& forall|k: int|
            0 <= k < cs.len() && k != path[0] ==> #[trigger] node_children(a[r.slot()])[k]
                == cs[k]
        &&& is_part_replacement(a, cs[path[0]], path.drop_first(), repl, node_children(
            a[r.slot()],
        )[path[0]])
    }
}

/// A part replacement established in an arena still holds after the arena
/// grows.
pub proof fn lemma_part_replacement_prefix(
    a1: Seq<NodeView>,
    a2: Seq<NodeView>,
    v: Value,
    path: Seq<int>,
    repl: Value,
    r: Value,
)
    requires
        arena_wf(a1),
        arena_wf(a2),
        a1.is_prefix_of(a2),
        valid_id(a1, v),
        path.len() > 0 ==> valid_id(a1, r),
        is_part_replacement(a1, v, path, repl, r),
    ensures
        is_part_replacement(a2, v, path, repl, r),
    decreases path.len(),
{
    if path.len() == 0 {
    } else {
        crate::term::lemma_prefix_index(a1, a2, v.slot());
        crate::term::lemma_prefix_index(a1, a2, r.slot());
        let cs = node_children(a1[v.slot()]);
        lemma_child_valid(a1, v, path[0]);
        let inner_r = node_children(a1[r.slot()])[path[0]];
        if path.len() > 1 {
            lemma_child_valid(a1, r, path[0]);
        }
        lemma_part_replacement_prefix(a1, a2, cs[path[0]], path.drop_first(), repl, inner_r);
    }
}

fn replace_part_from(
    arena: &mut Arena,
    value: Value,
    path: &Vec<usize>,
    pos: usize,
    replacement: Value,
) -> (r: Option<Value>)
    requires
        old(arena).wf(),
        old(arena).valid(value),
        old(arena).valid(replacement),
        pos <= path@.len(),
    ensures
        final(arena).wf(),
        old(arena)@.is_prefix_of(final(arena)@),
        match r {
            Some(rv) => final(arena).valid(rv) && is_part_replacement(
                final(arena)@,
                value,
                path@.map_values(|u: usize| u as int).subrange(pos as int, path@.len() as int),
                replacement,
                rv,
            ),
            None => final(arena)@ =~= old(arena)@,
        },
        r is Some <==> spec_part_at(
            old(arena)@,
            value,
            path@.map_values(|u: usize| u as int).subrange(pos as int, path@.len() as int),
        ) is Some,
    decreases path@.len() - pos,
{
    let ghost suffix = path@.map_values(|u: usize| u as int).subrange(
        pos as int,
        path@.len() as int,
    );
    if pos == path.len() {
        return Some(replacement);
    }
    let ghost a0 = arena@;
    let mut children = children_of(arena, value);
    let idx = path[pos];
    proof {
        assert(suffix[0] == idx as int);
    }
    if idx >= children.len() {
        return None;
    }
    let child = children[idx];
    proof {
        lemma_child_valid(a0, value, idx as int);
        assert(suffix.drop_first() =~= path@.map_values(|u: usize| u as int).subrange(
            pos as int + 1,
            path@.len() as int,
        ));
    }
    let recursed = replace_part_from(arena, child, path, pos + 1, replacement);
    proof {
        assert(spec_part_at(a0, value, suffix) == spec_part_at(a0, child, suffix.drop_first()));
    }
    match recursed {
        None => None,
        Some(new_child) => {
            let ghost a1 = arena@;
            children.set(idx, new_child);
            proof {
                assert(!is_leaf(a0[value.slot()])) by {
                    assert(node_children(a0[value.slot()]).len() > 0);
                }
                crate::term::lemma_prefix_index(a0, a1, value.slot());
                assert forall|k: int| 0 <= k < children@.len() implies valid_id(
                    arena@,
                    #[trigger] children@[k],
                ) by {
                    if k != idx as int {
                        lemma_child_valid(a0, value, k);
                    }
                }
            }
            let rv = with_children(arena, value, &children);
            proof {
                crate::term::lemma_prefix_trans(a0, a1, arena@);
                crate::term::lemma_prefix_index(a1, arena@, value.slot());
                let inner_r = node_children(arena@[rv.slot()])[idx as int];
                assert(inner_r == new_child);
                lemma_part_replacement_prefix(
                    a1,
                    arena@,
                    node_children(a0[value.slot()])[idx as int],
                    suffix.drop_first(),
                    replacement,
                    new_child,
                );
                assert(is_part_replacement(arena@, value, suffix, replacement, rv));
            }
            Some(rv)
        },
    }
}

/// Replace the sub-term at a path of child indices, rebuilding only the
/// spine above it; siblings keep their identities. The replacement is
/// produced exactly when the path leads to a part, and an index out of
/// range gives nothing and leaves the arena untouched.
pub fn replace_part(
    arena: &mut Arena,
    value: Value,
    path: &Vec<usize>,
    replacement: Value,
) -> (r: Option<Value>)
    requires
        old(arena).wf(),
        old(arena).valid(value),
        old(arena).valid(replacement),
    ensures
        final(arena).wf(),
        old(arena)@.is_prefix_of(final(arena)@),
        match r {
            Some(rv) => final(arena).valid(rv) && is_part_replacement(
                final(arena)@,
                value,
                path@.map_values(|u: usize| u as int),
                replacement,
                rv,
            ),
            None => final(arena)@ =~= old(arena)@,
        },
        r is Some <==> spec_part_at(
            old(arena)@,
            value,
            path@.map_values(|u: usize| u as int),
        ) is Some,
{
    let r = replace_part_from(arena, value, path, 0, replacement);
    proof {
        assert(path@.map_values(|u: usize| u as int).subrange(0, path@.len() as int)
            =~= path@.map_values(|u: usize| u as int));
    }
    r
}

} // verus!
