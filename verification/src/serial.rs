//! The graph serializer: a breadth-first snapshot of a term graph as flat,
//! by-reference records, and its inverse. Flat records (child slots stored
//! as external identifiers, never inlined) are what lets a graph with
//! shared sub-terms round-trip without duplicating them, and what lets a
//! malformed or cyclic snapshot be rejected instead of diverging.
//!
//! The storage assigns every term a stable external identifier the first
//! time it is discovered and remembers the association in both directions,
//! so a term serialized twice keeps its identifier and a snapshot read back
//! through the same storage resolves known identifiers to the very terms
//! they came from.

use vstd::prelude::*;

use vstd::relations::injective;
use vstd::set_lib::lemma_len_subset;
use vstd::set_lib::lemma_int_range;
use vstd::set_lib::set_int_range;

use crate::context::distinct_keys;
use crate::navigate::children_of;
use crate::subst::lemma_child_valid;
use crate::term::Arena;
use crate::term::ArgumentPolicy;
use crate::term::AssignmentValueInner;
use crate::term::CallArgument;
use crate::term::DereferenceValueInner;
use crate::term::ExecutableFunctionValueInner;
use crate::term::ExecutableSequenceValueInner;
use crate::term::FloatingPointNumberValueInner;
use crate::term::FunctionApplicationValueInner;
use crate::term::HoldValueInner;
use crate::term::IntrinsicCallValueInner;
use crate::term::Node;
use crate::term::NodeView;
use crate::term::NullValueInner;
use crate::term::ReleaseValueInner;
use crate::term::SymbolValueInner;
use crate::term::TupleValueInner;
use crate::term::Value;
use crate::term::copy_call_arguments;
use crate::term::arena_wf;
use crate::term::lemma_slot_injective;
use crate::term::node_children;
use crate::term::same_shape;
use crate::term::valid_id;

verus! {

broadcast use
    crate::term::lemma_slot_nonneg,
    vstd::map_lib::lemma_submap_of_trans;

/// Why reading or writing a snapshot aborted. As with evaluation errors,
/// these are fatal: the snapshot is rejected whole, never half-applied.
#[derive(Clone, Copy, PartialEq, Eq, Structural, Debug)]
pub enum SnapshotError {
    /// A record references an identifier that no record carries and that
    /// the storage does not know either.
    MissingRecord,
    /// The records reachable from the root reference each other in a
    /// cycle, so no tree of terms can materialize them.
    CyclicReference,
    /// An identifier in the snapshot does not fit the identifier space.
    InvalidId,
    /// The storage has no identifiers left to assign.
    IdSpaceExhausted,
}

/// One serialized call-site argument: the policy tag together with the
/// external identifier of the argument term.
#[derive(Clone, Copy, PartialEq, Eq, Structural, Debug)]
pub struct RecordArgument {
    pub policy: ArgumentPolicy,
    pub id: u64,
}

/// The serialized form of one node: the variant tag, its leaf payload, and
/// every child as an external identifier.
#[derive(Debug)]
pub enum RecordBody {
    Null,
    Symbol { name: String },
    Number { bits: u64 },
    Tuple { items: Vec<u64> },
    Hold { inner: u64 },
    Release { inner: u64 },
    Sequence { items: Vec<u64> },
    Assignment { source: u64, target: u64 },
    Dereference { inner: u64 },
    Function { arguments: u64, body: u64 },
    Application { function: u64, arguments: Vec<RecordArgument> },
    IntrinsicCall { intrinsic: u64, arguments: Vec<RecordArgument> },
}

/// One flat record: the node's own identifier and its serialized body.
#[derive(Debug)]
pub struct Record {
    pub id: u64,
    pub body: RecordBody,
}

/// A whole snapshot: the root's identifier and one record per reachable
/// node, in discovery order (the root's record first).
#[derive(Debug)]
pub struct Snapshot {
    pub id: u64,
    pub values: Vec<Record>,
}

/// The child identifiers a record body references, in the same order as
/// `node_children` lists the node's children.
pub open spec fn body_child_ids(b: RecordBody) -> Seq<u64> {
    match b {
        RecordBody::Null => Seq::empty(),
        RecordBody::Symbol { .. } => Seq::empty(),
        RecordBody::Number { .. } => Seq::empty(),
        RecordBody::Tuple { items } => items@,
        RecordBody::Hold { inner } => seq![inner],
        RecordBody::Release { inner } => seq![inner],
        RecordBody::Sequence { items } => items@,
        RecordBody::Assignment { source, target } => seq![source, target],
        RecordBody::Dereference { inner } => seq![inner],
        RecordBody::Function { arguments, body } => seq![arguments, body],
        RecordBody::Application { function, arguments } => seq![function] + arguments@.map_values(
            |ra: RecordArgument| ra.id,
        ),
        RecordBody::IntrinsicCall { intrinsic, arguments } => seq![intrinsic]
            + arguments@.map_values(|ra: RecordArgument| ra.id),
    }
}

/// The record body carries the same variant tag, leaf payload and argument
/// policies as the node, with one child reference per child.
pub open spec fn body_same_shape(n: NodeView, b: RecordBody) -> bool {
    body_child_ids(b).len() == node_children(n).len() && match (n, b) {
        (NodeView::Null, RecordBody::Null) => true,
        (NodeView::Symbol { name }, RecordBody::Symbol { name: s }) => s@ == name,
        (NodeView::Number { bits }, RecordBody::Number { bits: b2 }) => b2 == bits,
        (NodeView::Tuple { .. }, RecordBody::Tuple { .. }) => true,
        (NodeView::Hold { .. }, RecordBody::Hold { .. }) => true,
        (NodeView::Release { .. }, RecordBody::Release { .. }) => true,
        (NodeView::Sequence { .. }, RecordBody::Sequence { .. }) => true,
        (NodeView::Assignment { .. }, RecordBody::Assignment { .. }) => true,
        (NodeView::Dereference { .. }, RecordBody::Dereference { .. }) => true,
        (NodeView::Function { .. }, RecordBody::Function { .. }) => true,
        (
            NodeView::Application { arguments: xs, .. },
            RecordBody::Application { arguments: ys, .. },
        ) => xs.len() == ys@.len() && forall|i: int|
            0 <= i < xs.len() ==> (#[trigger] xs[i]).policy == (#[trigger] ys@[i]).policy,
        (
            NodeView::IntrinsicCall { arguments: xs, .. },
            RecordBody::IntrinsicCall { arguments: ys, .. },
        ) => xs.len() == ys@.len() && forall|i: int|
            0 <= i < xs.len() ==> (#[trigger] xs[i]).policy == (#[trigger] ys@[i]).policy,
        _ => false,
    }
}

/// The record body is the faithful image of the node under the identifier
/// assignment `m`: same shape, and each child slot holds exactly the
/// identifier `m` gives that child term.
pub open spec fn record_represents(n: NodeView, b: RecordBody, m: Map<Value, u64>) -> bool {
    &&& body_same_shape(n, b)
    &&& forall|i: int|
        0 <= i < node_children(n).len() ==> m.dom().contains(#[trigger] node_children(n)[i])
            && body_child_ids(b)[i] == m[node_children(n)[i]]
}

/// Representation only reads the identifiers of the node's own children,
/// so extending the assignment with new terms preserves it.
pub proof fn lemma_represents_submap(
    n: NodeView,
    b: RecordBody,
    m1: Map<Value, u64>,
    m2: Map<Value, u64>,
)
    requires
        record_represents(n, b, m1),
        m1.submap_of(m2),
    ensures
        record_represents(n, b, m2),
{
}

/// A sequence of pairwise-distinct handles that are all valid in an arena
/// cannot outnumber the arena's slots.
pub proof fn lemma_distinct_valid_bound(vs: Seq<Value>, a: Seq<NodeView>)
    requires
        vs.no_duplicates(),
        forall|i: int| 0 <= i < vs.len() ==> valid_id(a, #[trigger] vs[i]),
    ensures
        vs.len() <= a.len(),
{
    let f = |v: Value| v.slot();
    assert(injective(f)) by {
        assert forall|x: Value, y: Value| #[trigger] f(x) == #[trigger] f(y) implies x == y by {
            lemma_slot_injective(x, y);
        }
    }
    vs.lemma_no_duplicates_injective(f);
    let slots = vs.map_values(f);
    slots.unique_seq_to_set();
    assert(slots.to_set().subset_of(set_int_range(0, a.len() as int))) by {
        assert forall|s: int| slots.to_set().contains(s) implies set_int_range(
            0,
            a.len() as int,
        ).contains(s) by {
            let i = choose|i: int| 0 <= i < slots.len() && slots[i] == s;
            assert(slots[i] == f(vs[i]));
        }
    }
    lemma_int_range(0, a.len() as int);
    lemma_len_subset(slots.to_set(), set_int_range(0, a.len() as int));
}

/// The inverse association an identifier-keyed pair sequence denotes.
pub open spec fn rev_assoc_map(s: Seq<(Value, u64)>) -> Map<u64, Value>
    decreases s.len(),
{
    if s.len() == 0 {
        Map::empty()
    } else {
        rev_assoc_map(s.drop_last()).insert(s.last().1, s.last().0)
    }
}

/// An identifier is in the inverse map exactly when some entry carries it.
pub proof fn lemma_rev_assoc_dom(s: Seq<(Value, u64)>, id: u64)
    ensures
        rev_assoc_map(s).dom().contains(id) <==> exists|i: int|
            0 <= i < s.len() && (#[trigger] s[i]).1 == id,
    decreases s.len(),
{
    if s.len() == 0 {
    } else {
        lemma_rev_assoc_dom(s.drop_last(), id);
        if s.last().1 == id {
            assert(s[s.len() - 1].1 == id);
        }
        if exists|i: int| 0 <= i < s.len() && (#[trigger] s[i]).1 == id {
            let i = choose|i: int| 0 <= i < s.len() && (#[trigger] s[i]).1 == id;
            if i < s.len() - 1 {
                assert(s.drop_last()[i].1 == id);
            }
        }
    }
}

/// With unique identifiers, the entry at any index is what the inverse map
/// stores for its identifier.
pub proof fn lemma_rev_assoc_get(s: Seq<(Value, u64)>, i: int)
    requires
        distinct_ids(s),
        0 <= i < s.len(),
    ensures
        rev_assoc_map(s).dom().contains(s[i].1),
        rev_assoc_map(s)[s[i].1] == s[i].0,
    decreases s.len(),
{
    if i == s.len() - 1 {
    } else {
        assert(distinct_ids(s.drop_last())) by {
            assert(forall|x: int, y: int|
                0 <= x < y < s.drop_last().len() ==> (#[trigger] s.drop_last()[x]).1 != (
                #[trigger] s.drop_last()[y]).1);
        }
        lemma_rev_assoc_get(s.drop_last(), i);
        assert(s.drop_last()[i] == s[i]);
        assert(s.last().1 != s[i].1);
    }
}

/// Appending a new entry inserts its identifier into the inverse map.
pub proof fn lemma_rev_assoc_push(s: Seq<(Value, u64)>, k: Value, id: u64)
    ensures
        rev_assoc_map(s.push((k, id))) =~= rev_assoc_map(s).insert(id, k),
{
    assert(s.push((k, id)).drop_last() =~= s);
}

/// No external identifier occurs twice among the entries.
pub open spec fn distinct_ids(s: Seq<(Value, u64)>) -> bool {
    forall|i: int, j: int| 0 <= i < j < s.len() ==> (#[trigger] s[i]).1 != (#[trigger] s[j]).1
}

/// The persistent identifier assignment: which term carries which external
/// identifier, in both directions, plus the next identifier to hand out.
pub struct SerializationStorage {
    entries: Vec<(Value, u64)>,
    next: u64,
}

impl SerializationStorage {
    /// Terms to their external identifiers.
    pub closed spec fn ids(self) -> Map<Value, u64> {
        crate::context::assoc_map(self.entries@)
    }

    /// External identifiers back to their terms.
    pub closed spec fn terms(self) -> Map<u64, Value> {
        rev_assoc_map(self.entries@)
    }

    /// How many associations the storage holds.
    pub closed spec fn size(self) -> int {
        self.entries@.len() as int
    }

    /// The next identifier that would be assigned; every stored identifier
    /// is below it.
    pub closed spec fn next_id(self) -> int {
        self.next as int
    }

    /// Terms and identifiers each appear at most once, and every stored
    /// identifier is below `next`.
    pub closed spec fn wf(self) -> bool {
        &&& distinct_keys(self.entries@)
        &&& distinct_ids(self.entries@)
        &&& forall|i: int| 0 <= i < self.entries@.len() ==> (#[trigger] self.entries@[i]).1 < self.next
    }

    /// Every stored term names a slot of the arena `a`.
    pub closed spec fn valid_in(self, a: Seq<NodeView>) -> bool {
        forall|i: int| 0 <= i < self.entries@.len() ==> valid_id(a, (#[trigger] self.entries@[i]).0)
    }

    /// An empty storage: nothing known, identifiers start at zero.
    pub fn new() -> (s: SerializationStorage)
        ensures
            s.wf(),
            s.ids() =~= Map::<Value, u64>::empty(),
            s.terms() =~= Map::<u64, Value>::empty(),
            s.size() == 0,
            s.next_id() == 0,
            forall|a: Seq<NodeView>| #[trigger] s.valid_in(a),
    {
        SerializationStorage { entries: Vec::new(), next: 0 }
    }

    /// The next identifier that would be handed out.
    fn next_free(&self) -> (r: u64)
        ensures
            r as int == self.next_id(),
    {
        self.next
    }

    /// Look an external identifier up in the stored associations.
    pub fn find_term(&self, id: u64) -> (r: Option<Value>)
        requires
            self.wf(),
        ensures
            match r {
                Some(v) => self.terms().dom().contains(id) && v == self.terms()[id],
                None => !self.terms().dom().contains(id),
            },
    {
        let n = self.entries.len();
        let mut i: usize = 0;
        while i < n
            invariant
                self.wf(),
                n == self.entries@.len(),
                i <= n,
                forall|j: int| 0 <= j < i ==> (#[trigger] self.entries@[j]).1 != id,
            decreases n - i,
        {
            if self.entries[i].1 == id {
                proof {
                    lemma_rev_assoc_get(self.entries@, i as int);
                }
                return Some(self.entries[i].0);
            }
            i = i + 1;
        }
        proof {
            lemma_rev_assoc_dom(self.entries@, id);
        }
        None
    }

    /// A term the storage does not even have a slot for cannot be stored.
    pub proof fn lemma_unknown_term(self, a: Seq<NodeView>, t: Value)
        requires
            self.valid_in(a),
            !valid_id(a, t),
        ensures
            !self.ids().dom().contains(t),
    {
        crate::context::lemma_assoc_dom(self.entries@, t);
    }

    /// Record that `term` carries the externally chosen identifier `id`,
    /// as when reading a snapshot back; the counter jumps past `id`.
    fn register(&mut self, term: Value, id: u64, Ghost(a): Ghost<Seq<NodeView>>)
        requires
            old(self).wf(),
            old(self).valid_in(a),
            valid_id(a, term),
            !old(self).ids().dom().contains(term),
            !old(self).terms().dom().contains(id),
            id < u64::MAX,
        ensures
            final(self).wf(),
            final(self).valid_in(a),
            final(self).ids() =~= old(self).ids().insert(term, id),
            final(self).terms() =~= old(self).terms().insert(id, term),
            old(self).ids().submap_of(final(self).ids()),
            old(self).terms().submap_of(final(self).terms()),
    {
        proof {
            crate::context::lemma_assoc_dom(self.entries@, term);
            lemma_rev_assoc_dom(self.entries@, id);
        }
        if id >= self.next {
            self.next = id + 1;
        }
        let ghost s0 = self.entries@;
        self.entries.push((term, id));
        proof {
            crate::context::lemma_assoc_push(s0, term, id);
            lemma_rev_assoc_push(s0, term, id);
            assert(self.entries@ =~= s0.push((term, id)));
            assert(distinct_keys(self.entries@)) by {
                assert(forall|j: int| 0 <= j < s0.len() ==> (#[trigger] s0[j]).0 != term);
            }
            assert(distinct_ids(self.entries@)) by {
                assert(forall|j: int| 0 <= j < s0.len() ==> (#[trigger] s0[j]).1 != id);
            }
        }
    }

    /// A stored term is valid wherever the storage is.
    pub proof fn lemma_term_value_valid(self, a: Seq<NodeView>, id: u64)
        requires
            self.wf(),
            self.valid_in(a),
            self.terms().dom().contains(id),
        ensures
            valid_id(a, self.terms()[id]),
    {
        lemma_rev_assoc_dom(self.entries@, id);
        let i = choose|i: int|
            0 <= i < self.entries@.len() && (#[trigger] self.entries@[i]).1 == id;
        lemma_rev_assoc_get(self.entries@, i);
    }

    /// Storage validity only mentions slots the arena already has, so
    /// growing the arena preserves it.
    pub proof fn lemma_valid_prefix(self, a1: Seq<NodeView>, a2: Seq<NodeView>)
        requires
            self.valid_in(a1),
            a1.is_prefix_of(a2),
        ensures
            self.valid_in(a2),
    {
    }

    /// The storage cannot hold more associations than the arena has slots.
    pub proof fn lemma_size_bound(self, a: Seq<NodeView>)
        requires
            self.wf(),
            self.valid_in(a),
        ensures
            self.size() <= a.len(),
    {
        let keys = self.entries@.map_values(|e: (Value, u64)| e.0);
        assert(keys.no_duplicates()) by {
            assert(forall|x: int, y: int| 0 <= x < y < keys.len() ==> keys[x] != keys[y]);
        }
        assert(forall|j: int| 0 <= j < keys.len() ==> valid_id(a, #[trigger] keys[j]));
        lemma_distinct_valid_bound(keys, a);
    }

    /// Every assigned identifier lies below the counter.
    pub proof fn lemma_id_bound(self, t: Value)
        requires
            self.wf(),
            self.ids().dom().contains(t),
        ensures
            self.ids()[t] < self.next_id(),
    {
        crate::context::lemma_assoc_dom(self.entries@, t);
        let i = choose|i: int| 0 <= i < self.entries@.len() && (#[trigger] self.entries@[i]).0 == t;
        crate::context::lemma_assoc_get(self.entries@, i);
    }

    /// The two directions are mutually inverse on whatever is stored.
    pub proof fn lemma_inverse(self, t: Value)
        requires
            self.wf(),
            self.ids().dom().contains(t),
        ensures
            self.terms().dom().contains(self.ids()[t]),
            self.terms()[self.ids()[t]] == t,
    {
        crate::context::lemma_assoc_dom(self.entries@, t);
        let i = choose|i: int| 0 <= i < self.entries@.len() && (#[trigger] self.entries@[i]).0 == t;
        crate::context::lemma_assoc_get(self.entries@, i);
        lemma_rev_assoc_get(self.entries@, i);
    }

    /// Identifiers are assigned injectively.
    pub proof fn lemma_ids_injective(self, t1: Value, t2: Value)
        requires
            self.wf(),
            self.ids().dom().contains(t1),
            self.ids().dom().contains(t2),
            self.ids()[t1] == self.ids()[t2],
        ensures
            t1 == t2,
    {
        self.lemma_inverse(t1);
        self.lemma_inverse(t2);
    }

    /// Look the term up; if it is new, burn the next identifier for it and
    /// remember the association both ways.
    fn get_or_assign(&mut self, term: Value, Ghost(a): Ghost<Seq<NodeView>>) -> (r: u64)
        requires
            old(self).wf(),
            old(self).valid_in(a),
            valid_id(a, term),
            old(self).next_id() + a.len() - old(self).size() <= u64::MAX,
        ensures
            final(self).wf(),
            final(self).valid_in(a),
            final(self).next_id() - final(self).size() == old(self).next_id() - old(self).size(),
            final(self).ids().dom().contains(term),
            r == final(self).ids()[term],
            old(self).ids().submap_of(final(self).ids()),
            old(self).terms().submap_of(final(self).terms()),
            if old(self).ids().dom().contains(term) {
                r == old(self).ids()[term] && *final(self) == *old(self)
            } else {
                r == old(self).next_id() && final(self).ids() =~= old(self).ids().insert(term, r)
                    && final(self).terms() =~= old(self).terms().insert(r, term)
                    && final(self).next_id() == old(self).next_id() + 1
                    && final(self).size() == old(self).size() + 1
                    && !old(self).terms().dom().contains(r)
            },
    {
        let n = self.entries.len();
        let mut i: usize = 0;
        while i < n
            invariant
                *self == *old(self),
                self.wf(),
                self.valid_in(a),
                n == self.entries@.len(),
                i <= n,
                forall|j: int| 0 <= j < i ==> (#[trigger] self.entries@[j]).0 != term,
            decreases n - i,
        {
            if self.entries[i].0 == term {
                proof {
                    crate::context::lemma_assoc_get(self.entries@, i as int);
                    lemma_rev_assoc_get(self.entries@, i as int);
                }
                return self.entries[i].1;
            }
            i = i + 1;
        }
        proof {
            crate::context::lemma_assoc_dom(self.entries@, term);
            // the term is new, so the entry keys together with it are
            // distinct valid handles: there is room below the arena bound
            let keys = self.entries@.map_values(|e: (Value, u64)| e.0).push(term);
            assert(keys.no_duplicates()) by {
                assert(forall|x: int, y: int|
                    0 <= x < y < keys.len() ==> keys[x] != keys[y]);
            }
            assert(forall|j: int| 0 <= j < keys.len() ==> valid_id(a, #[trigger] keys[j]));
            lemma_distinct_valid_bound(keys, a);
            assert(self.entries@.len() + 1 <= a.len());
        }
        let id = self.next;
        let ghost s0 = self.entries@;
        self.next = self.next + 1;
        self.entries.push((term, id));
        proof {
            crate::context::lemma_assoc_push(s0, term, id);
            lemma_rev_assoc_push(s0, term, id);
            lemma_rev_assoc_dom(s0, id);
            assert(self.entries@ =~= s0.push((term, id)));
            assert(distinct_keys(self.entries@)) by {
                assert(forall|j: int| 0 <= j < s0.len() ==> (#[trigger] s0[j]).0 != term);
            }
            assert(distinct_ids(self.entries@)) by {
                assert(forall|j: int| 0 <= j < s0.len() ==> (#[trigger] s0[j]).1 < id);
            }
        }
        id
    }
}


/// Copy a vector of identifiers element by element.
fn copy_u64s(v: &Vec<u64>) -> (r: Vec<u64>)
    ensures
        r@ =~= v@,
{
    let mut r: Vec<u64> = Vec::new();
    let mut i: usize = 0;
    while i < v.len()
        invariant
            i <= v.len(),
            r@ =~= v@.subrange(0, i as int),
        decreases v.len() - i,
    {
        r.push(v[i]);
        i = i + 1;
    }
    r
}

/// Serialize one node as a flat record body, given the external
/// identifiers of its children in order.
fn record_body(arena: &Arena, value: Value, child_ids: &Vec<u64>) -> (b: RecordBody)
    requires
        arena.valid(value),
        child_ids@.len() == node_children(arena@[value.slot()]).len(),
    ensures
        body_same_shape(arena@[value.slot()], b),
        body_child_ids(b) =~= child_ids@,
{
    match arena.node(value) {
        Node::Null(_) => RecordBody::Null,
        Node::Symbol(p) => RecordBody::Symbol { name: p.name.clone() },
        Node::Number(p) => RecordBody::Number { bits: p.bits },
        Node::Tuple(_) => RecordBody::Tuple { items: copy_u64s(child_ids) },
        Node::Hold(_) => RecordBody::Hold { inner: child_ids[0] },
        Node::Release(_) => RecordBody::Release { inner: child_ids[0] },
        Node::Sequence(_) => RecordBody::Sequence { items: copy_u64s(child_ids) },
        Node::Assignment(_) => RecordBody::Assignment {
            source: child_ids[0],
            target: child_ids[1],
        },
        Node::Dereference(_) => RecordBody::Dereference { inner: child_ids[0] },
        Node::Function(_) => RecordBody::Function {
            arguments: child_ids[0],
            body: child_ids[1],
        },
        Node::Application(p) => {
            let args = copy_call_arguments(&p.arguments);
            let m = args.len();
            let mut ras: Vec<RecordArgument> = Vec::new();
            let mut j: usize = 0;
            while j < m
                invariant
                    m == args@.len(),
                    m + 1 == child_ids@.len(),
                    j <= m,
                    ras@.len() == j,
                    forall|k: int|
                        0 <= k < j ==> (#[trigger] ras@[k]).policy == args@[k].policy
                            && ras@[k].id == child_ids@[k + 1],
                decreases m - j,
            {
                ras.push(RecordArgument { policy: args[j].policy, id: child_ids[j + 1] });
                j = j + 1;
            }
            let b = RecordBody::Application { function: child_ids[0], arguments: ras };
            proof {
                assert(body_child_ids(b) =~= child_ids@);
            }
            b
        },
        Node::IntrinsicCall(p) => {
            let args = copy_call_arguments(&p.arguments);
            let m = args.len();
            let mut ras: Vec<RecordArgument> = Vec::new();
            let mut j: usize = 0;
            while j < m
                invariant
                    m == args@.len(),
                    m + 1 == child_ids@.len(),
                    j <= m,
                    ras@.len() == j,
                    forall|k: int|
                        0 <= k < j ==> (#[trigger] ras@[k]).policy == args@[k].policy
                            && ras@[k].id == child_ids@[k + 1],
                decreases m - j,
            {
                ras.push(RecordArgument { policy: args[j].policy, id: child_ids[j + 1] });
                j = j + 1;
            }
            let b = RecordBody::IntrinsicCall { intrinsic: child_ids[0], arguments: ras };
            proof {
                assert(body_child_ids(b) =~= child_ids@);
            }
            b
        },
    }
}

/// The term `t` lies in the graph reachable from `root` through child
/// references.
pub open spec fn reachable(a: Seq<NodeView>, root: Value, t: Value) -> bool
    decreases root.slot(),
    when arena_wf(a) && valid_id(a, root)
{
    t == root || exists|i: int|
        0 <= i < node_children(a[root.slot()]).len() && reachable(
            a,
            #[trigger] node_children(a[root.slot()])[i],
            t,
        )
}

/// Reachability extends through one more child reference.
pub proof fn lemma_reachable_step(a: Seq<NodeView>, root: Value, t: Value, k: int)
    requires
        crate::term::arena_wf(a),
        valid_id(a, root),
        valid_id(a, t),
        reachable(a, root, t),
        0 <= k < node_children(a[t.slot()]).len(),
    ensures
        reachable(a, root, node_children(a[t.slot()])[k]),
    decreases root.slot(),
{
    let c = node_children(a[t.slot()])[k];
    if t == root {
        lemma_child_valid(a, t, k);
        assert(reachable(a, c, c));
        assert(0 <= k < node_children(a[root.slot()]).len() && reachable(
            a,
            node_children(a[root.slot()])[k],
            c,
        ));
    } else {
        let j = choose|j: int|
            0 <= j < node_children(a[root.slot()]).len() && reachable(
                a,
                #[trigger] node_children(a[root.slot()])[j],
                t,
            );
        lemma_child_valid(a, root, j);
        lemma_reachable_step(a, node_children(a[root.slot()])[j], t, k);
    }
}

/// Snapshot the graph reachable from `input_value`: a breadth-first walk
/// visits every reachable term exactly once, assigns it an external
/// identifier the first time it is discovered (reusing identifiers the
/// storage already knows), and emits one flat record per term in discovery
/// order, the root's record first. Every identifier a record references has
/// a record of its own in the snapshot, identifiers are unique and below
/// the final counter, every record's term is reachable from the root, and
/// through the storage's two maps each record is the faithful image of its
/// term. The counter advances by at most one identifier per arena slot, so
/// the only failure — running out of identifiers — cannot happen while
/// that much room is left.
pub fn serialize(storage: &mut SerializationStorage, arena: &Arena, input_value: Value) -> (r:
    Result<Snapshot, SnapshotError>)
    requires
        arena.wf(),
        arena.valid(input_value),
        old(storage).wf(),
        old(storage).valid_in(arena@),
    ensures
        final(storage).wf(),
        final(storage).valid_in(arena@),
        old(storage).ids().submap_of(final(storage).ids()),
        old(storage).terms().submap_of(final(storage).terms()),
        final(storage).next_id() <= old(storage).next_id() + arena@.len(),
        match r {
            Ok(snap) => {
                &&& forall|i: int|
                    0 <= i < snap.values@.len() ==> (#[trigger] snap.values@[i]).id
                        < final(storage).next_id()
                &&& final(storage).ids().dom().contains(input_value)
                &&& snap.id == final(storage).ids()[input_value]
                &&& snap.values@.len() >= 1
                &&& snap.values@[0].id == snap.id
                &&& forall|i: int, j: int|
                    0 <= i < j < snap.values@.len() ==> (#[trigger] snap.values@[i]).id != (
                    #[trigger] snap.values@[j]).id
                &&& forall|i: int|
                    0 <= i < snap.values@.len() ==> final(storage).terms().dom().contains(
                        (#[trigger] snap.values@[i]).id,
                    ) && valid_id(arena@, final(storage).terms()[snap.values@[i].id])
                        && record_represents(
                        arena@[final(storage).terms()[snap.values@[i].id].slot()],
                        snap.values@[i].body,
                        final(storage).ids(),
                    )
                &&& forall|i: int|
                    0 <= i < snap.values@.len() ==> reachable(
                        arena@,
                        input_value,
                        final(storage).terms()[(#[trigger] snap.values@[i]).id],
                    )
                &&& forall|i: int, k: int|
                    0 <= i < snap.values@.len() && 0 <= k < body_child_ids(
                        snap.values@[i].body,
                    ).len() ==> exists|j: int|
                        0 <= j < snap.values@.len() && (#[trigger] snap.values@[j]).id == #[trigger] body_child_ids(
                            snap.values@[i].body,
                        )[k]
            },
            Err(e) => e == SnapshotError::IdSpaceExhausted && old(storage).next_id()
                + arena@.len() > u64::MAX && *final(storage) == *old(storage),
        },
        old(storage).next_id() + arena@.len() <= u64::MAX ==> r is Ok,
{
    let ghost a = arena@;
    if arena.len() as u64 > u64::MAX - storage.next_free() {
        return Err(SnapshotError::IdSpaceExhausted);
    }
    let mut visited: Vec<bool> = Vec::new();
    let mut vi: usize = 0;
    let alen = arena.len();
    while vi < alen
        invariant
            vi <= alen,
            visited@.len() == vi,
            forall|s: int| 0 <= s < vi ==> !(#[trigger] visited@[s]),
        decreases alen - vi,
    {
        visited.push(false);
        vi = vi + 1;
    }
    let mut queue: Vec<Value> = Vec::new();
    let mut records: Vec<Record> = Vec::new();
    let mut head: usize = 0;
    visited.set(input_value.index(), true);
    queue.push(input_value);
    let root_id = storage.get_or_assign(input_value, Ghost(a));
    proof {
        assert(reachable(a, input_value, input_value));
        assert forall|s: int| 0 <= s < a.len() && visited@[s] implies exists|q: int|
            0 <= q < queue@.len() && (#[trigger] queue@[q]).slot() == s by {
            assert(s == input_value.slot());
            assert(queue@[0].slot() == s);
        }
    }
    while head < queue.len()
        invariant
            arena.wf(),
            a == arena@,
            valid_id(a, input_value),
            storage.wf(),
            storage.valid_in(a),
            storage.next_id() + a.len() - storage.size() <= u64::MAX,
            storage.next_id() - storage.size() == old(storage).next_id() - old(storage).size(),
            old(storage).ids().submap_of(storage.ids()),
            old(storage).terms().submap_of(storage.terms()),
            visited@.len() == a.len(),
            head <= queue@.len(),
            queue@.len() >= 1,
            queue@[0] == input_value,
            queue@.no_duplicates(),
            forall|j: int| 0 <= j < queue@.len() ==> valid_id(a, #[trigger] queue@[j]),
            forall|j: int| 0 <= j < queue@.len() ==> reachable(a, input_value, #[trigger] queue@[j]),
            forall|j: int| 0 <= j < queue@.len() ==> visited@[(#[trigger] queue@[j]).slot()],
            forall|s: int|
                0 <= s < a.len() && visited@[s] ==> exists|q: int|
                    0 <= q < queue@.len() && (#[trigger] queue@[q]).slot() == s,
            forall|j: int|
                0 <= j < queue@.len() ==> storage.ids().dom().contains(#[trigger] queue@[j]),
            root_id == storage.ids()[input_value],
            records@.len() == head,
            forall|j: int|
                0 <= j < head ==> (#[trigger] records@[j]).id == storage.ids()[queue@[j]],
            forall|j: int|
                0 <= j < head ==> record_represents(
                    a[(#[trigger] queue@[j]).slot()],
                    records@[j].body,
                    storage.ids(),
                ),
            forall|j: int, k: int|
                0 <= j < head && 0 <= k < node_children(a[queue@[j].slot()]).len() ==> exists|
                    q: int,
                |
                    0 <= q < queue@.len() && queue@[q] == #[trigger] node_children(
                        a[queue@[j].slot()],
                    )[k],
        decreases a.len() - head,
    {
        proof {
            lemma_distinct_valid_bound(queue@, a);
        }
        let current = queue[head];
        let children = children_of(arena, current);
        let n = children.len();
        let mut cids: Vec<u64> = Vec::new();
        let mut ci: usize = 0;
        let ghost ids_outer = storage.ids();
        while ci < n
            invariant
                arena.wf(),
                a == arena@,
                valid_id(a, current),
                children@ =~= node_children(a[current.slot()]),
                n == children@.len(),
                ci <= n,
                storage.wf(),
                storage.valid_in(a),
                storage.next_id() + a.len() - storage.size() <= u64::MAX,
                storage.next_id() - storage.size() == old(storage).next_id() - old(storage).size(),
                old(storage).ids().submap_of(storage.ids()),
                old(storage).terms().submap_of(storage.terms()),
                ids_outer.submap_of(storage.ids()),
                visited@.len() == a.len(),
                queue@.len() >= 1,
                queue@[0] == input_value,
                head < queue@.len(),
                queue@[head as int] == current,
                queue@.no_duplicates(),
                forall|j: int| 0 <= j < queue@.len() ==> valid_id(a, #[trigger] queue@[j]),
                forall|j: int|
                    0 <= j < queue@.len() ==> reachable(a, input_value, #[trigger] queue@[j]),
                forall|j: int| 0 <= j < queue@.len() ==> visited@[(#[trigger] queue@[j]).slot()],
                forall|s: int|
                    0 <= s < a.len() && visited@[s] ==> exists|q: int|
                        0 <= q < queue@.len() && (#[trigger] queue@[q]).slot() == s,
                forall|j: int|
                    0 <= j < queue@.len() ==> storage.ids().dom().contains(#[trigger] queue@[j]),
                cids@.len() == ci,
                forall|k: int|
                    0 <= k < ci ==> storage.ids().dom().contains(#[trigger] children@[k])
                        && cids@[k] == storage.ids()[children@[k]],
                forall|k: int|
                    0 <= k < ci ==> exists|q: int|
                        0 <= q < queue@.len() && queue@[q] == #[trigger] children@[k],
                records@.len() == head,
                forall|j: int|
                    0 <= j < head ==> ids_outer.dom().contains(#[trigger] queue@[j])
                        && records@[j].id == ids_outer[queue@[j]],
                forall|j: int|
                    0 <= j < head ==> record_represents(
                        a[(#[trigger] queue@[j]).slot()],
                        records@[j].body,
                        ids_outer,
                    ),
                forall|j: int, k: int|
                    0 <= j < head && 0 <= k < node_children(a[queue@[j].slot()]).len() ==> exists|
                        q: int,
                    |
                        0 <= q < queue@.len() && queue@[q] == #[trigger] node_children(
                            a[queue@[j].slot()],
                        )[k],
            decreases n - ci,
        {
            let c = children[ci];
            proof {
                lemma_child_valid(a, current, ci as int);
            }
            let ghost ids_pre = storage.ids();
            let id = storage.get_or_assign(c, Ghost(a));
            cids.push(id);
            if !visited[c.index()] {
                let ghost visited_old = visited@;
                let ghost queue_old = queue@;
                visited.set(c.index(), true);
                queue.push(c);
                proof {
                    assert(queue@ =~= queue_old.push(c));
                    assert(queue@[queue@.len() - 1] == c);
                    assert(queue@[queue@.len() - 1] == children@[ci as int]);
                    lemma_reachable_step(a, input_value, current, ci as int);
                    assert(queue@.no_duplicates()) by {
                        assert forall|q: int| 0 <= q < queue_old.len() implies queue_old[q]
                            != c by {
                            if queue_old[q] == c {
                                assert(visited_old[c.slot()]);
                            }
                        }
                    }
                    assert forall|s: int|
                        0 <= s < a.len() && visited@[s] implies exists|q: int|
                        0 <= q < queue@.len() && (#[trigger] queue@[q]).slot() == s by {
                        if s == c.slot() {
                            assert(queue@[queue@.len() - 1].slot() == s);
                        } else {
                            assert(visited_old[s]);
                            let q0 = choose|q: int|
                                0 <= q < queue_old.len() && (#[trigger] queue_old[q]).slot() == s;
                            assert(queue@[q0].slot() == s);
                        }
                    }
                    assert forall|k: int| 0 <= k < ci implies exists|q: int|
                        0 <= q < queue@.len() && queue@[q] == #[trigger] children@[k] by {
                        let q0 = choose|q: int|
                            0 <= q < queue_old.len() && queue_old[q] == #[trigger] children@[k];
                        assert(queue@[q0] == children@[k]);
                    }
                    assert forall|j: int, k: int|
                        0 <= j < head && 0 <= k < node_children(a[queue@[j].slot()]).len() implies
                        exists|q: int|
                            0 <= q < queue@.len() && queue@[q] == #[trigger] node_children(
                                a[queue@[j].slot()],
                            )[k] by {
                        assert(queue@[j] == queue_old[j]);
                        let q0 = choose|q: int|
                            0 <= q < queue_old.len() && queue_old[q] == #[trigger] node_children(
                                a[queue_old[j].slot()],
                            )[k];
                        assert(queue@[q0] == node_children(a[queue@[j].slot()])[k]);
                    }
                }
            } else {
                proof {
                    let q0 = choose|q: int|
                        0 <= q < queue@.len() && (#[trigger] queue@[q]).slot() == c.slot();
                    lemma_slot_injective(queue@[q0], c);
                    assert(queue@[q0] == children@[ci as int]);
                }
            }
            ci = ci + 1;
        }
        let body = record_body(arena, current, &cids);
        let ghost ids_after_children = storage.ids();
        let rid = storage.get_or_assign(current, Ghost(a));
        records.push(Record { id: rid, body });
        proof {
            assert(ids_outer.submap_of(ids_after_children));
            assert(ids_after_children.submap_of(storage.ids()));
            assert(ids_outer.submap_of(storage.ids()));
            assert(record_represents(a[current.slot()], body, ids_after_children)) by {
                assert(node_children(a[current.slot()]) =~= children@);
                assert(body_child_ids(body) =~= cids@);
            }
            assert forall|j: int| 0 <= j < head + 1 implies (#[trigger] records@[j]).id
                == storage.ids()[queue@[j]] by {
                if j < head {
                    assert(ids_outer.dom().contains(queue@[j]));
                }
            }
            assert forall|j: int| 0 <= j < head + 1 implies record_represents(
                a[(#[trigger] queue@[j]).slot()],
                records@[j].body,
                storage.ids(),
            ) by {
                if j < head {
                    lemma_represents_submap(
                        a[queue@[j].slot()],
                        records@[j].body,
                        ids_outer,
                        storage.ids(),
                    );
                } else {
                    assert(records@[j].body == body);
                    lemma_represents_submap(a[current.slot()], body, ids_after_children, storage.ids());
                }
            }
        }
        head = head + 1;
    }
    proof {
        storage.lemma_size_bound(a);
        assert forall|i: int| 0 <= i < records@.len() implies (#[trigger] records@[i]).id
            < storage.next_id() by {
            storage.lemma_id_bound(queue@[i]);
        }
        assert(records@[0].id == storage.ids()[input_value]);
        assert forall|i: int, j: int| 0 <= i < j < records@.len() implies (
        #[trigger] records@[i]).id != (#[trigger] records@[j]).id by {
            if records@[i].id == records@[j].id {
                storage.lemma_ids_injective(queue@[i], queue@[j]);
            }
        }
        assert forall|i: int|
            0 <= i < records@.len() implies reachable(
            a,
            input_value,
            storage.terms()[(#[trigger] records@[i]).id],
        ) by {
            storage.lemma_inverse(queue@[i]);
        }
        assert forall|i: int|
            0 <= i < records@.len() implies storage.terms().dom().contains(
            (#[trigger] records@[i]).id,
        ) && valid_id(a, storage.terms()[records@[i].id]) && record_represents(
            a[storage.terms()[records@[i].id].slot()],
            records@[i].body,
            storage.ids(),
        ) by {
            storage.lemma_inverse(queue@[i]);
        }
        assert forall|i: int, k: int|
            0 <= i < records@.len() && 0 <= k < body_child_ids(records@[i].body).len() implies
            exists|j: int|
                0 <= j < records@.len() && (#[trigger] records@[j]).id == #[trigger] body_child_ids(
                    records@[i].body,
                )[k] by {
            let child = node_children(a[queue@[i].slot()])[k];
            let q = choose|q: int| 0 <= q < queue@.len() && #[trigger] queue@[q] == child;
            assert(records@[q].id == body_child_ids(records@[i].body)[k]);
        }
    }
    Ok(Snapshot { id: root_id, values: records })
}


/// A term the deserializer produced is the faithful image of a record
/// under the resolution map `res`: same shape, and each child slot holds
/// exactly the term `res` gives the recorded child identifier.
pub open spec fn record_realized(
    a: Seq<NodeView>,
    t: Value,
    b: RecordBody,
    res: Map<u64, Value>,
) -> bool {
    &&& valid_id(a, t)
    &&& body_same_shape(a[t.slot()], b)
    &&& forall|i: int|
        0 <= i < body_child_ids(b).len() ==> res.dom().contains(#[trigger] body_child_ids(b)[i])
            && node_children(a[t.slot()])[i] == res[body_child_ids(b)[i]]
}

/// Realization survives growing the arena and the resolution map.
pub proof fn lemma_realized_mono(
    a1: Seq<NodeView>,
    a2: Seq<NodeView>,
    t: Value,
    b: RecordBody,
    r1: Map<u64, Value>,
    r2: Map<u64, Value>,
)
    requires
        record_realized(a1, t, b, r1),
        a1.is_prefix_of(a2),
        r1.submap_of(r2),
    ensures
        record_realized(a2, t, b, r2),
{
    crate::term::lemma_prefix_index(a1, a2, t.slot());
}

/// How many entries of a flag vector are set.
pub open spec fn count_true(s: Seq<bool>) -> int
    decreases s.len(),
{
    if s.len() == 0 {
        0
    } else {
        count_true(s.drop_last()) + if s.last() {
            1int
        } else {
            0int
        }
    }
}

/// Setting a clear flag raises the count by one.
pub proof fn lemma_count_true_update(s: Seq<bool>, i: int)
    requires
        0 <= i < s.len(),
        !s[i],
    ensures
        count_true(s.update(i, true)) == count_true(s) + 1,
    decreases s.len(),
{
    let t = s.update(i, true);
    if i == s.len() - 1 {
        assert(t.drop_last() =~= s.drop_last());
    } else {
        lemma_count_true_update(s.drop_last(), i);
        assert(t.drop_last() =~= s.drop_last().update(i, true));
        assert(t.last() == s.last());
    }
}

/// The count never exceeds the length.
pub proof fn lemma_count_true_bound(s: Seq<bool>)
    ensures
        0 <= count_true(s) <= s.len(),
    decreases s.len(),
{
    if s.len() > 0 {
        lemma_count_true_bound(s.drop_last());
    }
}

/// The child identifiers of a record body, as a vector.
fn body_children_exec(body: &RecordBody) -> (r: Vec<u64>)
    ensures
        r@ =~= body_child_ids(*body),
{
    match body {
        RecordBody::Null => Vec::new(),
        RecordBody::Symbol { .. } => Vec::new(),
        RecordBody::Number { .. } => Vec::new(),
        RecordBody::Tuple { items } => copy_u64s(items),
        RecordBody::Hold { inner } => {
            let mut r: Vec<u64> = Vec::new();
            r.push(*inner);
            r
        },
        RecordBody::Release { inner } => {
            let mut r: Vec<u64> = Vec::new();
            r.push(*inner);
            r
        },
        RecordBody::Sequence { items } => copy_u64s(items),
        RecordBody::Assignment { source, target } => {
            let mut r: Vec<u64> = Vec::new();
            r.push(*source);
            r.push(*target);
            r
        },
        RecordBody::Dereference { inner } => {
            let mut r: Vec<u64> = Vec::new();
            r.push(*inner);
            r
        },
        RecordBody::Function { arguments, body: b } => {
            let mut r: Vec<u64> = Vec::new();
            r.push(*arguments);
            r.push(*b);
            r
        },
        RecordBody::Application { function, arguments } => {
            let mut r: Vec<u64> = Vec::new();
            r.push(*function);
            let n = arguments.len();
            let mut i: usize = 0;
            while i < n
                invariant
                    n == arguments@.len(),
                    i <= n,
                    r@ =~= seq![*function] + arguments@.subrange(0, i as int).map_values(
                        |ra: RecordArgument| ra.id,
                    ),
                decreases n - i,
            {
                r.push(arguments[i].id);
                proof {
                    assert(arguments@.subrange(0, i as int + 1) =~= arguments@.subrange(
                        0,
                        i as int,
                    ).push(arguments@[i as int]));
                }
                i = i + 1;
            }
            proof {
                assert(arguments@.subrange(0, n as int) =~= arguments@);
            }
            r
        },
        RecordBody::IntrinsicCall { intrinsic, arguments } => {
            let mut r: Vec<u64> = Vec::new();
            r.push(*intrinsic);
            let n = arguments.len();
            let mut i: usize = 0;
            while i < n
                invariant
                    n == arguments@.len(),
                    i <= n,
                    r@ =~= seq![*intrinsic] + arguments@.subrange(0, i as int).map_values(
                        |ra: RecordArgument| ra.id,
                    ),
                decreases n - i,
            {
                r.push(arguments[i].id);
                proof {
                    assert(arguments@.subrange(0, i as int + 1) =~= arguments@.subrange(
                        0,
                        i as int,
                    ).push(arguments@[i as int]));
                }
                i = i + 1;
            }
            proof {
                assert(arguments@.subrange(0, n as int) =~= arguments@);
            }
            r
        },
    }
}

/// Materialize one record as a fresh node whose children are the given
/// already-materialized terms, in recorded order.
fn build_from_body(arena: &mut Arena, body: &RecordBody, children: &Vec<Value>) -> (v: Value)
    requires
        old(arena).wf(),
        forall|i: int|
            0 <= i < children@.len() ==> valid_id(old(arena)@, #[trigger] children@[i]),
        children@.len() == body_child_ids(*body).len(),
    ensures
        final(arena).wf(),
        old(arena)@.is_prefix_of(final(arena)@),
        final(arena).valid(v),
        !old(arena).valid(v),
        body_same_shape(final(arena)@[v.slot()], *body),
        node_children(final(arena)@[v.slot()]) =~= children@,
{
    match body {
        RecordBody::Null => Value::new(arena, NullValueInner),
        RecordBody::Symbol { name } => Value::new(arena, SymbolValueInner { name: name.clone() }),
        RecordBody::Number { bits } => Value::new(
            arena,
            FloatingPointNumberValueInner { bits: *bits },
        ),
        RecordBody::Tuple { .. } => {
            let items = crate::term::copy_values(children);
            Value::new(arena, TupleValueInner { inner: items })
        },
        RecordBody::Hold { .. } => {
            let v = Value::new(arena, HoldValueInner { inner: children[0] });
            proof {
                assert(node_children(arena@[v.slot()]) =~= children@);
            }
            v
        },
        RecordBody::Release { .. } => {
            let v = Value::new(arena, ReleaseValueInner { inner: children[0] });
            proof {
                assert(node_children(arena@[v.slot()]) =~= children@);
            }
            v
        },
        RecordBody::Sequence { .. } => {
            let items = crate::term::copy_values(children);
            Value::new(arena, ExecutableSequenceValueInner { inner: items })
        },
        RecordBody::Assignment { .. } => {
            let v = Value::new(
                arena,
                AssignmentValueInner { source: children[0], target: children[1] },
            );
            proof {
                assert(node_children(arena@[v.slot()]) =~= children@);
            }
            v
        },
        RecordBody::Dereference { .. } => {
            let v = Value::new(arena, DereferenceValueInner { inner: children[0] });
            proof {
                assert(node_children(arena@[v.slot()]) =~= children@);
            }
            v
        },
        RecordBody::Function { .. } => {
            let v = Value::new(
                arena,
                ExecutableFunctionValueInner { arguments: children[0], body: children[1] },
            );
            proof {
                assert(node_children(arena@[v.slot()]) =~= children@);
            }
            v
        },
        RecordBody::Application { arguments, .. } => {
            let function = children[0];
            let m = arguments.len();
            let mut args: Vec<CallArgument> = Vec::new();
            let mut j: usize = 0;
            while j < m
                invariant
                    m == arguments@.len(),
                    m + 1 == children@.len(),
                    j <= m,
                    args@.len() == j,
                    forall|k: int|
                        0 <= k < j ==> (#[trigger] args@[k]).policy == arguments@[k].policy
                            && args@[k].term == children@[k + 1],
                decreases m - j,
            {
                args.push(CallArgument { policy: arguments[j].policy, term: children[j + 1] });
                j = j + 1;
            }
            let v = Value::new(arena, FunctionApplicationValueInner { function, arguments: args });
            proof {
                assert(node_children(arena@[v.slot()]) =~= children@);
                assert(body_same_shape(arena@[v.slot()], *body));
            }
            v
        },
        RecordBody::IntrinsicCall { arguments, .. } => {
            let intrinsic = children[0];
            let m = arguments.len();
            let mut args: Vec<CallArgument> = Vec::new();
            let mut j: usize = 0;
            while j < m
                invariant
                    m == arguments@.len(),
                    m + 1 == children@.len(),
                    j <= m,
                    args@.len() == j,
                    forall|k: int|
                        0 <= k < j ==> (#[trigger] args@[k]).policy == arguments@[k].policy
                            && args@[k].term == children@[k + 1],
                decreases m - j,
            {
                args.push(CallArgument { policy: arguments[j].policy, term: children[j + 1] });
                j = j + 1;
            }
            let v = Value::new(arena, IntrinsicCallValueInner { intrinsic, arguments: args });
            proof {
                assert(node_children(arena@[v.slot()]) =~= children@);
                assert(body_same_shape(arena@[v.slot()], *body));
            }
            v
        },
    }
}

/// Whether any record of the snapshot carries the identifier.
fn has_record(snapshot: &Snapshot, id: u64) -> (r: bool)
    ensures
        r == exists|j: int|
            0 <= j < snapshot.values@.len() && (#[trigger] snapshot.values@[j]).id == id,
{
    let n = snapshot.values.len();
    let mut i: usize = 0;
    while i < n
        invariant
            n == snapshot.values@.len(),
            i <= n,
            forall|j: int| 0 <= j < i ==> (#[trigger] snapshot.values@[j]).id != id,
        decreases n - i,
    {
        if snapshot.values[i].id == id {
            return true;
        }
        i = i + 1;
    }
    false
}


/// Some record of the sequence carries the identifier.
pub open spec fn id_in_records(values: Seq<Record>, id: u64) -> bool {
    exists|j: int| 0 <= j < values.len() && (#[trigger] values[j]).id == id
}

/// The identifier is the root or appears as a child reference of some
/// record.
pub open spec fn id_referenced(values: Seq<Record>, root: u64, id: u64) -> bool {
    id == root || exists|j: int, k: int|
        0 <= j < values.len() && 0 <= k < body_child_ids(values[j].body).len()
            && #[trigger] body_child_ids(values[j].body)[k] == id
}

/// An identifier can be materialized within a nesting budget: either the
/// storage already knows it, or some record carries it and every child
/// reference is itself materializable one level down. This is exactly
/// "every reference reaches a record or a stored term, with no cycle".
pub open spec fn resolvable(values: Seq<Record>, known: Map<u64, Value>, id: u64, d: nat) -> bool
    decreases d,
{
    known.dom().contains(id) || (d > 0 && exists|j: int|
        0 <= j < values.len() && (#[trigger] values[j]).id == id && forall|k: int|
            0 <= k < body_child_ids(values[j].body).len() ==> resolvable(
                values,
                known,
                #[trigger] body_child_ids(values[j].body)[k],
                (d - 1) as nat,
            ))
}

/// An identifier with neither a record nor a stored term is not
/// materializable at any budget.
pub proof fn lemma_unresolvable(values: Seq<Record>, known: Map<u64, Value>, id: u64, d: nat)
    requires
        !id_in_records(values, id),
        !known.dom().contains(id),
    ensures
        !resolvable(values, known, id, d),
{
    if resolvable(values, known, id, d) {
        let j = choose|j: int|
            0 <= j < values.len() && (#[trigger] values[j]).id == id && forall|k: int|
                0 <= k < body_child_ids(values[j].body).len() ==> resolvable(
                    values,
                    known,
                    #[trigger] body_child_ids(values[j].body)[k],
                    (d - 1) as nat,
                );
        assert(id_in_records(values, id));
    }
}

/// At a stalled fixpoint — every unrealized record has some unrealized
/// child reference — everything materializable is already realized.
pub proof fn lemma_stall_realizes(
    values: Seq<Record>,
    known: Map<u64, Value>,
    terms: Map<u64, Value>,
    id: u64,
    d: nat,
)
    requires
        known.submap_of(terms),
        forall|j: int|
            0 <= j < values.len() && !terms.dom().contains((#[trigger] values[j]).id) ==> exists|
                k: int,
            |
                0 <= k < body_child_ids(values[j].body).len() && !terms.dom().contains(
                    #[trigger] body_child_ids(values[j].body)[k],
                ),
        resolvable(values, known, id, d),
    ensures
        terms.dom().contains(id),
    decreases d,
{
    if known.dom().contains(id) {
    } else {
        let j = choose|j: int|
            0 <= j < values.len() && (#[trigger] values[j]).id == id && forall|k: int|
                0 <= k < body_child_ids(values[j].body).len() ==> resolvable(
                    values,
                    known,
                    #[trigger] body_child_ids(values[j].body)[k],
                    (d - 1) as nat,
                );
        assert forall|k: int| 0 <= k < body_child_ids(values[j].body).len() implies terms.dom(
        ).contains(#[trigger] body_child_ids(values[j].body)[k]) by {
            lemma_stall_realizes(values, known, terms, body_child_ids(values[j].body)[k], (d
                - 1) as nat);
        }
        if !terms.dom().contains(id) {
            assert(!terms.dom().contains(values[j].id));
        }
    }
}

/// A well-formed, fully materializable snapshot relative to what the
/// storage already knows: identifiers fit the identifier space, records
/// carry unique identifiers, and the root and every recorded identifier
/// can be materialized — every reference reaches a record or a stored
/// term with no cycle among the unknown records.
pub open spec fn snapshot_resolvable(
    values: Seq<Record>,
    root: u64,
    known: Map<u64, Value>,
) -> bool {
    &&& forall|j: int| 0 <= j < values.len() ==> (#[trigger] values[j]).id < u64::MAX
    &&& forall|x: int, y: int|
        0 <= x < y < values.len() ==> (#[trigger] values[x]).id != (#[trigger] values[y]).id
    &&& forall|id: u64|
        #![trigger id_in_records(values, id)]
        (id == root || id_in_records(values, id)) ==> exists|d: nat|
            #[trigger] resolvable(values, known, id, d)
}

/// Rebuild terms from a snapshot. Identifiers the storage already knows
/// resolve to the very terms they were assigned to, so reading a snapshot
/// back through the storage that wrote it returns the original terms; in
/// particular a known root comes back at once, untouched. Unknown records
/// are materialized once each, children first, sharing preserved: every
/// identifier maps to one term no matter how many records reference it.
/// The snapshot is rejected whole when an identifier does not fit the
/// identifier space, when a referenced identifier has neither a record nor
/// a stored term, or when the unknown records reference one another in a
/// cycle and so can never all be materialized; conversely, success is owed
/// whenever the snapshot is materializable (see [`snapshot_resolvable`]).
pub fn deserialize(
    storage: &mut SerializationStorage,
    arena: &mut Arena,
    snapshot: &Snapshot,
) -> (r: Result<Value, SnapshotError>)
    requires
        old(arena).wf(),
        old(storage).wf(),
        old(storage).valid_in(old(arena)@),
    ensures
        final(arena).wf(),
        old(arena)@.is_prefix_of(final(arena)@),
        final(storage).wf(),
        final(storage).valid_in(final(arena)@),
        old(storage).ids().submap_of(final(storage).ids()),
        old(storage).terms().submap_of(final(storage).terms()),
        forall|id: u64|
            #[trigger] final(storage).terms().dom().contains(id)
                && !old(storage).terms().dom().contains(id) ==> exists|j: int|
                0 <= j < snapshot.values@.len() && (#[trigger] snapshot.values@[j]).id == id
                    && record_realized(
                    final(arena)@,
                    final(storage).terms()[id],
                    snapshot.values@[j].body,
                    final(storage).terms(),
                ),
        match r {
            Ok(v) => final(storage).terms().dom().contains(snapshot.id)
                && v == final(storage).terms()[snapshot.id] && valid_id(final(arena)@, v),
            Err(e) => e == SnapshotError::MissingRecord || e == SnapshotError::CyclicReference
                || e == SnapshotError::InvalidId,
        },
        old(storage).terms().dom().contains(snapshot.id) ==> r == Ok::<Value, SnapshotError>(
            old(storage).terms()[snapshot.id],
        ) && final(arena)@ =~= old(arena)@ && *final(storage) == *old(storage),
        r == Err::<Value, SnapshotError>(SnapshotError::InvalidId) ==> exists|j: int|
            0 <= j < snapshot.values@.len() && (#[trigger] snapshot.values@[j]).id == u64::MAX,
        r == Err::<Value, SnapshotError>(SnapshotError::MissingRecord) ==> exists|id: u64|
            #[trigger] id_referenced(snapshot.values@, snapshot.id, id) && !id_in_records(
                snapshot.values@,
                id,
            ) && !final(storage).terms().dom().contains(id),
        snapshot_resolvable(snapshot.values@, snapshot.id, old(storage).terms()) ==> r is Ok,
        snapshot_resolvable(snapshot.values@, snapshot.id, old(storage).terms())
            && !old(storage).terms().dom().contains(snapshot.id) ==> forall|j: int|
            0 <= j < snapshot.values@.len() ==> final(storage).terms().dom().contains(
                (#[trigger] snapshot.values@[j]).id,
            ),
{
    let ghost a_start = arena@;
    match storage.find_term(snapshot.id) {
        Some(v) => {
            proof {
                storage.lemma_term_value_valid(arena@, snapshot.id);
            }
            return Ok(v);
        },
        None => {},
    }
    let n = snapshot.values.len();
    let mut scan: usize = 0;
    while scan < n
        invariant
            arena.wf(),
            storage.wf(),
            storage.valid_in(arena@),
            arena@ == old(arena)@,
            *storage == *old(storage),
            !old(storage).terms().dom().contains(snapshot.id),
            n == snapshot.values@.len(),
            scan <= n,
            forall|j: int| 0 <= j < scan ==> (#[trigger] snapshot.values@[j]).id < u64::MAX,
        decreases n - scan,
    {
        if snapshot.values[scan].id == u64::MAX {
            return Err(SnapshotError::InvalidId);
        }
        scan = scan + 1;
    }
    let mut built: Vec<bool> = Vec::new();
    let mut bi: usize = 0;
    while bi < n
        invariant
            bi <= n,
            built@.len() == bi,
            forall|j: int| 0 <= j < bi ==> !(#[trigger] built@[j]),
        decreases n - bi,
    {
        built.push(false);
        bi = bi + 1;
    }
    proof {
        assert(count_true(built@) == 0) by {
            lemma_count_all_false(built@);
        }
    }
    let mut built_count: usize = 0;
    let mut again: usize = 1;
    while again == 1
        invariant
            arena.wf(),
            storage.wf(),
            storage.valid_in(arena@),
            a_start == old(arena)@,
            a_start.is_prefix_of(arena@),
            old(storage).ids().submap_of(storage.ids()),
            old(storage).terms().submap_of(storage.terms()),
            !old(storage).terms().dom().contains(snapshot.id),
            n == snapshot.values@.len(),
            forall|j: int| 0 <= j < n ==> (#[trigger] snapshot.values@[j]).id < u64::MAX,
            built@.len() == n,
            built_count as int == count_true(built@),
            built_count <= n,
            forall|j: int|
                0 <= j < n && built@[j] ==> storage.terms().dom().contains(
                    (#[trigger] snapshot.values@[j]).id,
                ),
            forall|id: u64|
                #[trigger] storage.terms().dom().contains(id)
                    && !old(storage).terms().dom().contains(id) ==> exists|j: int|
                    0 <= j < n && (#[trigger] snapshot.values@[j]).id == id && record_realized(
                        arena@,
                        storage.terms()[id],
                        snapshot.values@[j].body,
                        storage.terms(),
                    ),
            again <= 1,
            again == 0 ==> forall|j: int|
                0 <= j < n && !storage.terms().dom().contains(
                    (#[trigger] snapshot.values@[j]).id,
                ) ==> exists|k: int|
                    0 <= k < body_child_ids(snapshot.values@[j].body).len()
                        && !storage.terms().dom().contains(
                        #[trigger] body_child_ids(snapshot.values@[j].body)[k],
                    ),
        decreases n - built_count, again,
    {
        let count0 = built_count;
        let ghost sto_pass = *storage;
        let mut idx: usize = 0;
        while idx < n
            invariant
                arena.wf(),
                storage.wf(),
                storage.valid_in(arena@),
                a_start == old(arena)@,
                a_start.is_prefix_of(arena@),
                old(storage).ids().submap_of(storage.ids()),
                old(storage).terms().submap_of(storage.terms()),
                !old(storage).terms().dom().contains(snapshot.id),
                n == snapshot.values@.len(),
                forall|j: int| 0 <= j < n ==> (#[trigger] snapshot.values@[j]).id < u64::MAX,
                built@.len() == n,
                built_count as int == count_true(built@),
                built_count <= n,
                count0 <= built_count,
                idx <= n,
                forall|j: int|
                    0 <= j < n && built@[j] ==> storage.terms().dom().contains(
                        (#[trigger] snapshot.values@[j]).id,
                    ),
                forall|id: u64|
                    #[trigger] storage.terms().dom().contains(id)
                        && !old(storage).terms().dom().contains(id) ==> exists|j: int|
                        0 <= j < n && (#[trigger] snapshot.values@[j]).id == id
                            && record_realized(
                            arena@,
                            storage.terms()[id],
                            snapshot.values@[j].body,
                            storage.terms(),
                        ),
                built_count == count0 ==> *storage == sto_pass,
                built_count == count0 ==> forall|j: int|
                    0 <= j < idx && !storage.terms().dom().contains(
                        (#[trigger] snapshot.values@[j]).id,
                    ) ==> exists|k: int|
                        0 <= k < body_child_ids(snapshot.values@[j].body).len()
                            && !storage.terms().dom().contains(
                            #[trigger] body_child_ids(snapshot.values@[j].body)[k],
                        ),
            decreases n - idx,
        {
            if !built[idx] {
                let rid = snapshot.values[idx].id;
                let known = match storage.find_term(rid) {
                    Some(_) => true,
                    None => false,
                };
                if known {
                    let ghost b0 = built@;
                    built.set(idx, true);
                    proof {
                        lemma_count_true_update(b0, idx as int);
                        lemma_count_true_bound(built@);
                    }
                    built_count = built_count + 1;
                } else {
                    let cids = body_children_exec(&snapshot.values[idx].body);
                    let m = cids.len();
                    let mut kids: Vec<Value> = Vec::new();
                    let mut ok = true;
                    let mut missing = false;
                    let mut ci: usize = 0;
                    let ghost sto0 = *storage;
                    let ghost arv0 = arena@;
                    while ok && ci < m
                        invariant
                            *storage == sto0,
                            arena@ == arv0,
                            storage.wf(),
                            !old(storage).terms().dom().contains(snapshot.id),
                            !storage.terms().dom().contains(
                                snapshot.values@[idx as int].id,
                            ),
                            m == cids@.len(),
                            cids@ =~= body_child_ids(snapshot.values@[idx as int].body),
                            idx < n,
                            n == snapshot.values@.len(),
                            ci <= m,
                            ok ==> kids@.len() == ci,
                            ok ==> !missing,
                            ok ==> forall|k: int|
                                0 <= k < ci ==> storage.terms().dom().contains(
                                    #[trigger] cids@[k],
                                ) && kids@[k] == storage.terms()[cids@[k]],
                            !ok ==> exists|k: int|
                                0 <= k < m && !storage.terms().dom().contains(
                                    #[trigger] cids@[k],
                                ) && (if missing {
                                    !id_in_records(snapshot.values@, cids@[k])
                                } else {
                                    id_in_records(snapshot.values@, cids@[k])
                                }),
                        decreases m - ci, (if ok { 1int } else { 0int }),
                    {
                        match storage.find_term(cids[ci]) {
                            Some(cv) => {
                                kids.push(cv);
                                ci = ci + 1;
                            },
                            None => {
                                if !has_record(snapshot, cids[ci]) {
                                    missing = true;
                                }
                                ok = false;
                                proof {
                                    assert(!storage.terms().dom().contains(cids@[ci as int]));
                                }
                            },
                        }
                    }
                    if missing {
                        proof {
                            let k = choose|k: int|
                                0 <= k < m && !storage.terms().dom().contains(
                                    #[trigger] cids@[k],
                                ) && !id_in_records(snapshot.values@, cids@[k]);
                            assert(id_referenced(snapshot.values@, snapshot.id, cids@[k])) by {
                                assert(body_child_ids(snapshot.values@[idx as int].body)[k]
                                    == cids@[k]);
                            }
                            if snapshot_resolvable(snapshot.values@, snapshot.id, old(storage).terms()) {
                                let rid0 = snapshot.values@[idx as int].id;
                                assert(id_in_records(snapshot.values@, rid0)) by {
                                    assert(snapshot.values@[idx as int].id == rid0);
                                }
                                let d = choose|d: nat|
                                    #[trigger] resolvable(
                                        snapshot.values@,
                                        old(storage).terms(),
                                        rid0,
                                        d,
                                    );
                                assert(!old(storage).terms().dom().contains(rid0));
                                let j2 = choose|j: int|
                                    0 <= j < snapshot.values@.len() && (
                                    #[trigger] snapshot.values@[j]).id == rid0 && forall|k2: int|
                                        0 <= k2 < body_child_ids(
                                            snapshot.values@[j].body,
                                        ).len() ==> resolvable(
                                            snapshot.values@,
                                            old(storage).terms(),
                                            #[trigger] body_child_ids(
                                                snapshot.values@[j].body,
                                            )[k2],
                                            (d - 1) as nat,
                                        );
                                assert(j2 == idx) by {
                                    if j2 < idx {
                                        assert(snapshot.values@[j2].id != snapshot.values@[
                                            idx as int].id);
                                    }
                                    if j2 > idx {
                                        assert(snapshot.values@[idx as int].id
                                            != snapshot.values@[j2].id);
                                    }
                                }
                                assert(resolvable(
                                    snapshot.values@,
                                    old(storage).terms(),
                                    cids@[k],
                                    (d - 1) as nat,
                                )) by {
                                    assert(body_child_ids(snapshot.values@[idx as int].body)[k]
                                        == cids@[k]);
                                }
                                assert(!old(storage).terms().dom().contains(cids@[k]));
                                lemma_unresolvable(
                                    snapshot.values@,
                                    old(storage).terms(),
                                    cids@[k],
                                    (d - 1) as nat,
                                );
                                assert(false);
                            }
                        }
                        return Err(SnapshotError::MissingRecord);
                    }
                    if ok {
                        proof {
                            storage.lemma_valid_prefix(arena@, arena@);
                            assert forall|k: int| 0 <= k < kids@.len() implies valid_id(
                                arena@,
                                #[trigger] kids@[k],
                            ) by {
                                storage.lemma_term_value_valid(arena@, cids@[k]);
                            }
                        }
                        let ghost a_pre = arena@;
                        let ghost terms_pre = storage.terms();
                        let v = build_from_body(arena, &snapshot.values[idx].body, &kids);
                        proof {
                            storage.lemma_valid_prefix(a_pre, arena@);
                            storage.lemma_unknown_term(a_pre, v);
                        }
                        storage.register(v, rid, Ghost(arena@));
                        proof {
                            assert(record_realized(
                                arena@,
                                v,
                                snapshot.values@[idx as int].body,
                                storage.terms(),
                            )) by {
                                assert(terms_pre.submap_of(storage.terms()));
                                assert(node_children(arena@[v.slot()]) =~= kids@);
                                assert(body_child_ids(snapshot.values@[idx as int].body)
                                    =~= cids@);
                            }
                            assert forall|id: u64|
                                #[trigger] storage.terms().dom().contains(id)
                                    && !old(storage).terms().dom().contains(id) implies exists|
                                j: int,
                            |
                                0 <= j < n && (#[trigger] snapshot.values@[j]).id == id
                                    && record_realized(
                                    arena@,
                                    storage.terms()[id],
                                    snapshot.values@[j].body,
                                    storage.terms(),
                                ) by {
                                if id == rid {
                                    assert(snapshot.values@[idx as int].id == id);
                                    assert(storage.terms()[id] == v);
                                } else {
                                    assert(terms_pre.dom().contains(id));
                                    let j = choose|j: int|
                                        0 <= j < n && (#[trigger] snapshot.values@[j]).id == id
                                            && record_realized(
                                            a_pre,
                                            terms_pre[id],
                                            snapshot.values@[j].body,
                                            terms_pre,
                                        );
                                    lemma_realized_mono(
                                        a_pre,
                                        arena@,
                                        terms_pre[id],
                                        snapshot.values@[j].body,
                                        terms_pre,
                                        storage.terms(),
                                    );
                                    assert(storage.terms()[id] == terms_pre[id]);
                                }
                            }
                        }
                        let ghost b0 = built@;
                        built.set(idx, true);
                        proof {
                            lemma_count_true_update(b0, idx as int);
                            lemma_count_true_bound(built@);
                        }
                        built_count = built_count + 1;
                    } else {
                        proof {
                            let k = choose|k: int|
                                0 <= k < m && !storage.terms().dom().contains(
                                    #[trigger] cids@[k],
                                ) && id_in_records(snapshot.values@, cids@[k]);
                            assert(body_child_ids(snapshot.values@[idx as int].body)[k]
                                == cids@[k]);
                        }
                    }
                }
            }
            idx = idx + 1;
        }
        if built_count == count0 {
            again = 0;
        }
    }
    match storage.find_term(snapshot.id) {
        Some(v) => {
            proof {
                storage.lemma_term_value_valid(arena@, snapshot.id);
                if snapshot_resolvable(snapshot.values@, snapshot.id, old(storage).terms()) {
                    assert forall|j: int| 0 <= j < n implies storage.terms().dom().contains(
                        (#[trigger] snapshot.values@[j]).id,
                    ) by {
                        let ghost seed = id_in_records(
                            snapshot.values@,
                            snapshot.values@[j].id,
                        );
                        assert(id_in_records(snapshot.values@, snapshot.values@[j].id));
                        let d = choose|d: nat|
                            #[trigger] resolvable(
                                snapshot.values@,
                                old(storage).terms(),
                                snapshot.values@[j].id,
                                d,
                            );
                        lemma_stall_realizes(
                            snapshot.values@,
                            old(storage).terms(),
                            storage.terms(),
                            snapshot.values@[j].id,
                            d,
                        );
                    }
                }
            }
            Ok(v)
        },
        None => {
            if !has_record(snapshot, snapshot.id) {
                proof {
                    assert(id_referenced(snapshot.values@, snapshot.id, snapshot.id));
                    if snapshot_resolvable(snapshot.values@, snapshot.id, old(storage).terms()) {
                        let ghost seed = id_in_records(snapshot.values@, snapshot.id);
                        let d = choose|d: nat|
                            #[trigger] resolvable(
                                snapshot.values@,
                                old(storage).terms(),
                                snapshot.id,
                                d,
                            );
                        assert(!old(storage).terms().dom().contains(snapshot.id));
                        lemma_unresolvable(
                            snapshot.values@,
                            old(storage).terms(),
                            snapshot.id,
                            d,
                        );
                        assert(false);
                    }
                }
                Err(SnapshotError::MissingRecord)
            } else {
                proof {
                    if snapshot_resolvable(snapshot.values@, snapshot.id, old(storage).terms()) {
                        let ghost seed = id_in_records(snapshot.values@, snapshot.id);
                        let d = choose|d: nat|
                            #[trigger] resolvable(
                                snapshot.values@,
                                old(storage).terms(),
                                snapshot.id,
                                d,
                            );
                        lemma_stall_realizes(
                            snapshot.values@,
                            old(storage).terms(),
                            storage.terms(),
                            snapshot.id,
                            d,
                        );
                        assert(false);
                    }
                }
                Err(SnapshotError::CyclicReference)
            }
        },
    }
}

/// An all-clear flag vector counts zero.
pub proof fn lemma_count_all_false(s: Seq<bool>)
    requires
        forall|j: int| 0 <= j < s.len() ==> !(#[trigger] s[j]),
    ensures
        count_true(s) == 0,
    decreases s.len(),
{
    if s.len() > 0 {
        lemma_count_all_false(s.drop_last());
    }
}


/// Recursive shape equivalence between a term of one arena and a term of
/// another: same variant tags, same leaf payloads and argument policies all
/// the way down, child for child.
pub open spec fn shape_equiv(a1: Seq<NodeView>, v1: Value, a2: Seq<NodeView>, v2: Value) -> bool
    decreases v1.slot(),
    when arena_wf(a1) && valid_id(a1, v1)
{
    &&& valid_id(a2, v2)
    &&& same_shape(a1[v1.slot()], a2[v2.slot()])
    &&& node_children(a2[v2.slot()]).len() == node_children(a1[v1.slot()]).len()
    &&& forall|i: int|
        0 <= i < node_children(a1[v1.slot()]).len() ==> shape_equiv(
            a1,
            #[trigger] node_children(a1[v1.slot()])[i],
            a2,
            node_children(a2[v2.slot()])[i],
        )
}

/// Two nodes that serialize to the same record body have the same shape.
pub proof fn lemma_shape_bridge(n1: NodeView, n2: NodeView, b: RecordBody)
    requires
        body_same_shape(n1, b),
        body_same_shape(n2, b),
    ensures
        same_shape(n1, n2),
        node_children(n2).len() == node_children(n1).len(),
{
    match (n1, n2) {
        (
            NodeView::Application { arguments: x1, .. },
            NodeView::Application { arguments: x2, .. },
        ) => {
            assert forall|i: int| 0 <= i < x1.len() implies (#[trigger] x1[i]).policy == (
            #[trigger] x2[i]).policy by {
                match b {
                    RecordBody::Application { arguments: ys, .. } => {
                        assert(x1[i].policy == ys@[i].policy);
                        assert(x2[i].policy == ys@[i].policy);
                    },
                    _ => {
                        assert(false);
                    },
                }
            }
        },
        (
            NodeView::IntrinsicCall { arguments: x1, .. },
            NodeView::IntrinsicCall { arguments: x2, .. },
        ) => {
            assert forall|i: int| 0 <= i < x1.len() implies (#[trigger] x1[i]).policy == (
            #[trigger] x2[i]).policy by {
                match b {
                    RecordBody::IntrinsicCall { arguments: ys, .. } => {
                        assert(x1[i].policy == ys@[i].policy);
                        assert(x2[i].policy == ys@[i].policy);
                    },
                    _ => {
                        assert(false);
                    },
                }
            }
        },
        _ => {},
    }
}

/// The round-trip law. Take a snapshot as `serialize` promises to produce
/// it: each record the faithful image, under the identifier assignment
/// `m`, of the term `t1` associates with its identifier, identifiers
/// unique and mutually inverse with `m`, and every referenced identifier
/// carrying a record. Take any realization of those records as
/// `deserialize` promises one: a map `b` from identifiers to terms of an
/// arena `a2`, each the faithful image of its record under `b`. Then every
/// recorded term — the root included — is recursively shape-equivalent to
/// its realization: same variant tags, same leaf payloads and policies.
/// Sharing is preserved along the way: the reconstructed child behind each
/// child slot is exactly `b[m[c]]` for the original child `c`, so a term
/// reachable via two paths reappears as one reconstructed term reachable
/// via both.
pub proof fn lemma_round_trip(
    values: Seq<Record>,
    m: Map<Value, u64>,
    t1: Map<u64, Value>,
    b: Map<u64, Value>,
    a1: Seq<NodeView>,
    a2: Seq<NodeView>,
    i: int,
)
    requires
        arena_wf(a1),
        arena_wf(a2),
        forall|x: int, y: int|
            0 <= x < y < values.len() ==> (#[trigger] values[x]).id != (#[trigger] values[y]).id,
        forall|x: int|
            0 <= x < values.len() ==> t1.dom().contains((#[trigger] values[x]).id) && valid_id(
                a1,
                t1[values[x].id],
            ) && record_represents(a1[t1[values[x].id].slot()], values[x].body, m),
        forall|v: Value|
            #[trigger] m.dom().contains(v) ==> t1.dom().contains(m[v]) && t1[m[v]] == v,
        forall|x: int, k: int|
            0 <= x < values.len() && 0 <= k < body_child_ids(values[x].body).len() ==> exists|
                j: int,
            |
                0 <= j < values.len() && (#[trigger] values[j]).id == #[trigger] body_child_ids(
                    values[x].body,
                )[k],
        forall|x: int|
            0 <= x < values.len() ==> b.dom().contains((#[trigger] values[x]).id)
                && record_realized(a2, b[values[x].id], values[x].body, b),
        0 <= i < values.len(),
    ensures
        shape_equiv(a1, t1[values[i].id], a2, b[values[i].id]),
        forall|k: int|
            0 <= k < node_children(a1[t1[values[i].id].slot()]).len() ==> node_children(
                a2[b[values[i].id].slot()],
            )[k] == b[m[#[trigger] node_children(a1[t1[values[i].id].slot()])[k]]],
    decreases t1[values[i].id].slot(),
{
    let v1 = t1[values[i].id];
    let v2 = b[values[i].id];
    let body = values[i].body;
    lemma_shape_bridge(a1[v1.slot()], a2[v2.slot()], body);
    let cs1 = node_children(a1[v1.slot()]);
    let cs2 = node_children(a2[v2.slot()]);
    assert forall|k: int| 0 <= k < cs1.len() implies shape_equiv(a1, #[trigger] cs1[k], a2, cs2[k])
        && cs2[k] == b[m[cs1[k]]] by {
        let child = cs1[k];
        crate::subst::lemma_child_valid(a1, v1, k);
        let cid = body_child_ids(body)[k];
        assert(m.dom().contains(child) && cid == m[child]);
        assert(t1[cid] == child);
        let j = choose|j: int| 0 <= j < values.len() && (#[trigger] values[j]).id == cid;
        assert(t1[values[j].id] == child);
        lemma_round_trip(values, m, t1, b, a1, a2, j);
        assert(cs2[k] == b[cid]);
    }
    assert(shape_equiv(a1, v1, a2, v2));
}

} // verus!
