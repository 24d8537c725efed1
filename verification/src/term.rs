//! The term model: a closed set of variants, one arena slot per construction,
//! with equality and hashing by allocation identity rather than by structure.

use vstd::prelude::*;

verus! {

/// A handle to one term allocation. Terms are compared by identity: two
/// handles are equal exactly when they name the same arena slot, so two
/// separately constructed terms are unequal even when their contents match.
#[derive(Clone, Copy, PartialEq, Eq, Structural, Debug, Hash)]
pub struct Value {
    id: usize,
}

impl Value {
    /// The arena slot this handle names, as a mathematical integer.
    pub closed spec fn slot(self) -> int {
        self.id as int
    }

    /// The arena slot this handle names, as an index.
    pub fn index(self) -> (i: usize)
        ensures
            i as int == self.slot(),
    {
        self.id
    }
}

/// Payload of the unit/absence variant.
#[derive(Clone, Copy, Debug)]
pub struct NullValueInner;

/// Payload of a name cell. Equality of symbols is allocation identity,
/// never name equality.
#[derive(Debug)]
pub struct SymbolValueInner {
    pub name: String,
}

/// Payload of a numeric literal, carried as the raw bit pattern of a 64-bit
/// IEEE-754 value. The runtime never interprets the bits; arithmetic on them
/// is the business of intrinsics registered by the embedder.
#[derive(Clone, Copy, PartialEq, Eq, Structural, Debug)]
pub struct FloatingPointNumberValueInner {
    pub bits: u64,
}

/// Payload of a fixed-arity value list.
#[derive(Debug)]
pub struct TupleValueInner {
    pub inner: Vec<Value>,
}

/// Payload of a quoted (un-evaluated) sub-term.
#[derive(Clone, Copy, PartialEq, Eq, Structural, Debug)]
pub struct HoldValueInner {
    pub inner: Value,
}

/// Payload of the unquoting marker: evaluate the inner term, then strip
/// exactly one layer of quoting from the result.
#[derive(Clone, Copy, PartialEq, Eq, Structural, Debug)]
pub struct ReleaseValueInner {
    pub inner: Value,
}

/// Payload of a sequence executed left to right; its value is the last
/// element's result, or the null value when empty.
#[derive(Debug)]
pub struct ExecutableSequenceValueInner {
    pub inner: Vec<Value>,
}

/// Payload of a binding statement: bind `target` (which must evaluate to a
/// symbol) to the value of `source`.
#[derive(Clone, Copy, PartialEq, Eq, Structural, Debug)]
pub struct AssignmentValueInner {
    pub source: Value,
    pub target: Value,
}

/// Payload of the lookup marker: evaluate the inner term to a symbol and
/// look that symbol up in the current bindings.
#[derive(Clone, Copy, PartialEq, Eq, Structural, Debug)]
pub struct DereferenceValueInner {
    pub inner: Value,
}

/// Payload of a closure template. `arguments` must be a tuple of symbols at
/// application time; the body is rewritten by substitution, not closed over
/// an environment.
#[derive(Clone, Copy, PartialEq, Eq, Structural, Debug)]
pub struct ExecutableFunctionValueInner {
    pub arguments: Value,
    pub body: Value,
}

/// Whether a call-site argument is passed as unevaluated syntax or as its
/// value.
#[derive(Clone, Copy, PartialEq, Eq, Structural, Debug)]
pub enum ArgumentPolicy {
    /// The callee sees the argument's syntax, untouched.
    Held,
    /// The argument is evaluated before the call.
    Evaluated,
}

/// One call-site argument with its own evaluation policy.
#[derive(Clone, Copy, PartialEq, Eq, Structural, Debug)]
pub struct CallArgument {
    pub policy: ArgumentPolicy,
    pub term: Value,
}

/// Payload of a call site applying a function template to arguments.
#[derive(Debug)]
pub struct FunctionApplicationValueInner {
    pub function: Value,
    pub arguments: Vec<CallArgument>,
}

/// Payload of a native escape hatch: call the intrinsic registered for the
/// given symbol.
#[derive(Debug)]
pub struct IntrinsicCallValueInner {
    pub intrinsic: Value,
    pub arguments: Vec<CallArgument>,
}

/// One arena node: the closed sum of all term variants. Every recursive
/// tree walker matches this exhaustively.
#[derive(Debug)]
pub enum Node {
    Null(NullValueInner),
    Symbol(SymbolValueInner),
    Number(FloatingPointNumberValueInner),
    Tuple(TupleValueInner),
    Hold(HoldValueInner),
    Release(ReleaseValueInner),
    Sequence(ExecutableSequenceValueInner),
    Assignment(AssignmentValueInner),
    Dereference(DereferenceValueInner),
    Function(ExecutableFunctionValueInner),
    Application(FunctionApplicationValueInner),
    IntrinsicCall(IntrinsicCallValueInner),
}

/// The mathematical shape of one node: the same variants as `Node`, with
/// sequences in place of vectors and character sequences in place of owned
/// strings. All contracts speak of this type.
#[verifier::ext_equal]
pub enum NodeView {
    Null,
    Symbol { name: Seq<char> },
    Number { bits: u64 },
    Tuple { inner: Seq<Value> },
    Hold { inner: Value },
    Release { inner: Value },
    Sequence { inner: Seq<Value> },
    Assignment { source: Value, target: Value },
    Dereference { inner: Value },
    Function { arguments: Value, body: Value },
    Application { function: Value, arguments: Seq<CallArgument> },
    IntrinsicCall { intrinsic: Value, arguments: Seq<CallArgument> },
}

impl View for Node {
    type V = NodeView;

    open spec fn view(&self) -> NodeView {
        match self {
            Node::Null(_) => NodeView::Null,
            Node::Symbol(p) => NodeView::Symbol { name: p.name@ },
            Node::Number(p) => NodeView::Number { bits: p.bits },
            Node::Tuple(p) => NodeView::Tuple { inner: p.inner@ },
            Node::Hold(p) => NodeView::Hold { inner: p.inner },
            Node::Release(p) => NodeView::Release { inner: p.inner },
            Node::Sequence(p) => NodeView::Sequence { inner: p.inner@ },
            Node::Assignment(p) => NodeView::Assignment { source: p.source, target: p.target },
            Node::Dereference(p) => NodeView::Dereference { inner: p.inner },
            Node::Function(p) => NodeView::Function { arguments: p.arguments, body: p.body },
            Node::Application(p) => NodeView::Application {
                function: p.function,
                arguments: p.arguments@,
            },
            Node::IntrinsicCall(p) => NodeView::IntrinsicCall {
                intrinsic: p.intrinsic,
                arguments: p.arguments@,
            },
        }
    }
}

/// The ordered structural children of a node, as handles.
pub open spec fn node_children(n: NodeView) -> Seq<Value> {
    match n {
        NodeView::Null => Seq::empty(),
        NodeView::Symbol { .. } => Seq::empty(),
        NodeView::Number { .. } => Seq::empty(),
        NodeView::Tuple { inner } => inner,
        NodeView::Hold { inner } => seq![inner],
        NodeView::Release { inner } => seq![inner],
        NodeView::Sequence { inner } => inner,
        NodeView::Assignment { source, target } => seq![source, target],
        NodeView::Dereference { inner } => seq![inner],
        NodeView::Function { arguments, body } => seq![arguments, body],
        NodeView::Application { function, arguments } => seq![function] + arguments.map_values(
            |a: CallArgument| a.term,
        ),
        NodeView::IntrinsicCall { intrinsic, arguments } => seq![intrinsic] + arguments.map_values(
            |a: CallArgument| a.term,
        ),
    }
}

/// Slots are array indices, so they are never negative.
pub broadcast proof fn lemma_slot_nonneg(v: Value)
    ensures
        #[trigger] v.slot() >= 0,
{
}

/// A handle is nothing but its slot, so equal slots mean equal handles.
pub proof fn lemma_slot_injective(v1: Value, v2: Value)
    requires
        v1.slot() == v2.slot(),
    ensures
        v1 == v2,
{
}

/// The handle `v` names a slot of the arena `a`.
pub open spec fn valid_id(a: Seq<NodeView>, v: Value) -> bool {
    v.slot() < a.len()
}

/// Equal arenas are prefixes of one another; stated as an ambient lemma so
/// that unchanged-arena cases discharge prefix claims directly.
pub broadcast proof fn lemma_prefix_refl(a: Seq<NodeView>, b: Seq<NodeView>)
    ensures
        a == b ==> #[trigger] a.is_prefix_of(b),
{
    if a == b {
        assert(a =~= b.subrange(0, a.len() as int));
    }
}

/// Being a prefix is transitive.
pub proof fn lemma_prefix_trans(a: Seq<NodeView>, b: Seq<NodeView>, c: Seq<NodeView>)
    requires
        a.is_prefix_of(b),
        b.is_prefix_of(c),
    ensures
        a.is_prefix_of(c),
{
    assert forall|i: int| 0 <= i < a.len() implies c.subrange(0, a.len() as int)[i] == a[i] by {
        lemma_prefix_index(a, b, i);
        lemma_prefix_index(b, c, i);
    }
    assert(a =~= c.subrange(0, a.len() as int));
}

/// A prefix agrees with the longer arena on every slot it has.
pub proof fn lemma_prefix_index(a1: Seq<NodeView>, a2: Seq<NodeView>, i: int)
    requires
        a1.is_prefix_of(a2),
        0 <= i < a1.len(),
    ensures
        a2[i] == a1[i],
{
    assert(a2.subrange(0, a1.len() as int)[i] == a1[i]);
}

/// Leaf variants have no children at all.
pub open spec fn is_leaf(n: NodeView) -> bool {
    n is Null || n is Symbol || n is Number
}

/// Two nodes agree on everything except which terms their child slots
/// reference: same variant, same leaf payload, same argument count and
/// per-argument evaluation policies.
pub open spec fn same_shape(n1: NodeView, n2: NodeView) -> bool {
    match (n1, n2) {
        (NodeView::Null, NodeView::Null) => true,
        (NodeView::Symbol { name: m1 }, NodeView::Symbol { name: m2 }) => m1 == m2,
        (NodeView::Number { bits: b1 }, NodeView::Number { bits: b2 }) => b1 == b2,
        (NodeView::Tuple { .. }, NodeView::Tuple { .. }) => true,
        (NodeView::Hold { .. }, NodeView::Hold { .. }) => true,
        (NodeView::Release { .. }, NodeView::Release { .. }) => true,
        (NodeView::Sequence { .. }, NodeView::Sequence { .. }) => true,
        (NodeView::Assignment { .. }, NodeView::Assignment { .. }) => true,
        (NodeView::Dereference { .. }, NodeView::Dereference { .. }) => true,
        (NodeView::Function { .. }, NodeView::Function { .. }) => true,
        (
            NodeView::Application { arguments: x, .. },
            NodeView::Application { arguments: y, .. },
        ) => x.len() == y.len() && forall|i: int|
            0 <= i < x.len() ==> (#[trigger] x[i]).policy == (#[trigger] y[i]).policy,
        (
            NodeView::IntrinsicCall { arguments: x, .. },
            NodeView::IntrinsicCall { arguments: y, .. },
        ) => x.len() == y.len() && forall|i: int|
            0 <= i < x.len() ==> (#[trigger] x[i]).policy == (#[trigger] y[i]).policy,
        _ => false,
    }
}

/// Every child handle of `n` names a slot strictly below `bound`.
pub open spec fn node_wf(n: NodeView, bound: int) -> bool {
    forall|i: int|
        0 <= i < node_children(n).len() ==> (#[trigger] node_children(n)[i]).slot() < bound
}

/// Arena well-formedness: each node only refers to nodes allocated before
/// it. Construction pushes children first, so this holds throughout and
/// makes every recursive walk over a term well-founded.
pub open spec fn arena_wf(a: Seq<NodeView>) -> bool {
    forall|i: int| 0 <= i < a.len() ==> node_wf(#[trigger] a[i], i)
}

/// The arena that owns every term node. Nodes are immutable once pushed;
/// "mutation" of a term always means allocating a rebuilt node.
pub struct Arena {
    nodes: Vec<Node>,
}

impl View for Arena {
    type V = Seq<NodeView>;

    closed spec fn view(&self) -> Seq<NodeView> {
        self.nodes@.map_values(|n: Node| n@)
    }
}

impl Arena {
    /// Arena well-formedness, see `arena_wf`.
    pub open spec fn wf(self) -> bool {
        arena_wf(self@)
    }

    /// The handle names a slot of this arena.
    pub open spec fn valid(self, v: Value) -> bool {
        valid_id(self@, v)
    }

    /// An empty arena.
    pub fn new() -> (a: Arena)
        ensures
            a@ =~= Seq::<NodeView>::empty(),
            a.wf(),
    {
        Arena { nodes: Vec::new() }
    }

    /// How many nodes have been allocated.
    pub fn len(&self) -> (n: usize)
        ensures
            n == self@.len(),
    {
        self.nodes.len()
    }

    /// Read the node a handle names.
    pub fn node(&self, v: Value) -> (n: &Node)
        requires
            self.valid(v),
        ensures
            n@ == self@[v.slot()],
    {
        &self.nodes[v.id]
    }

    fn push_node(&mut self, n: Node) -> (v: Value)
        requires
            old(self).wf(),
            node_wf(n@, old(self)@.len() as int),
        ensures
            final(self).wf(),
            final(self)@ =~= old(self)@.push(n@),
            v.slot() == old(self)@.len(),
            final(self).valid(v),
            !old(self).valid(v),
    {
        let id = self.nodes.len();
        let ghost nv = n@;
        self.nodes.push(n);
        proof {
            assert(self@ =~= old(self)@.push(nv));
        }
        Value { id }
    }
}

/// One term-variant payload. Implemented by every `...ValueInner` type; the
/// generic construction and downcast operations on `Value` dispatch on it.
pub trait Payload: Sized {
    /// The node shape that holds exactly this payload.
    spec fn as_view(self) -> NodeView;

    /// The shape's variant is the one this payload type belongs to.
    spec fn view_is(n: NodeView) -> bool;

    /// Wrap the payload into its node.
    fn into_node(self) -> (n: Node)
        ensures
            n@ == self.as_view(),
    ;

    /// Extract the payload from a node of the matching variant.
    fn from_node(n: &Node) -> (r: Option<Self>)
        ensures
            match r {
                Some(p) => Self::view_is(n@) && p.as_view() == n@,
                None => !Self::view_is(n@),
            },
    ;
}

/// Copy a vector of handles element by element (handles are plain slot
/// numbers, so this preserves identities exactly).
pub fn copy_values(v: &Vec<Value>) -> (r: Vec<Value>)
    ensures
        r@ =~= v@,
{
    let mut r: Vec<Value> = Vec::new();
    let mut i: usize = 0;
    while i < v.len()
        invariant
            i <= v.len(),
            r@ =~= v@.subrange(0, i as int),
        decreases v.len() - i,
    {
        r.push(v[i]);
        i = i + 1;
    }
    r
}

/// Copy a vector of call arguments element by element.
pub fn copy_call_arguments(v: &Vec<CallArgument>) -> (r: Vec<CallArgument>)
    ensures
        r@ =~= v@,
{
    let mut r: Vec<CallArgument> = Vec::new();
    let mut i: usize = 0;
    while i < v.len()
        invariant
            i <= v.len(),
            r@ =~= v@.subrange(0, i as int),
        decreases v.len() - i,
    {
        r.push(v[i]);
        i = i + 1;
    }
    r
}

impl Payload for NullValueInner {
    open spec fn as_view(self) -> NodeView {
        NodeView::Null
    }

    open spec fn view_is(n: NodeView) -> bool {
        n is Null
    }

    fn into_node(self) -> (n: Node) {
        Node::Null(self)
    }

    fn from_node(n: &Node) -> (r: Option<Self>) {
        match n {
            Node::Null(_) => Some(NullValueInner),
            _ => None,
        }
    }
}

impl Payload for SymbolValueInner {
    open spec fn as_view(self) -> NodeView {
        NodeView::Symbol { name: self.name@ }
    }

    open spec fn view_is(n: NodeView) -> bool {
        n is Symbol
    }

    fn into_node(self) -> (n: Node) {
        Node::Symbol(self)
    }

    fn from_node(n: &Node) -> (r: Option<Self>) {
        match n {
            Node::Symbol(p) => Some(SymbolValueInner { name: p.name.clone() }),
            _ => None,
        }
    }
}

impl Payload for FloatingPointNumberValueInner {
    open spec fn as_view(self) -> NodeView {
        NodeView::Number { bits: self.bits }
    }

    open spec fn view_is(n: NodeView) -> bool {
        n is Number
    }

    fn into_node(self) -> (n: Node) {
        Node::Number(self)
    }

    fn from_node(n: &Node) -> (r: Option<Self>) {
        match n {
            Node::Number(p) => Some(FloatingPointNumberValueInner { bits: p.bits }),
            _ => None,
        }
    }
}

impl Payload for TupleValueInner {
    open spec fn as_view(self) -> NodeView {
        NodeView::Tuple { inner: self.inner@ }
    }

    open spec fn view_is(n: NodeView) -> bool {
        n is Tuple
    }

    fn into_node(self) -> (n: Node) {
        Node::Tuple(self)
    }

    fn from_node(n: &Node) -> (r: Option<Self>) {
        match n {
            Node::Tuple(p) => Some(TupleValueInner { inner: copy_values(&p.inner) }),
            _ => None,
        }
    }
}

impl Payload for HoldValueInner {
    open spec fn as_view(self) -> NodeView {
        NodeView::Hold { inner: self.inner }
    }

    open spec fn view_is(n: NodeView) -> bool {
        n is Hold
    }

    fn into_node(self) -> (n: Node) {
        Node::Hold(self)
    }

    fn from_node(n: &Node) -> (r: Option<Self>) {
        match n {
            Node::Hold(p) => Some(HoldValueInner { inner: p.inner }),
            _ => None,
        }
    }
}

impl Payload for ReleaseValueInner {
    open spec fn as_view(self) -> NodeView {
        NodeView::Release { inner: self.inner }
    }

    open spec fn view_is(n: NodeView) -> bool {
        n is Release
    }

    fn into_node(self) -> (n: Node) {
        Node::Release(self)
    }

    fn from_node(n: &Node) -> (r: Option<Self>) {
        match n {
            Node::Release(p) => Some(ReleaseValueInner { inner: p.inner }),
            _ => None,
        }
    }
}

impl Payload for ExecutableSequenceValueInner {
    open spec fn as_view(self) -> NodeView {
        NodeView::Sequence { inner: self.inner@ }
    }

    open spec fn view_is(n: NodeView) -> bool {
        n is Sequence
    }

    fn into_node(self) -> (n: Node) {
        Node::Sequence(self)
    }

    fn from_node(n: &Node) -> (r: Option<Self>) {
        match n {
            Node::Sequence(p) => Some(
                ExecutableSequenceValueInner { inner: copy_values(&p.inner) },
            ),
            _ => None,
        }
    }
}

impl Payload for AssignmentValueInner {
    open spec fn as_view(self) -> NodeView {
        NodeView::Assignment { source: self.source, target: self.target }
    }

    open spec fn view_is(n: NodeView) -> bool {
        n is Assignment
    }

    fn into_node(self) -> (n: Node) {
        Node::Assignment(self)
    }

    fn from_node(n: &Node) -> (r: Option<Self>) {
        match n {
            Node::Assignment(p) => Some(
                AssignmentValueInner { source: p.source, target: p.target },
            ),
            _ => None,
        }
    }
}

impl Payload for DereferenceValueInner {
    open spec fn as_view(self) -> NodeView {
        NodeView::Dereference { inner: self.inner }
    }

    open spec fn view_is(n: NodeView) -> bool {
        n is Dereference
    }

    fn into_node(self) -> (n: Node) {
        Node::Dereference(self)
    }

    fn from_node(n: &Node) -> (r: Option<Self>) {
        match n {
            Node::Dereference(p) => Some(DereferenceValueInner { inner: p.inner }),
            _ => None,
        }
    }
}

impl Payload for ExecutableFunctionValueInner {
    open spec fn as_view(self) -> NodeView {
        NodeView::Function { arguments: self.arguments, body: self.body }
    }

    open spec fn view_is(n: NodeView) -> bool {
        n is Function
    }

    fn into_node(self) -> (n: Node) {
        Node::Function(self)
    }

    fn from_node(n: &Node) -> (r: Option<Self>) {
        match n {
            Node::Function(p) => Some(
                ExecutableFunctionValueInner { arguments: p.arguments, body: p.body },
            ),
            _ => None,
        }
    }
}

impl Payload for FunctionApplicationValueInner {
    open spec fn as_view(self) -> NodeView {
        NodeView::Application { function: self.function, arguments: self.arguments@ }
    }

    open spec fn view_is(n: NodeView) -> bool {
        n is Application
    }

    fn into_node(self) -> (n: Node) {
        Node::Application(self)
    }

    fn from_node(n: &Node) -> (r: Option<Self>) {
        match n {
            Node::Application(p) => Some(
                FunctionApplicationValueInner {
                    function: p.function,
                    arguments: copy_call_arguments(&p.arguments),
                },
            ),
            _ => None,
        }
    }
}

impl Payload for IntrinsicCallValueInner {
    open spec fn as_view(self) -> NodeView {
        NodeView::IntrinsicCall { intrinsic: self.intrinsic, arguments: self.arguments@ }
    }

    open spec fn view_is(n: NodeView) -> bool {
        n is IntrinsicCall
    }

    fn into_node(self) -> (n: Node) {
        Node::IntrinsicCall(self)
    }

    fn from_node(n: &Node) -> (r: Option<Self>) {
        match n {
            Node::IntrinsicCall(p) => Some(
                IntrinsicCallValueInner {
                    intrinsic: p.intrinsic,
                    arguments: copy_call_arguments(&p.arguments),
                },
            ),
            _ => None,
        }
    }
}

impl Value {
    /// Allocate a fresh term node holding `payload`. The handle returned is
    /// distinct from every handle valid before the call: this freshness is
    /// what makes identity equality a hygiene mechanism.
    pub fn new<T: Payload>(arena: &mut Arena, payload: T) -> (v: Value)
        requires
            old(arena).wf(),
            node_wf(payload.as_view(), old(arena)@.len() as int),
        ensures
            final(arena).wf(),
            final(arena)@ =~= old(arena)@.push(payload.as_view()),
            v.slot() == old(arena)@.len(),
            final(arena).valid(v),
            !old(arena).valid(v),
    {
        let n = payload.into_node();
        arena.push_node(n)
    }

    /// Whether this term's variant is the one `T` belongs to.
    pub fn is<T: Payload>(self, arena: &Arena) -> (r: bool)
        requires
            arena.valid(self),
        ensures
            r == T::view_is(arena@[self.slot()]),
    {
        T::from_node(arena.node(self)).is_some()
    }

    /// Extract this term's payload if its variant matches `T`.
    pub fn try_downcast<T: Payload>(self, arena: &Arena) -> (r: Option<T>)
        requires
            arena.valid(self),
        ensures
            match r {
                Some(p) => T::view_is(arena@[self.slot()]) && p.as_view() == arena@[self.slot()],
                None => !T::view_is(arena@[self.slot()]),
            },
    {
        T::from_node(arena.node(self))
    }

    /// Extract this term's payload; the variant must match `T`.
    pub fn downcast<T: Payload>(self, arena: &Arena) -> (r: T)
        requires
            arena.valid(self),
            T::view_is(arena@[self.slot()]),
        ensures
            r.as_view() == arena@[self.slot()],
    {
        let r = self.try_downcast::<T>(arena);
        match r {
            Some(p) => p,
            None => vstd::pervasive::unreached(),
        }
    }
}

/// Identity is the whole of equality: a handle that was valid before some
/// construction can never equal one allocated by it. In particular two
/// separately constructed symbols of the same name are unequal, while any
/// handle is equal to itself.
pub proof fn lemma_fresh_distinct(a: Seq<NodeView>, v1: Value, v2: Value)
    requires
        valid_id(a, v1),
        !valid_id(a, v2),
    ensures
        v1 != v2,
{
}

} // verus!
