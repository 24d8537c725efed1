//! The mutable store the evaluator threads through: symbol bindings, the
//! intrinsic registry, and the operand stack used by in-language save and
//! restore disciplines. One context per evaluation session, always passed
//! explicitly.

use vstd::prelude::*;

use crate::term::Arena;
use crate::term::NodeView;
use crate::term::Value;
use crate::term::valid_id;

verus! {

/// Why an evaluation aborted. Every failure here is a programmer error in
/// the hosted symbolic program and ends the evaluation at once; no partial
/// result is returned.
#[derive(Clone, Copy, PartialEq, Eq, Structural, Debug)]
pub enum EvalError {
    /// A required downcast saw the wrong variant: applying a value that is
    /// not a function, a formal list that is not a tuple of symbols, a
    /// dereference or assignment target that is not a symbol.
    VariantMismatch,
    /// An application's actual argument count differs from the function's
    /// formal parameter count.
    ArityMismatch,
    /// The evaluated operand of a `Release` is not a `Hold`.
    ReleaseWithoutHold,
    /// An intrinsic call named a symbol with no registered native function.
    IntrinsicNotFound,
    /// The operand stack was popped while empty.
    EmptyStack,
    /// The step budget handed to the evaluator ran out before a fixed point
    /// was reached; the hosted program may not terminate at all.
    OutOfFuel,
}

/// The association map a key-value sequence denotes; later entries override
/// earlier ones (the context keeps keys unique, so the order never matters).
pub open spec fn assoc_map<T>(s: Seq<(Value, T)>) -> Map<Value, T>
    decreases s.len(),
{
    if s.len() == 0 {
        Map::empty()
    } else {
        assoc_map(s.drop_last()).insert(s.last().0, s.last().1)
    }
}

/// No key occurs twice.
pub open spec fn distinct_keys<T>(s: Seq<(Value, T)>) -> bool {
    forall|i: int, j: int| 0 <= i < j < s.len() ==> (#[trigger] s[i]).0 != (#[trigger] s[j]).0
}

/// A key is in the association map exactly when some entry carries it.
pub proof fn lemma_assoc_dom<T>(s: Seq<(Value, T)>, k: Value)
    ensures
        assoc_map(s).dom().contains(k) <==> exists|i: int| 0 <= i < s.len() && (#[trigger] s[i]).0
            == k,
    decreases s.len(),
{
    if s.len() == 0 {
    } else {
        lemma_assoc_dom(s.drop_last(), k);
        if s.last().0 == k {
            assert(s[s.len() - 1].0 == k);
        }
        if exists|i: int| 0 <= i < s.len() && (#[trigger] s[i]).0 == k {
            let i = choose|i: int| 0 <= i < s.len() && (#[trigger] s[i]).0 == k;
            if i < s.len() - 1 {
                assert(s.drop_last()[i].0 == k);
            }
        }
    }
}

/// With unique keys, the entry at any index is what the map stores for its
/// key.
pub proof fn lemma_assoc_get<T>(s: Seq<(Value, T)>, i: int)
    requires
        distinct_keys(s),
        0 <= i < s.len(),
    ensures
        assoc_map(s).dom().contains(s[i].0),
        assoc_map(s)[s[i].0] == s[i].1,
    decreases s.len(),
{
    if i == s.len() - 1 {
    } else {
        assert(distinct_keys(s.drop_last())) by {
            assert(forall|x: int, y: int|
                0 <= x < y < s.drop_last().len() ==> (#[trigger] s.drop_last()[x]).0 != (
                #[trigger] s.drop_last()[y]).0);
        }
        lemma_assoc_get(s.drop_last(), i);
        assert(s.drop_last()[i] == s[i]);
        assert(s.last().0 != s[i].0);
    }
}

/// Overwriting the entry that holds a key updates the map at that key.
pub proof fn lemma_assoc_update<T>(s: Seq<(Value, T)>, i: int, v: T)
    requires
        distinct_keys(s),
        0 <= i < s.len(),
    ensures
        assoc_map(s.update(i, (s[i].0, v))) =~= assoc_map(s).insert(s[i].0, v),
    decreases s.len(),
{
    let t = s.update(i, (s[i].0, v));
    if i == s.len() - 1 {
        assert(t.drop_last() =~= s.drop_last());
        assert(t.last() == (s[i].0, v));
    } else {
        assert(distinct_keys(s.drop_last())) by {
            assert(forall|x: int, y: int|
                0 <= x < y < s.drop_last().len() ==> (#[trigger] s.drop_last()[x]).0 != (
                #[trigger] s.drop_last()[y]).0);
        }
        lemma_assoc_update(s.drop_last(), i, v);
        assert(t.drop_last() =~= s.drop_last().update(i, (s[i].0, v)));
        assert(t.last() == s.last());
        assert(s.last().0 != s[i].0);
    }
}

/// Appending a new entry inserts its key.
pub proof fn lemma_assoc_push<T>(s: Seq<(Value, T)>, k: Value, v: T)
    ensures
        assoc_map(s.push((k, v))) =~= assoc_map(s).insert(k, v),
{
    assert(s.push((k, v)).drop_last() =~= s);
}

/// The mutable evaluation state: current symbol bindings, the registry of
/// native functions, and the operand stack. `F` is the embedder's intrinsic
/// dispatcher, see [`Intrinsic`].
pub struct ExecutionContext<F> {
    values: Vec<(Value, Value)>,
    intrinsics: Vec<(Value, F)>,
    stack: Vec<Value>,
}

/// One native function dispatcher. The evaluator knows nothing about what a
/// native function computes; it relies only on this contract, which says
/// that whatever the function does, it leaves the term arena grown but
/// otherwise untouched, keeps the context well-formed, and hands back a
/// valid term.
pub trait Intrinsic: Sized + Clone {
    /// Run the native function on the already policy-resolved arguments.
    fn call(
        &self,
        context: &mut ExecutionContext<Self>,
        arena: &mut Arena,
        arguments: Vec<Value>,
    ) -> (r: Result<Value, EvalError>)
        requires
            old(context).wf(),
            old(context).valid_in(old(arena)@),
            old(arena).wf(),
            forall|i: int|
                0 <= i < arguments@.len() ==> valid_id(old(arena)@, #[trigger] arguments@[i]),
        ensures
            final(arena).wf(),
            old(arena)@.is_prefix_of(final(arena)@),
            final(context).wf(),
            final(context).valid_in(final(arena)@),
            match r {
                Ok(v) => valid_id(final(arena)@, v),
                Err(_) => true,
            },
    ;
}

impl<F> ExecutionContext<F> {
    /// The current bindings, as a map from symbol identity to bound term.
    pub closed spec fn bindings(self) -> Map<Value, Value> {
        assoc_map(self.values@)
    }

    /// The registered intrinsics, as a map from symbol identity to native
    /// function.
    pub closed spec fn intrinsics_map(self) -> Map<Value, F> {
        assoc_map(self.intrinsics@)
    }

    /// The operand stack, bottom first.
    pub closed spec fn stack_view(self) -> Seq<Value> {
        self.stack@
    }

    /// Keys in both registries are unique, so the association sequences
    /// denote their maps unambiguously.
    pub closed spec fn wf(self) -> bool {
        distinct_keys(self.values@) && distinct_keys(self.intrinsics@)
    }

    /// Every handle the context stores names a slot of the arena `a`.
    pub closed spec fn valid_in(self, a: Seq<NodeView>) -> bool {
        &&& forall|i: int|
            0 <= i < self.values@.len() ==> valid_id(a, (#[trigger] self.values@[i]).0) && valid_id(
                a,
                self.values@[i].1,
            )
        &&& forall|i: int|
            0 <= i < self.intrinsics@.len() ==> valid_id(a, (#[trigger] self.intrinsics@[i]).0)
        &&& forall|i: int| 0 <= i < self.stack@.len() ==> valid_id(a, #[trigger] self.stack@[i])
    }

    /// An empty context: no bindings, no intrinsics, an empty stack.
    pub fn new() -> (c: ExecutionContext<F>)
        ensures
            c.wf(),
            c.bindings() =~= Map::<Value, Value>::empty(),
            c.intrinsics_map() =~= Map::<Value, F>::empty(),
            c.stack_view() =~= Seq::<Value>::empty(),
            forall|a: Seq<NodeView>| #[trigger] c.valid_in(a),
    {
        ExecutionContext { values: Vec::new(), intrinsics: Vec::new(), stack: Vec::new() }
    }

    /// Bind a symbol to a value, inserting or overwriting.
    pub fn bind(&mut self, symbol: Value, value: Value)
        requires
            old(self).wf(),
        ensures
            final(self).wf(),
            final(self).bindings() =~= old(self).bindings().insert(symbol, value),
            final(self).intrinsics_map() == old(self).intrinsics_map(),
            final(self).stack_view() == old(self).stack_view(),
            forall|a: Seq<NodeView>|
                old(self).valid_in(a) && valid_id(a, symbol) && valid_id(a, value)
                    ==> #[trigger] final(self).valid_in(a),
    {
        let n = self.values.len();
        let mut i: usize = 0;
        while i < n
            invariant
                *self == *old(self),
                self.wf(),
                n == self.values@.len(),
                i <= n,
                forall|j: int| 0 <= j < i ==> (#[trigger] self.values@[j]).0 != symbol,
            decreases n - i,
        {
            if self.values[i].0 == symbol {
                let ghost s = self.values@;
                self.values.set(i, (symbol, value));
                proof {
                    assert(s[i as int].0 == symbol);
                    lemma_assoc_update(s, i as int, value);
                    assert(self.values@ =~= s.update(i as int, (s[i as int].0, value)));
                    assert(distinct_keys(self.values@)) by {
                        assert(forall|j: int|
                            0 <= j < self.values@.len() ==> (#[trigger] self.values@[j]).0
                                == s[j].0);
                    }
                }
                return ;
            }
            i = i + 1;
        }
        let ghost s = self.values@;
        self.values.push((symbol, value));
        proof {
            lemma_assoc_push(s, symbol, value);
            lemma_assoc_dom(s, symbol);
            assert(self.values@ =~= s.push((symbol, value)));
            assert(distinct_keys(self.values@)) by {
                assert(forall|j: int| 0 <= j < s.len() ==> (#[trigger] s[j]).0 != symbol);
            }
        }
    }

    /// Look a symbol up in the current bindings.
    pub fn lookup(&self, symbol: Value) -> (r: Option<Value>)
        requires
            self.wf(),
        ensures
            match r {
                Some(v) => self.bindings().dom().contains(symbol) && v == self.bindings()[symbol],
                None => !self.bindings().dom().contains(symbol),
            },
    {
        let n = self.values.len();
        let mut i: usize = 0;
        while i < n
            invariant
                self.wf(),
                n == self.values@.len(),
                i <= n,
                forall|j: int| 0 <= j < i ==> (#[trigger] self.values@[j]).0 != symbol,
            decreases n - i,
        {
            if self.values[i].0 == symbol {
                proof {
                    lemma_assoc_get(self.values@, i as int);
                }
                return Some(self.values[i].1);
            }
            i = i + 1;
        }
        proof {
            lemma_assoc_dom(self.values@, symbol);
        }
        None
    }

    /// Register a native function under a symbol, inserting or overwriting.
    pub fn register_intrinsic(&mut self, symbol: Value, function: F)
        requires
            old(self).wf(),
        ensures
            final(self).wf(),
            final(self).intrinsics_map() =~= old(self).intrinsics_map().insert(symbol, function),
            final(self).bindings() == old(self).bindings(),
            final(self).stack_view() == old(self).stack_view(),
            forall|a: Seq<NodeView>|
                old(self).valid_in(a) && valid_id(a, symbol) ==> #[trigger] final(self).valid_in(
                    a,
                ),
    {
        let n = self.intrinsics.len();
        let mut i: usize = 0;
        while i < n
            invariant
                *self == *old(self),
                self.wf(),
                n == self.intrinsics@.len(),
                i <= n,
                forall|j: int| 0 <= j < i ==> (#[trigger] self.intrinsics@[j]).0 != symbol,
            decreases n - i,
        {
            if self.intrinsics[i].0 == symbol {
                let ghost s = self.intrinsics@;
                self.intrinsics.set(i, (symbol, function));
                proof {
                    assert(s[i as int].0 == symbol);
                    lemma_assoc_update(s, i as int, function);
                    assert(self.intrinsics@ =~= s.update(i as int, (s[i as int].0, function)));
                    assert(distinct_keys(self.intrinsics@)) by {
                        assert(forall|j: int|
                            0 <= j < self.intrinsics@.len() ==> (#[trigger] self.intrinsics@[j]).0
                                == s[j].0);
                    }
                }
                return ;
            }
            i = i + 1;
        }
        let ghost s = self.intrinsics@;
        self.intrinsics.push((symbol, function));
        proof {
            lemma_assoc_push(s, symbol, function);
            lemma_assoc_dom(s, symbol);
            assert(self.intrinsics@ =~= s.push((symbol, function)));
            assert(distinct_keys(self.intrinsics@)) by {
                assert(forall|j: int| 0 <= j < s.len() ==> (#[trigger] s[j]).0 != symbol);
            }
        }
    }

    /// Push a term onto the operand stack.
    pub fn push(&mut self, value: Value)
        ensures
            final(self).stack_view() =~= old(self).stack_view().push(value),
            final(self).bindings() == old(self).bindings(),
            final(self).intrinsics_map() == old(self).intrinsics_map(),
            final(self).wf() == old(self).wf(),
            forall|a: Seq<NodeView>|
                old(self).valid_in(a) && valid_id(a, value) ==> #[trigger] final(self).valid_in(a),
    {
        self.stack.push(value);
    }

    /// Pop the most recently pushed term; popping an empty stack is the
    /// fatal stack-underflow error.
    pub fn pop(&mut self) -> (r: Result<Value, EvalError>)
        ensures
            final(self).bindings() == old(self).bindings(),
            final(self).intrinsics_map() == old(self).intrinsics_map(),
            final(self).wf() == old(self).wf(),
            match r {
                Ok(v) => old(self).stack_view().len() > 0 && v == old(self).stack_view().last()
                    && final(self).stack_view() =~= old(self).stack_view().drop_last(),
                Err(e) => e == EvalError::EmptyStack && old(self).stack_view().len() == 0
                    && final(self).stack_view() == old(self).stack_view(),
            },
            forall|a: Seq<NodeView>|
                old(self).valid_in(a) ==> #[trigger] final(self).valid_in(a),
    {
        match self.stack.pop() {
            Some(v) => Ok(v),
            None => Err(EvalError::EmptyStack),
        }
    }
}

impl<F: Intrinsic> ExecutionContext<F> {
    /// Call the native function registered under `symbol` on the given
    /// arguments; an unregistered symbol is the fatal intrinsic-not-found
    /// error.
    pub fn call_intrinsic(
        &mut self,
        arena: &mut Arena,
        symbol: Value,
        arguments: Vec<Value>,
    ) -> (r: Result<Value, EvalError>)
        requires
            old(self).wf(),
            old(self).valid_in(old(arena)@),
            old(arena).wf(),
            forall|i: int|
                0 <= i < arguments@.len() ==> valid_id(old(arena)@, #[trigger] arguments@[i]),
        ensures
            final(arena).wf(),
            old(arena)@.is_prefix_of(final(arena)@),
            final(self).wf(),
            final(self).valid_in(final(arena)@),
            match r {
                Ok(v) => old(self).intrinsics_map().dom().contains(symbol) && valid_id(
                    final(arena)@,
                    v,
                ),
                Err(_) => true,
            },
            !old(self).intrinsics_map().dom().contains(symbol) ==> r
                == Result::<Value, EvalError>::Err(EvalError::IntrinsicNotFound)
                && *final(self) == *old(self) && final(arena)@ == old(arena)@,
    {
        let n = self.intrinsics.len();
        let mut i: usize = 0;
        while i < n
            invariant
                *self == *old(self),
                *arena == *old(arena),
                self.wf(),
                self.valid_in(arena@),
                arena.wf(),
                forall|k: int|
                    0 <= k < arguments@.len() ==> valid_id(arena@, #[trigger] arguments@[k]),
                n == self.intrinsics@.len(),
                i <= n,
                forall|j: int| 0 <= j < i ==> (#[trigger] self.intrinsics@[j]).0 != symbol,
            decreases n - i,
        {
            if self.intrinsics[i].0 == symbol {
                proof {
                    lemma_assoc_get(self.intrinsics@, i as int);
                    assert(self.intrinsics@[i as int].0 == symbol);
                    assert(old(self).intrinsics_map().dom().contains(symbol));
                }
                let f = self.intrinsics[i].1.clone();
                let r = f.call(self, arena, arguments);
                return r;
            }
            i = i + 1;
        }
        proof {
            lemma_assoc_dom(self.intrinsics@, symbol);
        }
        Err(EvalError::IntrinsicNotFound)
    }
}

/// A bound value is valid wherever the context is.
pub proof fn lemma_binding_value_valid<F>(c: ExecutionContext<F>, a: Seq<NodeView>, k: Value)
    requires
        c.wf(),
        c.valid_in(a),
        c.bindings().dom().contains(k),
    ensures
        valid_id(a, c.bindings()[k]),
{
    lemma_assoc_dom(c.values@, k);
    let i = choose|i: int| 0 <= i < c.values@.len() && (#[trigger] c.values@[i]).0 == k;
    lemma_assoc_get(c.values@, i);
}

/// Context validity only mentions slots the arena already has, so growing
/// the arena preserves it.
pub proof fn lemma_valid_in_prefix<F>(
    c: ExecutionContext<F>,
    a1: Seq<NodeView>,
    a2: Seq<NodeView>,
)
    requires
        c.valid_in(a1),
        a1.is_prefix_of(a2),
    ensures
        c.valid_in(a2),
{
}

} // verus!
