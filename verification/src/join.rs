//! Join policies, reducers and operators, and the registries they are looked
//! up in.
use std::sync::Arc;

use vstd::prelude::*;
use vstd::string::*;

use crate::error::{EngineError, SpecEngineError};
use crate::ids::NodeId;
use crate::text::same_text;

pub mod laws;

verus! {

/// Which child slot a value corresponds to.
pub type ChildIndex = usize;

/// Success-side completion condition of a fan-out.
#[derive(Debug, Clone, Copy, PartialEq, Eq, Structural)]
pub enum JoinShape {
    /// Every child must complete successfully.
    All,
    /// The first successful child wins; the others are cancelled.
    Any,
    /// The first `k` successful children win; the others are cancelled.
    FirstK(usize),
}

/// Failure-side policy of a fan-out.
#[derive(Debug, Clone, Copy, PartialEq, Eq, Structural)]
pub enum FailPolicy {
    /// A single child failure aborts the fan-out immediately.
    FailFast,
    /// Failures are collected; completion is decided by the successes.
    CollectAll,
}

/// Full policy of a fan-out.
#[derive(Debug, Clone, Copy, PartialEq, Eq, Structural)]
pub struct JoinPolicy {
    /// Success completion condition.
    pub shape: JoinShape,
    /// Failure handling.
    pub fail: FailPolicy,
}

/// Name of a registered reducer.
#[derive(Debug, PartialEq, Eq, Hash)]
pub struct ReducerId(pub String);

/// Name of a registered operator.
#[derive(Debug, PartialEq, Eq, Hash)]
pub struct OpId(pub String);

impl View for ReducerId {
    type V = Seq<char>;

    open spec fn view(&self) -> Seq<char> {
        self.0@
    }
}

impl View for OpId {
    type V = Seq<char>;

    open spec fn view(&self) -> Seq<char> {
        self.0@
    }
}

impl Clone for ReducerId {
    fn clone(&self) -> (out: Self)
        ensures
            out@ == self@,
    {
        ReducerId(self.0.clone())
    }
}

impl Clone for OpId {
    fn clone(&self) -> (out: Self)
        ensures
            out@ == self@,
    {
        OpId(self.0.clone())
    }
}

impl ReducerId {
    /// The name `s`.
    pub fn new(s: &str) -> (out: Self)
        ensures
            out@ == s@,
    {
        ReducerId(s.to_owned())
    }

    /// The name itself.
    pub fn to_text(&self) -> (out: String)
        ensures
            out@ == self@,
    {
        self.0.clone()
    }
}

impl OpId {
    /// The name `s`.
    pub fn new(s: &str) -> (out: Self)
        ensures
            out@ == s@,
    {
        OpId(s.to_owned())
    }

    /// The name itself.
    pub fn to_text(&self) -> (out: String)
        ensures
            out@ == self@,
    {
        self.0.clone()
    }
}

impl vstd::std_specs::convert::FromSpecImpl<String> for ReducerId {
    open spec fn obeys_from_spec() -> bool {
        true
    }

    open spec fn from_spec(s: String) -> ReducerId {
        ReducerId(s)
    }
}

impl From<String> for ReducerId {
    fn from(s: String) -> (out: Self) {
        ReducerId(s)
    }
}

impl vstd::std_specs::convert::FromSpecImpl<String> for OpId {
    open spec fn obeys_from_spec() -> bool {
        true
    }

    open spec fn from_spec(s: String) -> OpId {
        OpId(s)
    }
}

impl From<String> for OpId {
    fn from(s: String) -> (out: Self) {
        OpId(s)
    }
}

impl<'a> vstd::std_specs::convert::FromSpecImpl<&'a str> for ReducerId {
    open spec fn obeys_from_spec() -> bool {
        false
    }

    open spec fn from_spec(s: &'a str) -> ReducerId {
        arbitrary()
    }
}

impl<'a> From<&'a str> for ReducerId {
    fn from(s: &'a str) -> (out: Self)
        ensures
            out@ == s@,
    {
        ReducerId::new(s)
    }
}

impl<'a> vstd::std_specs::convert::FromSpecImpl<&'a str> for OpId {
    open spec fn obeys_from_spec() -> bool {
        false
    }

    open spec fn from_spec(s: &'a str) -> OpId {
        arbitrary()
    }
}

impl<'a> From<&'a str> for OpId {
    fn from(s: &'a str) -> (out: Self)
        ensures
            out@ == s@,
    {
        OpId::new(s)
    }
}

/// A value that several owners share.
pub struct Shared<T: ?Sized> {
    /// The value itself.
    pub inner: Arc<T>,
}

impl<T: ?Sized> Shared<T> {
    /// Shares what is already behind an `Arc`.
    pub fn new(inner: Arc<T>) -> (out: Self)
        ensures
            out.inner == inner,
    {
        Shared { inner }
    }

    /// `Arc::clone`: one more owner of the same value.
    #[verifier::external_body]
    pub(crate) fn share(&self) -> (out: Self)
        ensures
            out == *self,
    {
        Shared { inner: Arc::clone(&self.inner) }
    }
}

/// A reducer of a fan-out that aborts on the first failure. It sees
/// successful joins only, and what it answers depends on what it is given.
pub trait Reducer<V, D>: Send + Sync {
    /// What the reducer makes of a join.
    spec fn reduction(
        &self,
        slots: Seq<Option<V>>,
        deltas: Seq<Option<D>>,
        winners: Seq<ChildIndex>,
    ) -> Result<(V, D), SpecEngineError>;

    /// Folds slots, deltas and completion order into one value and delta.
    fn reduce(
        &self,
        slots: &[Option<V>],
        deltas: &[Option<D>],
        winners: &[ChildIndex],
    ) -> (out: Result<(V, D), EngineError>)
        ensures
            match out {
                Ok(p) => self.reduction(slots@, deltas@, winners@) == Ok::<
                    (V, D),
                    SpecEngineError,
                >(p),
                Err(e) => self.reduction(slots@, deltas@, winners@) == Err::<
                    (V, D),
                    SpecEngineError,
                >(e@),
            },
    ;
}

/// A reducer of a fan-out that collects failures. It sees the outcome of
/// every child, and what it answers depends on what it is given.
pub trait ReducerCollectAll<V, D, EffectError>: Send + Sync {
    /// What the reducer makes of a join.
    spec fn reduction(
        &self,
        slots: Seq<Option<Result<V, EffectError>>>,
        deltas: Seq<Option<D>>,
        winners: Seq<ChildIndex>,
    ) -> Result<(V, D), SpecEngineError>;

    /// Folds slots, deltas and completion order into one value and delta.
    fn reduce(
        &self,
        slots: &[Option<Result<V, EffectError>>],
        deltas: &[Option<D>],
        winners: &[ChildIndex],
    ) -> (out: Result<(V, D), EngineError>)
        ensures
            match out {
                Ok(p) => self.reduction(slots@, deltas@, winners@) == Ok::<
                    (V, D),
                    SpecEngineError,
                >(p),
                Err(e) => self.reduction(slots@, deltas@, winners@) == Err::<
                    (V, D),
                    SpecEngineError,
                >(e@),
            },
    ;
}

/// The resolved reducer of a fan-out.
#[verifier::reject_recursive_types(V)]
#[verifier::reject_recursive_types(D)]
#[verifier::reject_recursive_types(EE)]
pub enum ReducerHandle<V, D, EE> {
    /// A reducer that aborts on the first failure.
    FailFast(Shared<dyn Reducer<V, D>>),
    /// A reducer that collects failures.
    CollectAll(Shared<dyn ReducerCollectAll<V, D, EE>>),
}

impl<V, D, EE> Clone for ReducerHandle<V, D, EE> {
    fn clone(&self) -> (out: Self)
        ensures
            out == *self,
    {
        match self {
            ReducerHandle::FailFast(r) => ReducerHandle::FailFast(r.share()),
            ReducerHandle::CollectAll(r) => ReducerHandle::CollectAll(r.share()),
        }
    }
}

/// Lookup table of reducers, by name and failure policy.
#[verifier::reject_recursive_types(V)]
#[verifier::reject_recursive_types(D)]
#[verifier::reject_recursive_types(EE)]
pub struct ReducerRegistry<V, D, EE> {
    fail_fast: Vec<(ReducerId, Shared<dyn Reducer<V, D>>)>,
    collect_all: Vec<(ReducerId, Shared<dyn ReducerCollectAll<V, D, EE>>)>,
}

/// The map that a list of entries stands for; a later entry of one name
/// replaces an earlier one.
pub open spec fn by_reducer<H>(es: Seq<(ReducerId, H)>) -> Map<Seq<char>, H>
    decreases es.len(),
{
    if es.len() == 0 {
        Map::empty()
    } else {
        by_reducer(es.drop_last()).insert(es.last().0@, es.last().1)
    }
}

fn find_reducer<'a, H>(es: &'a Vec<(ReducerId, H)>, id: &ReducerId) -> (out: Option<&'a H>)
    ensures
        match out {
            Some(h) => by_reducer(es@).contains_key(id@) && by_reducer(es@)[id@] == *h,
            None => !by_reducer(es@).contains_key(id@),
        },
{
    let mut n: usize = es.len();
    assert(es@.take(n as int) =~= es@);
    while n > 0
        invariant
            n <= es.len(),
            by_reducer(es@).contains_key(id@) == by_reducer(es@.take(n as int)).contains_key(id@),
            by_reducer(es@).contains_key(id@) ==> by_reducer(es@)[id@] == by_reducer(
                es@.take(n as int),
            )[id@],
        decreases n,
    {
        let e = &es[n - 1];
        proof {
            let front = es@.take(n as int);
            assert(front.drop_last() =~= es@.take(n - 1));
            assert(front.last() == *e);
        }
        if same_text(e.0.0.as_str(), id.0.as_str()) {
            return Some(&e.1);
        }
        n -= 1;
    }
    None
}

impl<V, D, EE> ReducerRegistry<V, D, EE> {
    /// The reducers that abort on the first failure, by name.
    pub closed spec fn fail_fast_map(&self) -> Map<Seq<char>, Shared<dyn Reducer<V, D>>> {
        by_reducer(self.fail_fast@)
    }

    /// The reducers that collect failures, by name.
    pub closed spec fn collect_all_map(&self) -> Map<
        Seq<char>,
        Shared<dyn ReducerCollectAll<V, D, EE>>,
    > {
        by_reducer(self.collect_all@)
    }

    /// The reducer of a name and a failure policy.
    pub open spec fn resolved(&self, id: Seq<char>, fail: FailPolicy) -> Option<
        ReducerHandle<V, D, EE>,
    > {
        match fail {
            FailPolicy::FailFast => if self.fail_fast_map().contains_key(id) {
                Some(ReducerHandle::FailFast(self.fail_fast_map()[id]))
            } else {
                None
            },
            FailPolicy::CollectAll => if self.collect_all_map().contains_key(id) {
                Some(ReducerHandle::CollectAll(self.collect_all_map()[id]))
            } else {
                None
            },
        }
    }

    /// An empty registry.
    pub fn new() -> (out: Self)
        ensures
            out.fail_fast_map() == Map::<Seq<char>, Shared<dyn Reducer<V, D>>>::empty(),
            out.collect_all_map() == Map::<
                Seq<char>,
                Shared<dyn ReducerCollectAll<V, D, EE>>,
            >::empty(),
    {
        ReducerRegistry { fail_fast: Vec::new(), collect_all: Vec::new() }
    }

    /// Registers a reducer that aborts on the first failure under `id`.
    pub fn register_fail_fast(&mut self, id: ReducerId, reducer: Shared<dyn Reducer<V, D>>)
        ensures
            final(self).fail_fast_map() == old(self).fail_fast_map().insert(id@, reducer),
            final(self).collect_all_map() == old(self).collect_all_map(),
    {
        let ghost before = self.fail_fast@;
        self.fail_fast.push((id, reducer));
        assert(self.fail_fast@.drop_last() =~= before);
    }

    /// Registers a reducer that collects failures under `id`.
    pub fn register_collect_all(
        &mut self,
        id: ReducerId,
        reducer: Shared<dyn ReducerCollectAll<V, D, EE>>,
    )
        ensures
            final(self).collect_all_map() == old(self).collect_all_map().insert(id@, reducer),
            final(self).fail_fast_map() == old(self).fail_fast_map(),
    {
        let ghost before = self.collect_all@;
        self.collect_all.push((id, reducer));
        assert(self.collect_all@.drop_last() =~= before);
    }

    /// The reducer registered under `id` for the policy `fail`.
    pub fn resolve(&self, id: &ReducerId, fail: FailPolicy) -> (out: Result<
        ReducerHandle<V, D, EE>,
        EngineError,
    >)
        ensures
            match out {
                Ok(h) => self.resolved(id@, fail) == Some(h),
                Err(e) => self.resolved(id@, fail) is None && e@
                    == (SpecEngineError::UnknownReducer { id: id@ }),
            },
    {
        match fail {
            FailPolicy::FailFast => match find_reducer(&self.fail_fast, id) {
                Some(r) => Ok(ReducerHandle::FailFast(r.share())),
                None => Err(EngineError::UnknownReducer { id: id.clone() }),
            },
            FailPolicy::CollectAll => match find_reducer(&self.collect_all, id) {
                Some(r) => Ok(ReducerHandle::CollectAll(r.share())),
                None => Err(EngineError::UnknownReducer { id: id.clone() }),
            },
        }
    }
}

impl<V, D, EE> Default for ReducerRegistry<V, D, EE> {
    fn default() -> (out: Self)
        ensures
            out.fail_fast_map() == Map::<Seq<char>, Shared<dyn Reducer<V, D>>>::empty(),
            out.collect_all_map() == Map::<
                Seq<char>,
                Shared<dyn ReducerCollectAll<V, D, EE>>,
            >::empty(),
    {
        ReducerRegistry::new()
    }
}

/// A pure value fold applied once every argument has produced a value.
pub trait Op<V>: Send + Sync {
    /// What the arguments fold into.
    spec fn folded(&self, node: NodeId, args: Seq<V>) -> Result<V, SpecEngineError>;

    /// Folds the evaluated arguments into the node's value.
    fn apply(&self, node: NodeId, args: &[V]) -> (out: Result<V, EngineError>)
        ensures
            match out {
                Ok(v) => self.folded(node, args@) == Ok::<V, SpecEngineError>(v),
                Err(e) => self.folded(node, args@) == Err::<V, SpecEngineError>(e@),
            },
    ;
}

/// The resolved operator of a node.
pub type OpHandle<V> = Shared<dyn Op<V>>;

/// Lookup table of operators, by name.
#[verifier::reject_recursive_types(V)]
pub struct OpRegistry<V> {
    ops: Vec<(OpId, Shared<dyn Op<V>>)>,
}

/// The map that a list of entries stands for; a later entry of one name
/// replaces an earlier one.
pub open spec fn by_op<H>(es: Seq<(OpId, H)>) -> Map<Seq<char>, H>
    decreases es.len(),
{
    if es.len() == 0 {
        Map::empty()
    } else {
        by_op(es.drop_last()).insert(es.last().0@, es.last().1)
    }
}

impl<V> OpRegistry<V> {
    /// The operators, by name.
    pub closed spec fn op_map(&self) -> Map<Seq<char>, Shared<dyn Op<V>>> {
        by_op(self.ops@)
    }

    /// An empty registry.
    pub fn new() -> (out: Self)
        ensures
            out.op_map() == Map::<Seq<char>, Shared<dyn Op<V>>>::empty(),
    {
        OpRegistry { ops: Vec::new() }
    }

    /// Registers an operator under `id`.
    pub fn register(&mut self, id: OpId, op: Shared<dyn Op<V>>)
        ensures
            final(self).op_map() == old(self).op_map().insert(id@, op),
    {
        let ghost before = self.ops@;
        self.ops.push((id, op));
        assert(self.ops@.drop_last() =~= before);
    }

    /// The operator registered under `id`.
    pub fn resolve(&self, id: &OpId) -> (out: Result<Shared<dyn Op<V>>, EngineError>)
        ensures
            match out {
                Ok(op) => self.op_map().contains_key(id@) && op == self.op_map()[id@],
                Err(e) => !self.op_map().contains_key(id@) && e@ == (SpecEngineError::UnknownOp {
                    id: id@,
                }),
            },
    {
        let mut n: usize = self.ops.len();
        assert(self.ops@.take(n as int) =~= self.ops@);
        while n > 0
            invariant
                n <= self.ops.len(),
                by_op(self.ops@).contains_key(id@) == by_op(self.ops@.take(n as int)).contains_key(
                    id@,
                ),
                by_op(self.ops@).contains_key(id@) ==> by_op(self.ops@)[id@] == by_op(
                    self.ops@.take(n as int),
                )[id@],
            decreases n,
        {
            let e = &self.ops[n - 1];
            proof {
                let front = self.ops@.take(n as int);
                assert(front.drop_last() =~= self.ops@.take(n - 1));
                assert(front.last() == *e);
            }
            if same_text(e.0.0.as_str(), id.0.as_str()) {
                return Ok(e.1.share());
            }
            n -= 1;
        }
        Err(EngineError::UnknownOp { id: id.clone() })
    }
}

impl<V> Default for OpRegistry<V> {
    fn default() -> (out: Self)
        ensures
            out.op_map() == Map::<Seq<char>, Shared<dyn Op<V>>>::empty(),
    {
        OpRegistry::new()
    }
}

} // verus!
