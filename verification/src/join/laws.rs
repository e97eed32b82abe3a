//! What registries find.
use vstd::prelude::*;

use crate::join::{by_op, by_reducer, FailPolicy, OpId, ReducerId, ReducerRegistry};

verus! {

/// A reducer is found under a name exactly where one was registered under it,
/// and it is the last that was.
pub proof fn law_the_last_reducer_of_a_name_is_found<H>(
    es: Seq<(ReducerId, H)>,
    name: Seq<char>,
    i: int,
)
    ensures
        by_reducer(es).contains_key(name) <==> exists|k: int|
            0 <= k < es.len() && (#[trigger] es[k]).0@ == name,
        0 <= i < es.len() && es[i].0@ == name && (forall|k: int|
            i < k < es.len() ==> (#[trigger] es[k]).0@ != name) ==> by_reducer(es)[name]
            == es[i].1,
    decreases es.len(),
{
    if es.len() > 0 {
        let init = es.drop_last();
        law_the_last_reducer_of_a_name_is_found(init, name, i);
        let last = es.len() - 1;
        assert(es[last] == es.last());
        assert(by_reducer(es).contains_key(name) <==> exists|k: int|
            0 <= k < es.len() && (#[trigger] es[k]).0@ == name) by {
            if exists|k: int| 0 <= k < es.len() && (#[trigger] es[k]).0@ == name {
                let k = choose|k: int| 0 <= k < es.len() && (#[trigger] es[k]).0@ == name;
                if k < last {
                    assert(init[k].0@ == name);
                }
            }
            if by_reducer(init).contains_key(name) {
                let k = choose|k: int| 0 <= k < init.len() && (#[trigger] init[k]).0@ == name;
                assert(es[k].0@ == name);
            }
        }
        if 0 <= i < last && es[i].0@ == name && (forall|k: int|
            i < k < es.len() ==> (#[trigger] es[k]).0@ != name) {
            assert(init[i] == es[i]);
            assert(es[last].0@ != name);
            assert forall|k: int| i < k < init.len() implies (#[trigger] init[k]).0@ != name by {
                assert(es[k].0@ != name);
            }
        }
    }
}

/// An operator is found under a name exactly where one was registered under
/// it, and it is the last that was.
pub proof fn law_the_last_operator_of_a_name_is_found<H>(
    es: Seq<(OpId, H)>,
    name: Seq<char>,
    i: int,
)
    ensures
        by_op(es).contains_key(name) <==> exists|k: int|
            0 <= k < es.len() && (#[trigger] es[k]).0@ == name,
        0 <= i < es.len() && es[i].0@ == name && (forall|k: int|
            i < k < es.len() ==> (#[trigger] es[k]).0@ != name) ==> by_op(es)[name] == es[i].1,
    decreases es.len(),
{
    if es.len() > 0 {
        let init = es.drop_last();
        law_the_last_operator_of_a_name_is_found(init, name, i);
        let last = es.len() - 1;
        assert(es[last] == es.last());
        assert(by_op(es).contains_key(name) <==> exists|k: int|
            0 <= k < es.len() && (#[trigger] es[k]).0@ == name) by {
            if exists|k: int| 0 <= k < es.len() && (#[trigger] es[k]).0@ == name {
                let k = choose|k: int| 0 <= k < es.len() && (#[trigger] es[k]).0@ == name;
                if k < last {
                    assert(init[k].0@ == name);
                }
            }
            if by_op(init).contains_key(name) {
                let k = choose|k: int| 0 <= k < init.len() && (#[trigger] init[k]).0@ == name;
                assert(es[k].0@ == name);
            }
        }
        if 0 <= i < last && es[i].0@ == name && (forall|k: int|
            i < k < es.len() ==> (#[trigger] es[k]).0@ != name) {
            assert(init[i] == es[i]);
            assert(es[last].0@ != name);
            assert forall|k: int| i < k < init.len() implies (#[trigger] init[k]).0@ != name by {
                assert(es[k].0@ != name);
            }
        }
    }
}

/// A reducer is found for the failure policy that it was registered for, and
/// for that one only.
pub proof fn law_policies_have_reducers_of_their_own<V, D, EE>(
    r: ReducerRegistry<V, D, EE>,
    name: Seq<char>,
)
    ensures
        r.resolved(name, FailPolicy::FailFast) matches Some(h) ==> h is FailFast
            && r.fail_fast_map().contains_key(name) && h->FailFast_0 == r.fail_fast_map()[name],
        r.resolved(name, FailPolicy::CollectAll) matches Some(h) ==> h is CollectAll
            && r.collect_all_map().contains_key(name) && h->CollectAll_0
            == r.collect_all_map()[name],
        r.resolved(name, FailPolicy::FailFast) is None ==> !r.fail_fast_map().contains_key(name),
        r.resolved(name, FailPolicy::CollectAll) is None ==> !r.collect_all_map().contains_key(
            name,
        ),
{
}

} // verus!
