//! Lists made by picking from other lists.
use vstd::prelude::*;

verus! {

/// Whether positions pick, in order, every one of the first `n` entries of a
/// list that meets a condition, and no other.
pub open spec fn picks_from<T>(
    xs: Seq<T>,
    n: int,
    at: Seq<int>,
    p: spec_fn(T) -> bool,
) -> bool {
    &&& forall|a: int, b: int| 0 <= a < b < at.len() ==> #[trigger] at[a] < #[trigger] at[b]
    &&& forall|k: int| 0 <= k < at.len() ==> 0 <= #[trigger] at[k] < n && p(xs[at[k]])
    &&& forall|j: int| 0 <= j < n && p(#[trigger] xs[j]) ==> at.contains(j)
}

/// Whether a list holds what is made of the entries of another that meet a
/// condition: one for each, in their order, and nothing else.
pub open spec fn made_of<T, U>(
    ys: Seq<U>,
    xs: Seq<T>,
    n: int,
    p: spec_fn(T) -> bool,
    f: spec_fn(T) -> U,
) -> bool {
    exists|at: Seq<int>| #[trigger]
        picks_from(xs, n, at, p) && at.len() == ys.len() && forall|k: int|
            0 <= k < ys.len() ==> #[trigger] ys[k] == f(xs[at[k]])
}

/// From no entries nothing is made.
pub proof fn lemma_made_of_none<T, U>(
    xs: Seq<T>,
    p: spec_fn(T) -> bool,
    f: spec_fn(T) -> U,
)
    ensures
        made_of(Seq::<U>::empty(), xs, 0, p, f),
{
    assert(picks_from(xs, 0, Seq::<int>::empty(), p));
}

/// One more entry adds what is made of it, if it meets the condition.
pub proof fn lemma_made_of_more<T, U>(
    ys: Seq<U>,
    xs: Seq<T>,
    n: int,
    p: spec_fn(T) -> bool,
    f: spec_fn(T) -> U,
)
    requires
        0 <= n < xs.len(),
        made_of(ys, xs, n, p, f),
    ensures
        p(xs[n]) ==> made_of(ys.push(f(xs[n])), xs, n + 1, p, f),
        !p(xs[n]) ==> made_of(ys, xs, n + 1, p, f),
{
    let at = choose|at: Seq<int>| #[trigger]
        picks_from(xs, n, at, p) && at.len() == ys.len() && forall|k: int|
            0 <= k < ys.len() ==> #[trigger] ys[k] == f(xs[at[k]]);
    if p(xs[n]) {
        let more = at.push(n);
        let zs = ys.push(f(xs[n]));
        assert(picks_from(xs, n + 1, more, p)) by {
            assert forall|j: int| 0 <= j < n + 1 && p(#[trigger] xs[j]) implies more.contains(
                j,
            ) by {
                if j < n {
                    let k = choose|k: int| 0 <= k < at.len() && at[k] == j;
                    assert(more[k] == j);
                } else {
                    assert(more[at.len() as int] == j);
                }
            }
        }
        assert forall|k: int| 0 <= k < zs.len() implies #[trigger] zs[k] == f(xs[more[k]]) by {
            if k < ys.len() {
                assert(zs[k] == ys[k]);
            }
        }
    } else {
        assert(picks_from(xs, n + 1, at, p));
    }
}

/// What is made depends on the entries alone.
pub proof fn lemma_made_of_same<T, U>(
    ys: Seq<U>,
    xs: Seq<T>,
    zs: Seq<T>,
    n: int,
    p: spec_fn(T) -> bool,
    f: spec_fn(T) -> U,
)
    requires
        made_of(ys, xs, n, p, f),
        n <= xs.len(),
        n <= zs.len(),
        forall|i: int| 0 <= i < n ==> #[trigger] xs[i] == zs[i],
    ensures
        made_of(ys, zs, n, p, f),
{
    let at = choose|at: Seq<int>| #[trigger]
        picks_from(xs, n, at, p) && at.len() == ys.len() && forall|k: int|
            0 <= k < ys.len() ==> #[trigger] ys[k] == f(xs[at[k]]);
    assert(picks_from(zs, n, at, p)) by {
        assert forall|k: int| 0 <= k < at.len() implies 0 <= #[trigger] at[k] < n && p(
            zs[at[k]],
        ) by {
            assert(xs[at[k]] == zs[at[k]]);
        }
        assert forall|j: int| 0 <= j < n && p(#[trigger] zs[j]) implies at.contains(j) by {
            assert(xs[j] == zs[j]);
        }
    }
    assert forall|k: int| 0 <= k < ys.len() implies #[trigger] ys[k] == f(zs[at[k]]) by {
        assert(xs[at[k]] == zs[at[k]]);
    }
}

} // verus!
