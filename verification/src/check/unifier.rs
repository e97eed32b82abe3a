//! What unification finds: bindings without a ring that have exactly the
//! solutions of the two terms taken together.
use vstd::prelude::*;

use crate::check::ir::{SpecFact, SpecPremise, SpecRule, SpecTerm};
use crate::check::solver::{
    check_premises, grounded, grounded_fact, match_children, SlotMap, SpecChildVal, SpecState,
};
use crate::check::tree::SpecTree;
use crate::check::unify::{
    applied, apply_term, apply_terms, bind_var, chain_end, compatible, marked, marked_all,
    marked_fact, occurs_in, resolve_term, unified, unified_facts, unify_prefix, unify_term,
    BindMap, LOOKUP_LIMIT,
};

verus! {

/// Whether the variables that bound terms mention go down in rank from the
/// variable that is bound.
pub open spec fn descends(b: BindMap, rank: spec_fn(Seq<char>) -> nat, top: nat) -> bool {
    &&& b.dom().finite()
    &&& forall|n: Seq<char>| #[trigger] b.contains_key(n) ==> rank(n) < top
    &&& forall|n: Seq<char>, v: Seq<char>|
        b.contains_key(n) && b.contains_key(v) && #[trigger] occurs_in(v, b[n]) ==> rank(v)
            < rank(n)
}

/// Whether no variable stands for a term that comes back to it.
pub open spec fn acyclic(b: BindMap) -> bool {
    exists|rank: spec_fn(Seq<char>) -> nat, top: nat| descends(b, rank, top)
}

/// Whether `b` binds what `a` binds, to the same terms.
pub open spec fn extends(a: BindMap, b: BindMap) -> bool {
    forall|n: Seq<char>| #[trigger] a.contains_key(n) ==> b.contains_key(n) && b[n] == a[n]
}

/// Whether looking up `k` variables inside one another is enough for a term.
pub open spec fn shallow(t: SpecTerm, b: BindMap, k: nat) -> bool
    decreases k, t,
{
    match t {
        SpecTerm::Var(n) => !b.contains_key(n) || (k > 0 && shallow(b[n], b, (k - 1) as nat)),
        SpecTerm::Ctor(_, args) => forall|i: int|
            0 <= i < args.len() ==> shallow(#[trigger] args[i], b, k),
        _ => true,
    }
}

/// A term with every variable replaced.
pub open spec fn subst(t: SpecTerm, s: spec_fn(Seq<char>) -> SpecTerm) -> SpecTerm
    decreases t, 1int,
{
    match t {
        SpecTerm::Var(n) => s(n),
        SpecTerm::Ctor(name, args) => SpecTerm::Ctor(name, subst_all(args, s)),
        _ => t,
    }
}

/// Terms with every variable replaced.
pub open spec fn subst_all(ts: Seq<SpecTerm>, s: spec_fn(Seq<char>) -> SpecTerm) -> Seq<SpecTerm>
    decreases ts, 0int,
{
    Seq::new(
        ts.len(),
        |i: int|
            if 0 <= i < ts.len() {
                subst(ts[i], s)
            } else {
                arbitrary()
            },
    )
}

/// Whether a replacement gives every bound variable what its term becomes.
pub open spec fn solves(s: spec_fn(Seq<char>) -> SpecTerm, b: BindMap) -> bool {
    forall|n: Seq<char>| #[trigger] b.contains_key(n) ==> s(n) == subst(b[n], s)
}

/// Whether a term mentions no payload reference.
pub open spec fn field_free(t: SpecTerm) -> bool
    decreases t,
{
    match t {
        SpecTerm::FieldRef(_) => false,
        SpecTerm::Ctor(_, args) => forall|i: int|
            0 <= i < args.len() ==> field_free(#[trigger] args[i]),
        _ => true,
    }
}

/// Whether no bound term mentions a payload reference.
pub open spec fn field_free_map(b: BindMap) -> bool {
    forall|n: Seq<char>| #[trigger] b.contains_key(n) ==> field_free(b[n])
}

/// Whether a term mentions variables of a set only.
pub open spec fn within(t: SpecTerm, vs: Set<Seq<char>>) -> bool {
    forall|v: Seq<char>| #[trigger] occurs_in(v, t) ==> vs.contains(v)
}

/// Whether bindings speak of variables of a set only.
pub open spec fn within_map(b: BindMap, vs: Set<Seq<char>>) -> bool {
    forall|n: Seq<char>| #[trigger] b.contains_key(n) ==> vs.contains(n) && within(b[n], vs)
}

proof fn lemma_shallow_more(t: SpecTerm, b: BindMap, k: nat, m: nat)
    requires
        shallow(t, b, k),
        k <= m,
    ensures
        shallow(t, b, m),
        apply_term(t, b, k) == apply_term(t, b, m),
    decreases k, t,
{
    match t {
        SpecTerm::Var(n) => {
            if b.contains_key(n) {
                lemma_shallow_more(b[n], b, (k - 1) as nat, (m - 1) as nat);
            }
        },
        SpecTerm::Ctor(_, args) => {
            assert forall|i: int| 0 <= i < args.len() implies shallow(#[trigger] args[i], b, m)
                && apply_term(args[i], b, k) == apply_term(args[i], b, m) by {
                lemma_shallow_more(args[i], b, k, m);
            }
            assert(apply_terms(args, b, k) =~= apply_terms(args, b, m));
        },
        _ => {},
    }
}

/// The bound variables of no higher rank.
spec fn lower(b: BindMap, rank: spec_fn(Seq<char>) -> nat, n: Seq<char>) -> Set<Seq<char>> {
    b.dom().filter(|m: Seq<char>| rank(m) <= rank(n))
}

proof fn lemma_ranked_is_shallow(
    t: SpecTerm,
    b: BindMap,
    rank: spec_fn(Seq<char>) -> nat,
    top: nat,
    limit: nat,
    k: nat,
)
    requires
        descends(b, rank, top),
        forall|v: Seq<char>|
            #[trigger] occurs_in(v, t) && b.contains_key(v) ==> rank(v) < limit && lower(
                b,
                rank,
                v,
            ).len() <= k,
    ensures
        shallow(t, b, k),
    decreases limit, t,
{
    match t {
        SpecTerm::Var(n) => {
            assert(occurs_in(n, t));
            if b.contains_key(n) {
                let here = lower(b, rank, n);
                assert(here.contains(n));
                assert(here.subset_of(b.dom()));
                vstd::set_lib::lemma_len_subset(here, b.dom());
                assert forall|v: Seq<char>| #[trigger]
                    occurs_in(v, b[n]) && b.contains_key(v) implies rank(v) < rank(n) && lower(
                    b,
                    rank,
                    v,
                ).len() <= k - 1 by {
                    let there = lower(b, rank, v);
                    let less = here.remove(n);
                    assert(there.subset_of(less));
                    vstd::set_lib::lemma_len_subset(there, less);
                }
                lemma_ranked_is_shallow(b[n], b, rank, top, rank(n), (k - 1) as nat);
            }
        },
        SpecTerm::Ctor(_, args) => {
            assert forall|i: int| 0 <= i < args.len() implies shallow(#[trigger] args[i], b, k) by {
                assert forall|v: Seq<char>| #[trigger]
                    occurs_in(v, args[i]) && b.contains_key(v) implies rank(v) < limit && lower(
                    b,
                    rank,
                    v,
                ).len() <= k by {
                    lemma_occurs_arg(v, t, i);
                }
                lemma_ranked_is_shallow(args[i], b, rank, top, limit, k);
            }
        },
        _ => {},
    }
}

proof fn lemma_occurs_arg(v: Seq<char>, t: SpecTerm, i: int)
    requires
        t is Ctor,
        0 <= i < t->Ctor_1.len(),
        occurs_in(v, t->Ctor_1[i]),
    ensures
        occurs_in(v, t),
{
}

/// Without a ring, as many lookups as there are bound variables are enough.
proof fn lemma_acyclic_is_shallow(t: SpecTerm, b: BindMap)
    requires
        acyclic(b),
    ensures
        shallow(t, b, b.dom().len()),
{
    let (rank, top) = choose|rank: spec_fn(Seq<char>) -> nat, top: nat| descends(b, rank, top);
    assert forall|v: Seq<char>| #[trigger]
        occurs_in(v, t) && b.contains_key(v) implies rank(v) < top && lower(b, rank, v).len()
        <= b.dom().len() by {
        vstd::set_lib::lemma_len_subset(lower(b, rank, v), b.dom());
    }
    lemma_ranked_is_shallow(t, b, rank, top, top, b.dom().len());
}

/// A bound variable stands for what its term stands for.
pub(crate) proof fn lemma_applied_var(n: Seq<char>, b: BindMap)
    requires
        acyclic(b),
        b.contains_key(n),
    ensures
        applied(SpecTerm::Var(n), b) == applied(b[n], b),
{
    let d = b.dom().len();
    lemma_acyclic_is_shallow(SpecTerm::Var(n), b);
    lemma_shallow_more(b[n], b, (d - 1) as nat, d);
}

/// What occurs in what a mentioned variable stands for occurs in what the
/// term stands for.
proof fn lemma_occurs_applied(n: Seq<char>, v: Seq<char>, t: SpecTerm, b: BindMap, k: nat)
    requires
        occurs_in(v, t),
        occurs_in(n, apply_term(SpecTerm::Var(v), b, k)),
    ensures
        occurs_in(n, apply_term(t, b, k)),
    decreases t,
{
    if let SpecTerm::Ctor(name, args) = t {
        let i = choose|i: int| 0 <= i < args.len() && occurs_in(v, #[trigger] args[i]);
        lemma_occurs_applied(n, v, args[i], b, k);
        let whole = apply_term(t, b, k);
        assert(whole->Ctor_1 == apply_terms(args, b, k));
        assert(whole->Ctor_1[i] == apply_term(args[i], b, k));
        lemma_occurs_arg(n, whole, i);
    }
}

/// Binding a free variable to a term that does not come back to it makes no
/// ring.
proof fn lemma_acyclic_insert(b: BindMap, n: Seq<char>, other: SpecTerm)
    requires
        acyclic(b),
        !b.contains_key(n),
        !occurs_in(n, applied(other, b)),
    ensures
        acyclic(b.insert(n, other)),
{
    let (rank, top) = choose|rank: spec_fn(Seq<char>) -> nat, top: nat| descends(b, rank, top);
    let d = b.dom().len();
    let reaches = |m: Seq<char>| occurs_in(n, applied(SpecTerm::Var(m), b));
    let rank2 = |m: Seq<char>|
        if m == n {
            top
        } else if reaches(m) {
            (top + 1 + rank(m)) as nat
        } else {
            rank(m)
        };
    let top2 = (top + top + 1) as nat;
    let b2 = b.insert(n, other);
    assert(reaches(n)) by {
        assert(applied(SpecTerm::Var(n), b) == SpecTerm::Var(n));
        assert(occurs_in(n, SpecTerm::Var(n)));
    }
    assert forall|m: Seq<char>, v: Seq<char>|
        b2.contains_key(m) && b2.contains_key(v) && #[trigger] occurs_in(v, b2[m]) implies rank2(v)
        < rank2(m) by {
        if m == n {
            if reaches(v) {
                lemma_occurs_applied(n, v, other, b, d);
            }
            assert(!reaches(v));
        } else {
            if reaches(v) {
                lemma_occurs_applied(n, v, b[m], b, d);
                lemma_applied_var(m, b);
                assert(reaches(m));
            }
            if v != n {
                assert(rank(v) < rank(m));
            }
        }
    }
    assert(b2.dom() =~= b.dom().insert(n));
    assert(descends(b2, rank2, top2));
}

/// A chain ends in no bound variable.
proof fn lemma_chain_ends(t: SpecTerm, b: BindMap, k: nat)
    requires
        shallow(t, b, k),
    ensures
        resolve_term(t, b, k) matches SpecTerm::Var(n) ==> !b.contains_key(n),
    decreases k,
{
    if let SpecTerm::Var(n) = t {
        if b.contains_key(n) {
            lemma_chain_ends(b[n], b, (k - 1) as nat);
        }
    }
}

/// What a chain ends in speaks of the same variables.
proof fn lemma_chain_within(t: SpecTerm, b: BindMap, k: nat, vs: Set<Seq<char>>)
    requires
        within(t, vs),
        within_map(b, vs),
    ensures
        within(resolve_term(t, b, k), vs),
    decreases k,
{
    if let SpecTerm::Var(n) = t {
        if k > 0 && b.contains_key(n) {
            lemma_chain_within(b[n], b, (k - 1) as nat, vs);
        }
    }
}

proof fn lemma_chain_field_free(t: SpecTerm, b: BindMap, k: nat)
    requires
        field_free(t),
        field_free_map(b),
    ensures
        field_free(resolve_term(t, b, k)),
    decreases k,
{
    if let SpecTerm::Var(n) = t {
        if k > 0 && b.contains_key(n) {
            lemma_chain_field_free(b[n], b, (k - 1) as nat);
        }
    }
}

/// A term and what its chain ends in become the same.
proof fn lemma_chain_subst(
    t: SpecTerm,
    b: BindMap,
    k: nat,
    s: spec_fn(Seq<char>) -> SpecTerm,
)
    requires
        solves(s, b),
    ensures
        subst(resolve_term(t, b, k), s) == subst(t, s),
    decreases k,
{
    if let SpecTerm::Var(n) = t {
        if k > 0 && b.contains_key(n) {
            lemma_chain_subst(b[n], b, (k - 1) as nat, s);
        }
    }
}

/// A term and the term with its bindings become the same.
proof fn lemma_apply_subst(
    t: SpecTerm,
    b: BindMap,
    k: nat,
    s: spec_fn(Seq<char>) -> SpecTerm,
)
    requires
        solves(s, b),
    ensures
        subst(apply_term(t, b, k), s) == subst(t, s),
    decreases k, t,
{
    match t {
        SpecTerm::Var(n) => {
            if k > 0 && b.contains_key(n) {
                lemma_apply_subst(b[n], b, (k - 1) as nat, s);
            }
        },
        SpecTerm::Ctor(name, args) => {
            let there = apply_terms(args, b, k);
            assert forall|i: int| 0 <= i < args.len() implies subst(#[trigger] there[i], s)
                == subst(args[i], s) by {
                lemma_apply_subst(args[i], b, k, s);
            }
            assert(subst_all(there, s) =~= subst_all(args, s));
        },
        _ => {},
    }
}

/// How many parts a term has.
spec fn parts(t: SpecTerm) -> nat
    decreases t, 1nat,
{
    match t {
        SpecTerm::Ctor(_, args) => 1 + parts_of(args, args.len()),
        _ => 1,
    }
}

spec fn parts_of(ts: Seq<SpecTerm>, n: nat) -> nat
    decreases ts, n,
{
    if n == 0 || n > ts.len() {
        0
    } else {
        parts_of(ts, (n - 1) as nat) + parts(ts[n - 1])
    }
}

proof fn lemma_parts_of(ts: Seq<SpecTerm>, n: nat, i: int)
    requires
        0 <= i < n <= ts.len(),
    ensures
        parts(ts[i]) <= parts_of(ts, n),
    decreases n,
{
    if i < n - 1 {
        lemma_parts_of(ts, (n - 1) as nat, i);
    }
}

/// A term with a variable in it becomes no smaller than the variable does, and
/// larger where it is not the variable itself.
proof fn lemma_occurs_grows(n: Seq<char>, t: SpecTerm, s: spec_fn(Seq<char>) -> SpecTerm)
    requires
        occurs_in(n, t),
    ensures
        parts(s(n)) <= parts(subst(t, s)),
        t is Ctor ==> parts(s(n)) < parts(subst(t, s)),
    decreases t,
{
    if let SpecTerm::Ctor(name, args) = t {
        let i = choose|i: int| 0 <= i < args.len() && occurs_in(n, #[trigger] args[i]);
        lemma_occurs_grows(n, args[i], s);
        let there = subst_all(args, s);
        assert(there[i] == subst(args[i], s));
        lemma_parts_of(there, there.len(), i);
        assert(subst(t, s) == SpecTerm::Ctor(name, there));
    }
}

/// Matching makes no ring and keeps what is bound.
pub(crate) proof fn lemma_unify_acyclic(l: SpecTerm, r: SpecTerm, b: BindMap, fuel: nat)
    requires
        acyclic(b),
    ensures
        acyclic(unify_term(l, r, b, fuel).1),
        extends(b, unify_term(l, r, b, fuel).1),
    decreases fuel, l, 0int,
{
    let l2 = chain_end(l, b);
    let r2 = chain_end(r, b);
    let d = b.dom().len();
    lemma_acyclic_is_shallow(l, b);
    lemma_acyclic_is_shallow(r, b);
    lemma_chain_ends(l, b, d);
    lemma_chain_ends(r, b, d);
    match (l2, r2) {
        (SpecTerm::FieldRef(_), _) => {},
        (_, SpecTerm::FieldRef(_)) => {},
        (SpecTerm::Var(n), _) => {
            if bind_var(n, r2, b) != (true, b) && bind_var(n, r2, b).0 {
                lemma_acyclic_insert(b, n, r2);
            }
        },
        (_, SpecTerm::Var(n)) => {
            if bind_var(n, l2, b) != (true, b) && bind_var(n, l2, b).0 {
                lemma_acyclic_insert(b, n, l2);
            }
        },
        (SpecTerm::Ctor(ln, la), SpecTerm::Ctor(rn, ra)) => {
            if ln == rn && la.len() == ra.len() {
                if l is Ctor {
                    lemma_unify_all_acyclic(l->Ctor_1, ra, b, fuel, l->Ctor_1.len());
                } else if fuel > 0 {
                    lemma_unify_all_acyclic(la, ra, b, (fuel - 1) as nat, la.len());
                }
            }
        },
        _ => {},
    }
}

pub(crate) proof fn lemma_unify_all_acyclic(
    ls: Seq<SpecTerm>,
    rs: Seq<SpecTerm>,
    b: BindMap,
    fuel: nat,
    n: nat,
)
    requires
        acyclic(b),
    ensures
        acyclic(unify_prefix(ls, rs, b, fuel, n).1),
        extends(b, unify_prefix(ls, rs, b, fuel, n).1),
    decreases fuel, ls, n,
{
    if 0 < n <= ls.len() {
        lemma_unify_all_acyclic(ls, rs, b, fuel, (n - 1) as nat);
        let (ok, b1) = unify_prefix(ls, rs, b, fuel, (n - 1) as nat);
        if ok {
            lemma_unify_acyclic(ls[n - 1], rs[n - 1], b1, fuel);
        }
    }
}

/// Matching facts makes no ring and keeps what is bound.
pub(crate) proof fn lemma_facts_acyclic(p: SpecFact, a: SpecFact, b: BindMap)
    requires
        acyclic(b),
    ensures
        acyclic(unified_facts(p, a, b).1),
        extends(b, unified_facts(p, a, b).1),
{
    if p.pred == a.pred && p.args.len() == a.args.len() {
        lemma_unify_all_acyclic(p.args, a.args, b, LOOKUP_LIMIT as nat, p.args.len());
    }
}

/// Nothing bound is no ring.
pub proof fn law_no_bindings_are_acyclic()
    ensures
        acyclic(Map::<Seq<char>, SpecTerm>::empty()),
{
    assert(descends(Map::<Seq<char>, SpecTerm>::empty(), |n: Seq<char>| 0nat, 0));
}

/// Whether `fuel` lookups are enough for a term, however the bindings grow.
pub open spec fn enough(l: SpecTerm, b: BindMap, vs: Set<Seq<char>>, fuel: nat) -> bool {
    forall|b2: BindMap|
        acyclic(b2) && extends(b, b2) && within_map(b2, vs) ==> #[trigger] shallow(l, b2, fuel)
}

/// Looking a chain up to its end takes one of the lookups.
proof fn lemma_shallow_chain(t: SpecTerm, b: BindMap, k: nat, b2: BindMap, fuel: nat)
    requires
        extends(b, b2),
        shallow(t, b2, fuel),
        t is Var,
        resolve_term(t, b, k) is Ctor,
    ensures
        fuel > 0,
        shallow(resolve_term(t, b, k), b2, (fuel - 1) as nat),
    decreases k,
{
    let n = t->Var_0;
    assert(k > 0 && b.contains_key(n));
    assert(b2.contains_key(n) && b2[n] == b[n]);
    assert(shallow(b[n], b2, (fuel - 1) as nat));
    assert(resolve_term(t, b, k) == resolve_term(b[n], b, (k - 1) as nat));
    if b[n] is Var {
        lemma_shallow_chain(b[n], b, (k - 1) as nat, b2, (fuel - 1) as nat);
        lemma_shallow_more(
            resolve_term(t, b, k),
            b2,
            (fuel - 2) as nat,
            (fuel - 1) as nat,
        );
    }
}

/// What matching two terms means for one replacement: where they match, it
/// solves the new bindings just if it solves the old ones and makes the terms
/// equal; where they do not, it does not do both.
pub open spec fn decides(
    ok: bool,
    b: BindMap,
    b2: BindMap,
    same: bool,
    s: spec_fn(Seq<char>) -> SpecTerm,
) -> bool {
    if ok {
        solves(s, b2) <==> solves(s, b) && same
    } else {
        !(solves(s, b) && same)
    }
}

proof fn lemma_bind_decides(
    n: Seq<char>,
    other: SpecTerm,
    b: BindMap,
    s: spec_fn(Seq<char>) -> SpecTerm,
)
    requires
        acyclic(b),
        !b.contains_key(n),
        other matches SpecTerm::Var(m) ==> !b.contains_key(m),
    ensures
        decides(bind_var(n, other, b).0, b, bind_var(n, other, b).1, s(n) == subst(other, s), s),
{
    let whole = applied(other, b);
    if other == SpecTerm::Var(n) {
    } else if occurs_in(n, whole) {
        if solves(s, b) {
            lemma_apply_subst(other, b, b.dom().len(), s);
            assert(whole is Ctor);
            lemma_occurs_grows(n, whole, s);
        }
    } else {
        let b2 = b.insert(n, other);
        if solves(s, b2) {
            assert(b2.contains_key(n));
            assert forall|m: Seq<char>| #[trigger] b.contains_key(m) implies s(m) == subst(b[m], s) by {
                assert(b2.contains_key(m));
            }
        }
    }
}

pub(crate) proof fn lemma_unify_decides(
    l: SpecTerm,
    r: SpecTerm,
    b: BindMap,
    fuel: nat,
    vs: Set<Seq<char>>,
    s: spec_fn(Seq<char>) -> SpecTerm,
)
    requires
        acyclic(b),
        field_free(l),
        field_free(r),
        field_free_map(b),
        within(l, vs),
        within(r, vs),
        within_map(b, vs),
        enough(l, b, vs, fuel),
    ensures
        ({
            let (ok, b2) = unify_term(l, r, b, fuel);
            &&& field_free_map(b2)
            &&& within_map(b2, vs)
            &&& decides(ok, b, b2, subst(l, s) == subst(r, s), s)
        }),
    decreases fuel, l, 0int,
{
    let d = b.dom().len();
    let l2 = chain_end(l, b);
    let r2 = chain_end(r, b);
    lemma_acyclic_is_shallow(l, b);
    lemma_acyclic_is_shallow(r, b);
    lemma_chain_ends(l, b, d);
    lemma_chain_ends(r, b, d);
    lemma_chain_within(l, b, d, vs);
    lemma_chain_within(r, b, d, vs);
    lemma_chain_field_free(l, b, d);
    lemma_chain_field_free(r, b, d);
    if solves(s, b) {
        lemma_chain_subst(l, b, d, s);
        lemma_chain_subst(r, b, d, s);
    }
    lemma_unify_acyclic(l, r, b, fuel);
    let (ok, b2) = unify_term(l, r, b, fuel);
    if solves(s, b2) {
        lemma_solves_less(s, b, b2);
    }
    match (l2, r2) {
        (SpecTerm::Var(n), _) => {
            assert(occurs_in(n, l2));
            lemma_bind_decides(n, r2, b, s);
        },
        (_, SpecTerm::Var(n)) => {
            assert(occurs_in(n, r2));
            lemma_bind_decides(n, l2, b, s);
        },
        (SpecTerm::Ctor(ln, la), SpecTerm::Ctor(rn, ra)) => {
            let ls = subst_all(la, s);
            let rs = subst_all(ra, s);
            assert(subst(l2, s) == SpecTerm::Ctor(ln, ls));
            assert(subst(r2, s) == SpecTerm::Ctor(rn, rs));
            if ln == rn && la.len() == ra.len() {
                assert forall|i: int| 0 <= i < la.len() implies within(#[trigger] la[i], vs) by {
                    assert forall|v: Seq<char>| #[trigger] occurs_in(v, la[i]) implies vs.contains(
                        v,
                    ) by {
                        lemma_occurs_arg(v, l2, i);
                    }
                }
                assert forall|i: int| 0 <= i < ra.len() implies within(#[trigger] ra[i], vs) by {
                    assert forall|v: Seq<char>| #[trigger] occurs_in(v, ra[i]) implies vs.contains(
                        v,
                    ) by {
                        lemma_occurs_arg(v, r2, i);
                    }
                }
                let left = if l is Ctor {
                    fuel
                } else {
                    lemma_enough_chain(l, b, vs, fuel);
                    (fuel - 1) as nat
                };
                assert forall|i: int| 0 <= i < la.len() implies enough(
                    #[trigger] la[i],
                    b,
                    vs,
                    left,
                ) by {
                    assert forall|b3: BindMap|
                        acyclic(b3) && extends(b, b3) && within_map(b3, vs) implies #[trigger]
                        shallow(la[i], b3, left) by {
                        assert(shallow(l2, b3, left));
                    }
                }
                lemma_unify_all_decide(la, ra, b, left, vs, s, la.len());
                if forall|i: int| 0 <= i < la.len() ==> subst(la[i], s) == subst(ra[i], s) {
                    assert(ls =~= rs);
                }
                if ls == rs {
                    assert forall|i: int| 0 <= i < la.len() implies subst(la[i], s) == subst(
                        ra[i],
                        s,
                    ) by {
                        assert(ls[i] == rs[i]);
                    }
                }
            } else {
                assert(ls.len() == la.len());
                assert(rs.len() == ra.len());
            }
        },
        _ => {},
    }
}

/// A replacement that solves more bindings solves fewer.
pub(crate) proof fn lemma_solves_less(s: spec_fn(Seq<char>) -> SpecTerm, b: BindMap, b2: BindMap)
    requires
        solves(s, b2),
        extends(b, b2),
    ensures
        solves(s, b),
{
    assert forall|n: Seq<char>| #[trigger] b.contains_key(n) implies s(n) == subst(b[n], s) by {
        assert(b2.contains_key(n));
    }
}

pub(crate) proof fn lemma_extends_on(a: BindMap, b: BindMap, c: BindMap)
    requires
        extends(a, b),
        extends(b, c),
    ensures
        extends(a, c),
{
    assert forall|n: Seq<char>| #[trigger] a.contains_key(n) implies c.contains_key(n) && c[n]
        == a[n] by {
        assert(b.contains_key(n));
    }
}

proof fn lemma_enough_chain(l: SpecTerm, b: BindMap, vs: Set<Seq<char>>, fuel: nat)
    requires
        acyclic(b),
        within_map(b, vs),
        enough(l, b, vs, fuel),
        l is Var,
        chain_end(l, b) is Ctor,
    ensures
        fuel > 0,
        enough(chain_end(l, b), b, vs, (fuel - 1) as nat),
{
    let d = b.dom().len();
    assert(extends(b, b));
    assert(shallow(l, b, fuel));
    lemma_shallow_chain(l, b, d, b, fuel);
    assert forall|b2: BindMap|
        acyclic(b2) && extends(b, b2) && within_map(b2, vs) implies #[trigger] shallow(
        chain_end(l, b),
        b2,
        (fuel - 1) as nat,
    ) by {
        assert(shallow(l, b2, fuel));
        lemma_shallow_chain(l, b, d, b2, fuel);
    }
}

pub(crate) proof fn lemma_unify_all_decide(
    ls: Seq<SpecTerm>,
    rs: Seq<SpecTerm>,
    b: BindMap,
    fuel: nat,
    vs: Set<Seq<char>>,
    s: spec_fn(Seq<char>) -> SpecTerm,
    n: nat,
)
    requires
        n <= ls.len() == rs.len(),
        acyclic(b),
        field_free_map(b),
        within_map(b, vs),
        forall|i: int| 0 <= i < ls.len() ==> field_free(#[trigger] ls[i]),
        forall|i: int| 0 <= i < rs.len() ==> field_free(#[trigger] rs[i]),
        forall|i: int| 0 <= i < ls.len() ==> within(#[trigger] ls[i], vs),
        forall|i: int| 0 <= i < rs.len() ==> within(#[trigger] rs[i], vs),
        forall|i: int| 0 <= i < ls.len() ==> enough(#[trigger] ls[i], b, vs, fuel),
    ensures
        ({
            let (ok, b2) = unify_prefix(ls, rs, b, fuel, n);
            &&& field_free_map(b2)
            &&& within_map(b2, vs)
            &&& decides(
                ok,
                b,
                b2,
                forall|i: int| 0 <= i < n ==> subst(ls[i], s) == subst(rs[i], s),
                s,
            )
        }),
    decreases fuel, ls, n,
{
    if n > 0 {
        let m = (n - 1) as nat;
        lemma_unify_all_decide(ls, rs, b, fuel, vs, s, m);
        lemma_unify_all_acyclic(ls, rs, b, fuel, m);
        let (ok, b1) = unify_prefix(ls, rs, b, fuel, m);
        let first = forall|i: int| 0 <= i < m ==> subst(ls[i], s) == subst(rs[i], s);
        let last = subst(ls[m as int], s) == subst(rs[m as int], s);
        let all = forall|i: int| 0 <= i < n ==> subst(ls[i], s) == subst(rs[i], s);
        assert(all == (first && last)) by {
            if first && last {
                assert forall|i: int| 0 <= i < n implies subst(ls[i], s) == subst(rs[i], s) by {
                    if i == m {
                    }
                }
            }
        }
        if ok {
            assert(enough(ls[m as int], b1, vs, fuel)) by {
                assert forall|b2: BindMap|
                    acyclic(b2) && extends(b1, b2) && within_map(b2, vs) implies #[trigger] shallow(
                    ls[m as int],
                    b2,
                    fuel,
                ) by {
                    lemma_extends_on(b, b1, b2);
                    assert(enough(ls[m as int], b, vs, fuel));
                }
            }
            lemma_unify_decides(ls[m as int], rs[m as int], b1, fuel, vs, s);
        }
    }
}

/// What a term stands for is a replacement of its variables by what they
/// stand for.
pub(crate) proof fn lemma_applied_is_subst(t: SpecTerm, b: BindMap)
    requires
        acyclic(b),
    ensures
        applied(t, b) == subst(t, |n: Seq<char>| applied(SpecTerm::Var(n), b)),
    decreases t,
{
    let s = |n: Seq<char>| applied(SpecTerm::Var(n), b);
    if let SpecTerm::Ctor(name, args) = t {
        let d = b.dom().len();
        assert forall|i: int| 0 <= i < args.len() implies apply_term(#[trigger] args[i], b, d)
            == subst(args[i], s) by {
            lemma_applied_is_subst(args[i], b);
        }
        assert(apply_terms(args, b, d) =~= subst_all(args, s));
    }
}

/// Matching never makes bindings into a ring, and keeps what is bound.
pub proof fn law_unifying_keeps_bindings_acyclic(l: SpecTerm, r: SpecTerm, b: BindMap)
    requires
        acyclic(b),
    ensures
        acyclic(unified(l, r, b).1),
        extends(b, unified(l, r, b).1),
{
    lemma_unify_acyclic(l, r, b, LOOKUP_LIMIT as nat);
}

/// Unification finds the most general solution. Where two terms match, the
/// replacements that solve the new bindings are those that solve the old ones
/// and make the terms equal; where they do not match, no replacement does
/// both. Payload references are unknown values and are left out.
pub proof fn law_unification_is_most_general(
    l: SpecTerm,
    r: SpecTerm,
    b: BindMap,
    vs: Set<Seq<char>>,
    s: spec_fn(Seq<char>) -> SpecTerm,
)
    requires
        acyclic(b),
        field_free(l),
        field_free(r),
        field_free_map(b),
        within(l, vs),
        within(r, vs),
        within_map(b, vs),
        vs.finite(),
        vs.len() <= LOOKUP_LIMIT,
    ensures
        unified(l, r, b).0 ==> (solves(s, unified(l, r, b).1) <==> solves(s, b) && subst(l, s)
            == subst(r, s)),
        !unified(l, r, b).0 ==> !(solves(s, b) && subst(l, s) == subst(r, s)),
{
    lemma_enough_at_first(l, b, vs);
    lemma_unify_decides(l, r, b, LOOKUP_LIMIT as nat, vs, s);
}

pub(crate) proof fn lemma_enough_at_first(l: SpecTerm, b: BindMap, vs: Set<Seq<char>>)
    requires
        vs.finite(),
        vs.len() <= LOOKUP_LIMIT,
    ensures
        enough(l, b, vs, LOOKUP_LIMIT as nat),
{
    assert forall|b2: BindMap|
        acyclic(b2) && extends(b, b2) && within_map(b2, vs) implies #[trigger] shallow(
        l,
        b2,
        LOOKUP_LIMIT as nat,
    ) by {
        lemma_acyclic_is_shallow(l, b2);
        assert(b2.dom().subset_of(vs)) by {
            assert forall|n: Seq<char>| b2.dom().contains(n) implies vs.contains(n) by {
                assert(b2.contains_key(n));
            }
        }
        vstd::set_lib::lemma_len_subset(b2.dom(), vs);
        lemma_shallow_more(l, b2, b2.dom().len(), LOOKUP_LIMIT as nat);
    }
}

/// Unification makes both sides equal: where two terms match, they are the
/// same term once the bindings are substituted.
pub proof fn law_unified_terms_are_equal(
    l: SpecTerm,
    r: SpecTerm,
    b: BindMap,
    vs: Set<Seq<char>>,
)
    requires
        acyclic(b),
        field_free(l),
        field_free(r),
        field_free_map(b),
        within(l, vs),
        within(r, vs),
        within_map(b, vs),
        vs.finite(),
        vs.len() <= LOOKUP_LIMIT,
        unified(l, r, b).0,
    ensures
        applied(l, unified(l, r, b).1) == applied(r, unified(l, r, b).1),
{
    let b2 = unified(l, r, b).1;
    let s = |n: Seq<char>| applied(SpecTerm::Var(n), b2);
    law_unifying_keeps_bindings_acyclic(l, r, b);
    assert forall|n: Seq<char>| #[trigger] b2.contains_key(n) implies s(n) == subst(b2[n], s) by {
        lemma_applied_var(n, b2);
        lemma_applied_is_subst(b2[n], b2);
    }
    law_unification_is_most_general(l, r, b, vs, s);
    lemma_applied_is_subst(l, b2);
    lemma_applied_is_subst(r, b2);
}

/// The variables of a term.
pub open spec fn variables(t: SpecTerm) -> Set<Seq<char>>
    decreases t, 1nat,
{
    match t {
        SpecTerm::Var(n) => set![n],
        SpecTerm::Ctor(_, args) => all_variables(args, args.len()),
        _ => Set::empty(),
    }
}

/// The variables of the first `n` terms.
pub open spec fn all_variables(ts: Seq<SpecTerm>, n: nat) -> Set<Seq<char>>
    decreases ts, n,
{
    if n == 0 || n > ts.len() {
        Set::empty()
    } else {
        all_variables(ts, (n - 1) as nat) + variables(ts[n - 1])
    }
}

proof fn lemma_variables(t: SpecTerm)
    ensures
        variables(t).finite(),
        within(t, variables(t)),
    decreases t, 1nat,
{
    if let SpecTerm::Ctor(_, args) = t {
        lemma_all_variables(args, args.len());
        assert forall|v: Seq<char>| #[trigger] occurs_in(v, t) implies variables(t).contains(v) by {
            let i = choose|i: int| 0 <= i < args.len() && occurs_in(v, #[trigger] args[i]);
            assert(within(args[i], all_variables(args, args.len())));
        }
    }
}

proof fn lemma_all_variables(ts: Seq<SpecTerm>, n: nat)
    requires
        n <= ts.len(),
    ensures
        all_variables(ts, n).finite(),
        forall|i: int| 0 <= i < n ==> within(#[trigger] ts[i], all_variables(ts, n)),
    decreases ts, n,
{
    if n > 0 {
        lemma_all_variables(ts, (n - 1) as nat);
        lemma_variables(ts[n - 1]);
        assert forall|i: int| 0 <= i < n implies within(#[trigger] ts[i], all_variables(ts, n)) by {
            if i < n - 1 {
                assert(within(ts[i], all_variables(ts, (n - 1) as nat)));
            }
        }
    }
}

/// Marking the variables of a term and reading the marks back off.
proof fn lemma_marked_subst(
    t: SpecTerm,
    mark: char,
    s: spec_fn(Seq<char>) -> SpecTerm,
    own: spec_fn(Seq<char>) -> SpecTerm,
)
    requires
        forall|n: Seq<char>| own(n) == s(#[trigger] (seq![mark] + n)),
    ensures
        subst(marked(t, mark), s) == subst(t, own),
        field_free(t) ==> field_free(marked(t, mark)),
    decreases t,
{
    match t {
        SpecTerm::Var(n) => {
            assert(own(n) == s(seq![mark] + n));
        },
        SpecTerm::Ctor(name, args) => {
            let there = marked_all(args, mark);
            assert forall|i: int| 0 <= i < args.len() implies subst(#[trigger] there[i], s)
                == subst(args[i], own) && (field_free(args[i]) ==> field_free(there[i])) by {
                lemma_marked_subst(args[i], mark, s, own);
            }
            assert(subst_all(there, s) =~= subst_all(args, own));
            if field_free(t) {
                assert forall|i: int| 0 <= i < there.len() implies field_free(
                    #[trigger] there[i],
                ) by {
                    assert(field_free(args[i]));
                }
                let whole = marked(t, mark);
                assert(whole->Ctor_1 == there);
            }
        },
        _ => {},
    }
}

/// Whether a replacement of each one's variables makes two facts the same.
pub open spec fn same_under(
    a: SpecFact,
    sa: spec_fn(Seq<char>) -> SpecTerm,
    b: SpecFact,
    sb: spec_fn(Seq<char>) -> SpecTerm,
) -> bool {
    a.pred == b.pred && subst_all(a.args, sa) == subst_all(b.args, sb)
}

/// Comparing patterns never rules out what can be: two fact patterns of which
/// some replacement of each one's own variables makes the same fact are
/// compatible. Payload references are unknown values and are left out.
pub proof fn law_patterns_that_can_agree_are_compatible(
    a: SpecFact,
    sa: spec_fn(Seq<char>) -> SpecTerm,
    b: SpecFact,
    sb: spec_fn(Seq<char>) -> SpecTerm,
)
    requires
        forall|i: int| 0 <= i < a.args.len() ==> field_free(#[trigger] a.args[i]),
        forall|i: int| 0 <= i < b.args.len() ==> field_free(#[trigger] b.args[i]),
        same_under(a, sa, b, sb),
        (all_variables(marked_fact(a, '<').args, a.args.len()) + all_variables(
            marked_fact(b, '>').args,
            b.args.len(),
        )).len() <= LOOKUP_LIMIT,
    ensures
        compatible(a, b),
{
    let ls = marked_fact(a, '<').args;
    let rs = marked_fact(b, '>').args;
    let n = ls.len();
    let none = Map::<Seq<char>, SpecTerm>::empty();
    let vs = all_variables(ls, n) + all_variables(rs, rs.len());
    let s = |v: Seq<char>|
        if v.len() > 0 && v[0] == '<' {
            sa(v.skip(1))
        } else {
            sb(v.skip(1))
        };
    assert(subst_all(a.args, sa).len() == a.args.len());
    assert(subst_all(b.args, sb).len() == b.args.len());
    lemma_all_variables(ls, n);
    lemma_all_variables(rs, n);
    law_no_bindings_are_acyclic();
    assert forall|v: Seq<char>| sa(v) == s(#[trigger] (seq!['<'] + v)) by {
        assert((seq!['<'] + v).skip(1) =~= v);
    }
    assert forall|v: Seq<char>| sb(v) == s(#[trigger] (seq!['>'] + v)) by {
        assert((seq!['>'] + v).skip(1) =~= v);
    }
    assert forall|i: int| 0 <= i < n implies field_free(#[trigger] ls[i]) && within(ls[i], vs)
        && enough(ls[i], none, vs, LOOKUP_LIMIT as nat) by {
        assert(field_free(a.args[i]));
        lemma_marked_subst(a.args[i], '<', s, sa);
        assert(within(ls[i], all_variables(ls, n)));
        lemma_enough_at_first(ls[i], none, vs);
    }
    assert forall|i: int| 0 <= i < n implies field_free(#[trigger] rs[i]) && within(rs[i], vs) by {
        assert(field_free(b.args[i]));
        lemma_marked_subst(b.args[i], '>', s, sb);
        assert(within(rs[i], all_variables(rs, n)));
    }
    assert forall|i: int| 0 <= i < n implies subst(ls[i], s) == subst(rs[i], s) by {
        lemma_marked_subst(a.args[i], '<', s, sa);
        lemma_marked_subst(b.args[i], '>', s, sb);
        assert(subst_all(a.args, sa)[i] == subst_all(b.args, sb)[i]);
    }
    lemma_unify_all_decide(ls, rs, none, LOOKUP_LIMIT as nat, vs, s, n);
}

proof fn lemma_children_acyclic(
    slot: Seq<char>,
    expect: SpecFact,
    vals: Seq<SpecChildVal>,
    b: BindMap,
    n: nat,
)
    requires
        acyclic(b),
    ensures
        match match_children(slot, expect, vals, b, n) {
            Ok(b1) => acyclic(b1),
            Err(why) => acyclic(why.bindings),
        },
    decreases n,
{
    if 0 < n <= vals.len() {
        lemma_children_acyclic(slot, expect, vals, b, (n - 1) as nat);
        if let Ok(b1) = match_children(slot, expect, vals, b, (n - 1) as nat) {
            if let Some(found) = vals[n - 1].conclusion {
                lemma_facts_acyclic(expect, found, b1);
            }
        }
    }
}

/// Whatever a rule is tried on, the bindings it collects never run in a
/// ring: neither those it concludes with nor those a failure is worded with.
pub proof fn law_rules_collect_acyclic_bindings(
    rule: SpecRule,
    node: SpecTree,
    slots: SlotMap,
    state: Option<SpecState>,
    n: nat,
)
    ensures
        match check_premises(rule, node, slots, state, n) {
            Ok(b) => acyclic(b),
            Err(f) => acyclic(f.why.bindings),
        },
    decreases n,
{
    law_no_bindings_are_acyclic();
    if 0 < n <= rule.premises.len() {
        law_rules_collect_acyclic_bindings(rule, node, slots, state, (n - 1) as nat);
        if let Ok(b) = check_premises(rule, node, slots, state, (n - 1) as nat) {
            match rule.premises[n - 1] {
                SpecPremise::Child { slot, expect } => {
                    if slots.contains_key(slot) {
                        lemma_children_acyclic(
                            slot,
                            grounded_fact(expect, node.fields),
                            slots[slot],
                            b,
                            slots[slot].len(),
                        );
                    }
                },
                SpecPremise::State { expect } => {
                    if let Some(now) = state {
                        lemma_facts_acyclic(grounded_fact(expect, node.fields), now.fact, b);
                    }
                },
                SpecPremise::Eq(lhs, rhs) => {
                    law_unifying_keeps_bindings_acyclic(
                        grounded(lhs, node.fields),
                        grounded(rhs, node.fields),
                        b,
                    );
                },
                SpecPremise::Neq(_, _) => {},
            }
        }
    }
}

} // verus!
