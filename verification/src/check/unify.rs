//! First-order syntactic unification of rule patterns with facts.
use vstd::prelude::*;
use vstd::string::*;

use crate::check::ir::{
    lemma_ctor_view, terms_view, Fact, SpecFact, SpecTerm, Term,
};
use crate::check::unifier::{acyclic, lemma_facts_acyclic, lemma_unify_acyclic};
use crate::text::same_text;

verus! {

/// How many bound variables a match looks into inside one another. Bindings
/// without a ring never get this deep.
pub const LOOKUP_LIMIT: u64 = 0xffff_ffff_ffff_ffff;

/// What each bound variable stands for.
pub type BindMap = Map<Seq<char>, SpecTerm>;

/// Rule-local variable bindings, one environment per rule attempt.
#[derive(Debug)]
pub struct Bindings {
    entries: Vec<(String, Term)>,
}

/// The map that a list of entries without repeated names stands for.
pub open spec fn entries_map(es: Seq<(String, Term)>) -> BindMap
    decreases es.len(),
{
    if es.len() == 0 {
        Map::empty()
    } else {
        entries_map(es.drop_last()).insert(es.last().0@, es.last().1@)
    }
}

proof fn lemma_entries_lookup(es: Seq<(String, Term)>, name: Seq<char>)
    requires
        forall|i: int, j: int| 0 <= i < j < es.len() ==> es[i].0@ != es[j].0@,
    ensures
        forall|i: int|
            0 <= i < es.len() && (#[trigger] es[i]).0@ == name ==> entries_map(es).contains_key(
                name,
            ) && entries_map(es)[name] == es[i].1@,
        (forall|i: int| 0 <= i < es.len() ==> (#[trigger] es[i]).0@ != name)
            ==> !entries_map(es).contains_key(name),
    decreases es.len(),
{
    if es.len() > 0 {
        let init = es.drop_last();
        lemma_entries_lookup(init, name);
        assert forall|i: int| 0 <= i < es.len() && (#[trigger] es[i]).0@ == name implies entries_map(
            es,
        ).contains_key(name) && entries_map(es)[name] == es[i].1@ by {
            if i < es.len() - 1 {
                assert(init[i] == es[i]);
            }
        }
        if forall|i: int| 0 <= i < es.len() ==> (#[trigger] es[i]).0@ != name {
            assert forall|i: int| 0 <= i < init.len() implies (#[trigger] init[i]).0@ != name by {
                assert(init[i] == es[i]);
            }
            assert(es[es.len() - 1].0@ != name);
        }
    }
}

proof fn lemma_entries_update(es: Seq<(String, Term)>, at: int, entry: (String, Term))
    requires
        forall|i: int, j: int| 0 <= i < j < es.len() ==> es[i].0@ != es[j].0@,
        0 <= at < es.len(),
        entry.0@ == es[at].0@,
    ensures
        entries_map(es.update(at, entry)) == entries_map(es).insert(entry.0@, entry.1@),
    decreases es.len(),
{
    let init = es.drop_last();
    let up = es.update(at, entry);
    if at == es.len() - 1 {
        assert(up.drop_last() =~= init);
        assert(entries_map(up) =~= entries_map(es).insert(entry.0@, entry.1@));
    } else {
        assert(up.drop_last() =~= init.update(at, entry));
        assert(up.last() == es.last());
        lemma_entries_update(init, at, entry);
        assert(es[at].0@ != es[es.len() - 1].0@);
        assert(entries_map(up) =~= entries_map(es).insert(entry.0@, entry.1@));
    }
}

proof fn lemma_entries_count(es: Seq<(String, Term)>)
    requires
        forall|i: int, j: int| 0 <= i < j < es.len() ==> es[i].0@ != es[j].0@,
    ensures
        entries_map(es).dom().finite(),
        entries_map(es).dom().len() == es.len(),
    decreases es.len(),
{
    if es.len() > 0 {
        let init = es.drop_last();
        lemma_entries_count(init);
        let name = es.last().0@;
        lemma_entries_lookup(init, name);
        assert forall|i: int| 0 <= i < init.len() implies (#[trigger] init[i]).0@ != name by {
            assert(es[i].0@ != es[es.len() - 1].0@);
        }
        assert(entries_map(es).dom() =~= entries_map(init).dom().insert(name));
    }
}

impl Bindings {
    #[verifier::type_invariant]
    spec fn names_are_distinct(self) -> bool {
        forall|i: int, j: int|
            0 <= i < j < self.entries@.len() ==> self.entries@[i].0@ != self.entries@[j].0@
    }

    /// An environment that binds nothing.
    pub fn new() -> (out: Self)
        ensures
            out@ == Map::<Seq<char>, SpecTerm>::empty(),
    {
        Bindings { entries: Vec::new() }
    }

    /// How many variables are bound.
    pub fn len(&self) -> (out: usize)
        ensures
            out == self@.dom().len(),
            self@.dom().finite(),
    {
        proof {
            use_type_invariant(self);
            lemma_entries_count(self.entries@);
        }
        self.entries.len()
    }

    /// The term bound to `name`, if any.
    pub fn get<'a>(&'a self, name: &str) -> (out: Option<&'a Term>)
        ensures
            match out {
                Some(t) => self@.contains_key(name@) && self@[name@] == t@,
                None => !self@.contains_key(name@),
            },
    {
        proof {
            use_type_invariant(self);
            lemma_entries_lookup(self.entries@, name@);
        }
        for i in 0..self.entries.len()
            invariant
                forall|j: int| 0 <= j < i ==> (#[trigger] self.entries@[j]).0@ != name@,
                forall|j: int|
                    0 <= j < self.entries@.len() && (#[trigger] self.entries@[j]).0@ == name@
                        ==> self@.contains_key(name@) && self@[name@] == self.entries@[j].1@,
        {
            let e = &self.entries[i];
            if same_text(&e.0, name) {
                return Some(&e.1);
            }
        }
        None
    }

    /// Binds `name` to `term`, replacing what it stood for before.
    pub fn insert(&mut self, name: String, term: Term)
        ensures
            final(self)@ == old(self)@.insert(name@, term@),
    {
        proof {
            use_type_invariant(&*self);
        }
        let mut entries: Vec<(String, Term)> = Vec::new();
        std::mem::swap(&mut entries, &mut self.entries);
        let ghost before = entries@;
        let mut i: usize = 0;
        while i < entries.len()
            invariant
                i <= entries.len(),
                entries@ == before,
                old(self)@ == entries_map(before),
                forall|a: int, b: int| 0 <= a < b < before.len() ==> before[a].0@ != before[b].0@,
                forall|j: int| 0 <= j < i ==> (#[trigger] before[j]).0@ != name@,
            decreases entries.len() - i,
        {
            if same_text(&entries[i].0, name.as_str()) {
                let ghost entry = (name, term);
                entries.set(i, (name, term));
                proof {
                    lemma_entries_update(before, i as int, entry);
                    assert forall|a: int, b: int| 0 <= a < b < entries@.len() implies entries@[a].0@
                        != entries@[b].0@ by {
                        assert(before[a].0@ != before[b].0@);
                    }
                }
                self.entries = entries;
                return;
            }
            i += 1;
        }
        entries.push((name, term));
        proof {
            assert(entries@.drop_last() =~= before);
        }
        self.entries = entries;
    }
}

impl View for Bindings {
    type V = BindMap;

    closed spec fn view(&self) -> BindMap {
        entries_map(self.entries@)
    }
}

impl Clone for Bindings {
    fn clone(&self) -> (out: Self)
        ensures
            out@ == self@,
    {
        proof {
            use_type_invariant(self);
        }
        let mut entries: Vec<(String, Term)> = Vec::new();
        for i in 0..self.entries.len()
            invariant
                entries@.len() == i,
                forall|j: int|
                    0 <= j < i ==> (#[trigger] entries@[j]).0@ == self.entries@[j].0@
                        && entries@[j].1@ == self.entries@[j].1@,
        {
            let e = &self.entries[i];
            entries.push((e.0.clone(), e.1.clone()));
        }
        proof {
            lemma_entries_ext(entries@, self.entries@);
        }
        Bindings { entries }
    }
}

proof fn lemma_entries_ext(a: Seq<(String, Term)>, b: Seq<(String, Term)>)
    requires
        a.len() == b.len(),
        forall|j: int|
            0 <= j < a.len() ==> (#[trigger] a[j]).0@ == b[j].0@ && a[j].1@ == b[j].1@,
    ensures
        entries_map(a) == entries_map(b),
    decreases a.len(),
{
    if a.len() > 0 {
        let ai = a.drop_last();
        let bi = b.drop_last();
        assert forall|j: int| 0 <= j < ai.len() implies (#[trigger] ai[j]).0@ == bi[j].0@
            && ai[j].1@ == bi[j].1@ by {
            assert(ai[j] == a[j]);
        }
        lemma_entries_ext(ai, bi);
        assert(a[a.len() - 1].0@ == b[b.len() - 1].0@);
    }
}

/// Follows a chain of variables to whatever it is bound to.
pub open spec fn resolve_term(t: SpecTerm, b: BindMap, steps: nat) -> SpecTerm
    decreases steps,
{
    match t {
        SpecTerm::Var(name) => if steps > 0 && b.contains_key(name) {
            resolve_term(b[name], b, (steps - 1) as nat)
        } else {
            t
        },
        _ => t,
    }
}

/// What a chain of variables ends in. No chain runs through more variables
/// than are bound, unless it is a ring.
pub open spec fn chain_end(t: SpecTerm, b: BindMap) -> SpecTerm {
    resolve_term(t, b, b.dom().len())
}

/// Follows a variable chain to whatever it is currently bound to.
pub fn resolve(term: &Term, binds: &Bindings) -> (out: Term)
    ensures
        out@ == chain_end(term@, binds@),
{
    let mut current = term.clone();
    let mut left: usize = binds.len();
    while left > 0
        invariant_except_break
            chain_end(term@, binds@) == resolve_term(current@, binds@, left as nat),
        ensures
            current@ == chain_end(term@, binds@),
        decreases left,
    {
        let next = match &current {
            Term::Var(name) => binds.get(name.as_str()),
            _ => None,
        };
        match next {
            Some(next) => {
                current = next.clone();
                left -= 1;
            },
            None => {
                break;
            },
        }
    }
    current
}

/// Whether the variable `name` occurs in `t`.
pub open spec fn occurs_in(name: Seq<char>, t: SpecTerm) -> bool
    decreases t,
{
    match t {
        SpecTerm::Var(other) => other == name,
        SpecTerm::Ctor(_, args) => exists|i: int|
            0 <= i < args.len() && occurs_in(name, #[trigger] args[i]),
        _ => false,
    }
}

proof fn lemma_occurs_arg(name: Seq<char>, ctor: Seq<char>, args: Seq<SpecTerm>, i: int)
    requires
        0 <= i < args.len(),
        occurs_in(name, args[i]),
    ensures
        occurs_in(name, SpecTerm::Ctor(ctor, args)),
{
    let t = SpecTerm::Ctor(ctor, args);
    assert(t->Ctor_1[i] == args[i]);
}

/// Whether the variable `name` occurs in `term`.
pub fn occurs(name: &str, term: &Term) -> (found: bool)
    ensures
        found == occurs_in(name@, term@),
    decreases term,
{
    match term {
        Term::Var(other) => same_text(other, name),
        Term::Ctor(_, args) => {
            proof {
                lemma_ctor_view(*term);
            }
            for i in 0..args.len()
                invariant
                    term matches Term::Ctor(n, a) && a == args,
                    term@ == SpecTerm::Ctor(term->Ctor_0@, terms_view(args@)),
                    forall|j: int| 0 <= j < i ==> !occurs_in(name@, #[trigger] terms_view(args@)[j]),
            {
                if occurs(name, &args[i]) {
                    proof {
                        lemma_occurs_arg(name@, term->Ctor_0@, terms_view(args@), i as int);
                    }
                    return true;
                }
            }
            false
        },
        _ => false,
    }
}

/// Whether `t` mentions neither a variable nor a field reference.
pub open spec fn ground_term(t: SpecTerm) -> bool
    decreases t,
{
    match t {
        SpecTerm::Atom(_) => true,
        SpecTerm::Ctor(_, args) => forall|i: int|
            0 <= i < args.len() ==> ground_term(#[trigger] args[i]),
        _ => false,
    }
}

proof fn lemma_open_arg(ctor: Seq<char>, args: Seq<SpecTerm>, i: int)
    requires
        0 <= i < args.len(),
        !ground_term(args[i]),
    ensures
        !ground_term(SpecTerm::Ctor(ctor, args)),
{
    let t = SpecTerm::Ctor(ctor, args);
    assert(t->Ctor_1[i] == args[i]);
}

/// Whether `term` mentions neither a variable nor a field reference.
pub fn is_ground(term: &Term) -> (ground: bool)
    ensures
        ground == ground_term(term@),
    decreases term,
{
    match term {
        Term::Atom(_) => true,
        Term::Ctor(_, args) => {
            proof {
                lemma_ctor_view(*term);
            }
            for i in 0..args.len()
                invariant
                    term matches Term::Ctor(n, a) && a == args,
                    term@ == SpecTerm::Ctor(term->Ctor_0@, terms_view(args@)),
                    forall|j: int| 0 <= j < i ==> ground_term(#[trigger] terms_view(args@)[j]),
            {
                if !is_ground(&args[i]) {
                    proof {
                        lemma_open_arg(term->Ctor_0@, terms_view(args@), i as int);
                    }
                    return false;
                }
            }
            true
        },
        _ => false,
    }
}

/// `t` with the bindings substituted throughout, looking up at most `fuel`
/// variables inside one another.
pub open spec fn apply_term(t: SpecTerm, b: BindMap, fuel: nat) -> SpecTerm
    decreases fuel, t, 1int,
{
    match t {
        SpecTerm::Ctor(name, args) => SpecTerm::Ctor(name, apply_terms(args, b, fuel)),
        SpecTerm::Var(name) => if fuel > 0 && b.contains_key(name) {
            apply_term(b[name], b, (fuel - 1) as nat)
        } else {
            t
        },
        _ => t,
    }
}

/// The terms of `ts` with the bindings substituted throughout.
pub open spec fn apply_terms(ts: Seq<SpecTerm>, b: BindMap, fuel: nat) -> Seq<SpecTerm>
    decreases fuel, ts, 0int,
{
    Seq::new(
        ts.len(),
        |i: int|
            if 0 <= i < ts.len() {
                apply_term(ts[i], b, fuel)
            } else {
                arbitrary()
            },
    )
}

fn apply_all(ts: &Vec<Term>, binds: &Bindings, fuel: usize) -> (out: Vec<Term>)
    ensures
        terms_view(out@) == apply_terms(terms_view(ts@), binds@, fuel as nat),
    decreases fuel, ts, 0int,
{
    let mut out: Vec<Term> = Vec::new();
    for i in 0..ts.len()
        invariant
            out@.len() == i,
            forall|j: int|
                0 <= j < i ==> (#[trigger] out@[j])@ == apply_term(ts@[j]@, binds@, fuel as nat),
    {
        out.push(apply_within(&ts[i], binds, fuel));
    }
    assert(terms_view(out@) =~= apply_terms(terms_view(ts@), binds@, fuel as nat));
    out
}

fn apply_within(term: &Term, binds: &Bindings, fuel: usize) -> (out: Term)
    ensures
        out@ == apply_term(term@, binds@, fuel as nat),
    decreases fuel, term, 1int,
{
    proof {
        lemma_ctor_view(*term);
    }
    match term {
        Term::Ctor(name, args) => {
            let out = Term::Ctor(name.clone(), apply_all(args, binds, fuel));
            proof {
                lemma_ctor_view(out);
            }
            out
        },
        Term::Var(name) => {
            if fuel > 0 {
                if let Some(next) = binds.get(name.as_str()) {
                    return apply_within(next, binds, fuel - 1);
                }
            }
            term.clone()
        },
        _ => term.clone(),
    }
}

/// `t` with the bindings substituted throughout. Inside one another, no more
/// variables are looked up than are bound, unless they form a ring.
pub open spec fn applied(t: SpecTerm, b: BindMap) -> SpecTerm {
    apply_term(t, b, b.dom().len())
}

/// `f` with the bindings substituted throughout.
pub open spec fn applied_fact(f: SpecFact, b: BindMap) -> SpecFact {
    SpecFact { pred: f.pred, args: apply_terms(f.args, b, b.dom().len()) }
}

/// Substitutes bindings throughout a term.
pub fn apply(term: &Term, binds: &Bindings) -> (out: Term)
    ensures
        out@ == applied(term@, binds@),
{
    apply_within(term, binds, binds.len())
}

/// Substitutes bindings throughout a fact.
pub fn apply_fact(f: &Fact, binds: &Bindings) -> (out: Fact)
    ensures
        out@ == applied_fact(f@, binds@),
{
    Fact { pred: f.pred.clone(), args: apply_all(&f.args, binds, binds.len()) }
}

/// Binds the free variable `name` to `other`, unless that is the same
/// variable, or contains it once the bindings are substituted.
pub open spec fn bind_var(name: Seq<char>, other: SpecTerm, b: BindMap) -> (bool, BindMap) {
    if other == SpecTerm::Var(name) {
        (true, b)
    } else if occurs_in(name, applied(other, b)) {
        (false, b)
    } else {
        (true, b.insert(name, other))
    }
}

/// Whether two terms match, and what the bindings are afterwards.
pub open spec fn unify_term(l: SpecTerm, r: SpecTerm, b: BindMap, fuel: nat) -> (bool, BindMap)
    decreases fuel, l, 0int,
{
    let l2 = chain_end(l, b);
    let r2 = chain_end(r, b);
    match (l2, r2) {
        (SpecTerm::FieldRef(_), _) => (true, b),
        (_, SpecTerm::FieldRef(_)) => (true, b),
        (SpecTerm::Var(name), _) => bind_var(name, r2, b),
        (_, SpecTerm::Var(name)) => bind_var(name, l2, b),
        (SpecTerm::Atom(x), SpecTerm::Atom(y)) => (x == y, b),
        (SpecTerm::Ctor(ln, la), SpecTerm::Ctor(rn, ra)) => if ln != rn || la.len() != ra.len() {
            (false, b)
        } else if l is Ctor {
            unify_prefix(l->Ctor_1, ra, b, fuel, l->Ctor_1.len())
        } else if fuel == 0 {
            (false, b)
        } else {
            unify_prefix(la, ra, b, (fuel - 1) as nat, la.len())
        },
        _ => (false, b),
    }
}

/// Matches the first `n` pairs from left to right, up to the first pair
/// that does not match.
pub open spec fn unify_prefix(
    ls: Seq<SpecTerm>,
    rs: Seq<SpecTerm>,
    b: BindMap,
    fuel: nat,
    n: nat,
) -> (bool, BindMap)
    decreases fuel, ls, n,
{
    if n == 0 || n > ls.len() {
        (true, b)
    } else {
        let (ok, b1) = unify_prefix(ls, rs, b, fuel, (n - 1) as nat);
        if ok {
            unify_term(ls[n - 1], rs[n - 1], b1, fuel)
        } else {
            (false, b1)
        }
    }
}

/// A prefix that fails makes every longer prefix fail the same way.
proof fn lemma_prefix_fails(
    ls: Seq<SpecTerm>,
    rs: Seq<SpecTerm>,
    b: BindMap,
    fuel: nat,
    n: nat,
    m: nat,
)
    requires
        n <= m <= ls.len(),
        !unify_prefix(ls, rs, b, fuel, n).0,
    ensures
        unify_prefix(ls, rs, b, fuel, m) == (false, unify_prefix(ls, rs, b, fuel, n).1),
    decreases m,
{
    if n < m {
        lemma_prefix_fails(ls, rs, b, fuel, n, (m - 1) as nat);
    }
}

fn unify_all(ls: &Vec<Term>, rs: &Vec<Term>, binds: &mut Bindings, fuel: u64) -> (ok: bool)
    requires
        ls.len() == rs.len(),
    ensures
        (ok, final(binds)@) == unify_prefix(
            terms_view(ls@),
            terms_view(rs@),
            old(binds)@,
            fuel as nat,
            ls@.len(),
        ),
    decreases fuel, ls, 1int,
{
    let ghost lv = terms_view(ls@);
    let ghost rv = terms_view(rs@);
    let ghost start = binds@;
    let mut i: usize = 0;
    while i < ls.len()
        invariant
            i <= ls.len(),
            ls.len() == rs.len(),
            start == old(binds)@,
            lv == terms_view(ls@),
            rv == terms_view(rs@),
            (true, binds@) == unify_prefix(lv, rv, start, fuel as nat, i as nat),
        decreases ls.len() - i,
    {
        let ok = unify_within(&ls[i], &rs[i], binds, fuel);
        proof {
            assert(lv[i as int] == ls@[i as int]@);
            assert(rv[i as int] == rs@[i as int]@);
            assert(unify_prefix(lv, rv, start, fuel as nat, (i + 1) as nat) == (ok, binds@));
        }
        if !ok {
            proof {
                lemma_prefix_fails(
                    lv,
                    rv,
                    start,
                    fuel as nat,
                    (i + 1) as nat,
                    ls@.len(),
                );
            }
            return false;
        }
        i += 1;
    }
    true
}

fn bind(name: &String, other: &Term, binds: &mut Bindings) -> (ok: bool)
    ensures
        (ok, final(binds)@) == bind_var(name@, other@, old(binds)@),
{
    if let Term::Var(o) = other {
        if same_text(o, name) {
            return true;
        }
    }
    if occurs(name.as_str(), &apply(other, binds)) {
        return false;
    }
    binds.insert(name.clone(), other.clone());
    true
}

fn unify_within(lhs: &Term, rhs: &Term, binds: &mut Bindings, fuel: u64) -> (ok: bool)
    ensures
        (ok, final(binds)@) == unify_term(lhs@, rhs@, old(binds)@, fuel as nat),
    decreases fuel, lhs, 0int,
{
    let l2 = resolve(lhs, binds);
    let r2 = resolve(rhs, binds);
    proof {
        lemma_ctor_view(*lhs);
        lemma_ctor_view(l2);
        lemma_ctor_view(r2);
    }
    match (&l2, &r2) {
        (Term::FieldRef(_), _) => true,
        (_, Term::FieldRef(_)) => true,
        (Term::Var(name), other) => bind(name, other, binds),
        (other, Term::Var(name)) => bind(name, other, binds),
        (Term::Atom(a), Term::Atom(b)) => same_text(a, b),
        (Term::Ctor(an, aa), Term::Ctor(bn, ba)) => {
            if !same_text(an, bn) || aa.len() != ba.len() {
                return false;
            }
            match lhs {
                Term::Ctor(_, la) => {
                    assert(terms_view(la@).len() == la@.len());
                    unify_all(la, ba, binds, fuel)
                },
                _ => {
                    if fuel == 0 {
                        false
                    } else {
                        unify_all(aa, ba, binds, fuel - 1)
                    }
                },
            }
        },
        _ => false,
    }
}

/// Whether two terms match, and what the bindings are afterwards.
pub open spec fn unified(l: SpecTerm, r: SpecTerm, b: BindMap) -> (bool, BindMap) {
    unify_term(l, r, b, LOOKUP_LIMIT as nat)
}

/// Whether two facts match (the same predicate, the same arity, arguments
/// pairwise), and what the bindings are afterwards.
pub open spec fn unified_facts(p: SpecFact, a: SpecFact, b: BindMap) -> (bool, BindMap) {
    if p.pred != a.pred || p.args.len() != a.args.len() {
        (false, b)
    } else {
        unify_prefix(p.args, a.args, b, LOOKUP_LIMIT as nat, p.args.len())
    }
}

/// First-order syntactic unification of two terms.
///
/// A [`Term::FieldRef`] stands for an unknown value and unifies with
/// anything.
pub fn unify(lhs: &Term, rhs: &Term, binds: &mut Bindings) -> (ok: bool)
    ensures
        (ok, final(binds)@) == unified(lhs@, rhs@, old(binds)@),
        acyclic(old(binds)@) ==> acyclic(final(binds)@),
{
    proof {
        if acyclic(binds@) {
            lemma_unify_acyclic(lhs@, rhs@, binds@, LOOKUP_LIMIT as nat);
        }
    }
    unify_within(lhs, rhs, binds, LOOKUP_LIMIT)
}

/// Unifies two facts: same predicate, same arity, arguments pairwise.
pub fn unify_fact(pattern: &Fact, actual: &Fact, binds: &mut Bindings) -> (ok: bool)
    ensures
        (ok, final(binds)@) == unified_facts(pattern@, actual@, old(binds)@),
        acyclic(old(binds)@) ==> acyclic(final(binds)@),
{
    proof {
        if acyclic(binds@) {
            lemma_facts_acyclic(pattern@, actual@, binds@);
        }
    }
    if !same_text(&pattern.pred, &actual.pred) || pattern.args.len() != actual.args.len() {
        return false;
    }
    unify_all(&pattern.args, &actual.args, binds, LOOKUP_LIMIT)
}

/// `t` with a mark before the name of every variable.
pub open spec fn marked(t: SpecTerm, mark: char) -> SpecTerm
    decreases t, 1int,
{
    match t {
        SpecTerm::Var(name) => SpecTerm::Var(seq![mark] + name),
        SpecTerm::Ctor(name, args) => SpecTerm::Ctor(name, marked_all(args, mark)),
        _ => t,
    }
}

/// Terms with a mark before the name of every variable.
pub open spec fn marked_all(ts: Seq<SpecTerm>, mark: char) -> Seq<SpecTerm>
    decreases ts, 0int,
{
    Seq::new(
        ts.len(),
        |i: int|
            if 0 <= i < ts.len() {
                marked(ts[i], mark)
            } else {
                arbitrary()
            },
    )
}

/// `f` with a mark before the name of every variable.
pub open spec fn marked_fact(f: SpecFact, mark: char) -> SpecFact {
    SpecFact { pred: f.pred, args: marked_all(f.args, mark) }
}

fn mark_term(term: &Term, mark: char) -> (out: Term)
    ensures
        out@ == marked(term@, mark),
    decreases term, 1int,
{
    proof {
        lemma_ctor_view(*term);
    }
    match term {
        Term::Var(name) => {
            let mut own = String::new();
            own.push(mark);
            own.append(name.as_str());
            assert(own@ =~= seq![mark] + name@);
            Term::Var(own)
        },
        Term::Ctor(name, args) => {
            let out = Term::Ctor(name.clone(), mark_all(args, mark));
            proof {
                lemma_ctor_view(out);
            }
            out
        },
        _ => term.clone(),
    }
}

fn mark_all(ts: &Vec<Term>, mark: char) -> (out: Vec<Term>)
    ensures
        terms_view(out@) == marked_all(terms_view(ts@), mark),
    decreases ts, 0int,
{
    let mut out: Vec<Term> = Vec::new();
    for i in 0..ts.len()
        invariant
            out@.len() == i,
            forall|j: int| 0 <= j < i ==> (#[trigger] out@[j])@ == marked(ts@[j]@, mark),
    {
        out.push(mark_term(&ts[i], mark));
    }
    assert(terms_view(out@) =~= marked_all(terms_view(ts@), mark));
    out
}

/// Whether two fact patterns agree under some binding of each one's own
/// variables.
pub open spec fn compatible(a: SpecFact, b: SpecFact) -> bool {
    unified_facts(marked_fact(a, '<'), marked_fact(b, '>'), Map::empty()).0
}

/// Whether two fact patterns could ever describe the same fact. Both sides
/// may still carry variables; those of one have nothing to do with those of
/// the other, whatever they are called.
pub fn may_unify_fact(a: &Fact, b: &Fact) -> (ok: bool)
    ensures
        ok == compatible(a@, b@),
{
    let left = Fact { pred: a.pred.clone(), args: mark_all(&a.args, '<') };
    let right = Fact { pred: b.pred.clone(), args: mark_all(&b.args, '>') };
    let mut binds = Bindings::new();
    unify_fact(&left, &right, &mut binds)
}

} // verus!
