//! What a misspelt name in a check failure is measured against.
//!
//! A state handle is a value, so a typo in one cannot be caught by looking
//! at declarations: nothing declares it anywhere. The evidence only exists
//! at check time, in the names the program can mention and in the names of
//! the fact that was actually found.
use vstd::prelude::*;
use vstd::string::*;

use crate::check::ir::{
    lemma_ctor_view, premises_view, terms_view, CheckProgram, Fact, Premise, Rule, SpecFact,
    SpecPremise, SpecProgram, SpecRule, SpecSeqSlot, SpecTerm, Term,
};
use crate::suggest::{says, SpecSuggestion, Suggester};
use crate::text::{insert_name, insert_text, opt_text, same_text, strings_view, strs_view};

verus! {

/// Which pool a name belongs to.
#[derive(Debug, Clone, Copy, PartialEq, Eq, Structural)]
pub enum NameKind {
    /// A value.
    Atom,
    /// A shape.
    Ctor,
}

/// The ground names a typo can be measured against, in ascending order and
/// split by the kind of position they occupy.
#[derive(Debug)]
pub struct Vocabulary {
    /// Names of values.
    pub atoms: Vec<String>,
    /// Names of shapes.
    pub ctors: Vec<String>,
}

/// The mathematical shape of a [`Vocabulary`].
pub struct SpecVocabulary {
    pub atoms: Seq<Seq<char>>,
    pub ctors: Seq<Seq<char>>,
}

impl View for Vocabulary {
    type V = SpecVocabulary;

    open spec fn view(&self) -> SpecVocabulary {
        SpecVocabulary { atoms: strings_view(self.atoms@), ctors: strings_view(self.ctors@) }
    }
}

/// No names at all.
pub open spec fn no_names() -> SpecVocabulary {
    SpecVocabulary { atoms: Seq::empty(), ctors: Seq::empty() }
}

/// `v` with every ground name of `t`.
pub open spec fn with_term(v: SpecVocabulary, t: SpecTerm) -> SpecVocabulary
    decreases t, 0nat,
{
    match t {
        SpecTerm::Atom(name) => SpecVocabulary { atoms: insert_name(v.atoms, name), ..v },
        SpecTerm::Ctor(name, args) => with_terms(
            SpecVocabulary { ctors: insert_name(v.ctors, name), ..v },
            args,
            args.len(),
        ),
        _ => v,
    }
}

/// `v` with every ground name of the first `n` terms of `ts`.
pub open spec fn with_terms(v: SpecVocabulary, ts: Seq<SpecTerm>, n: nat) -> SpecVocabulary
    decreases ts, n,
{
    if n == 0 || n > ts.len() {
        v
    } else {
        with_term(with_terms(v, ts, (n - 1) as nat), ts[n - 1])
    }
}

/// `v` with every ground name of `f`.
pub open spec fn with_fact(v: SpecVocabulary, f: SpecFact) -> SpecVocabulary {
    with_terms(v, f.args, f.args.len())
}

/// `v` with every ground name of an optional fact.
pub open spec fn with_opt_fact(v: SpecVocabulary, f: Option<SpecFact>) -> SpecVocabulary {
    match f {
        Some(f) => with_fact(v, f),
        None => v,
    }
}

/// `v` with every ground name of `p`.
pub open spec fn with_premise(v: SpecVocabulary, p: SpecPremise) -> SpecVocabulary {
    match p {
        SpecPremise::Child { slot, expect } => with_fact(v, expect),
        SpecPremise::State { expect } => with_fact(v, expect),
        SpecPremise::Eq(l, r) => with_term(with_term(v, l), r),
        SpecPremise::Neq(l, r) => with_term(with_term(v, l), r),
    }
}

/// `v` with every ground name of `ps`.
pub open spec fn with_premises(v: SpecVocabulary, ps: Seq<SpecPremise>) -> SpecVocabulary
    decreases ps.len(),
{
    if ps.len() == 0 {
        v
    } else {
        with_premise(with_premises(v, ps.drop_last()), ps.last())
    }
}

/// `v` with every ground name of `r`.
pub open spec fn with_rule(v: SpecVocabulary, r: SpecRule) -> SpecVocabulary {
    with_opt_fact(with_opt_fact(with_premises(v, r.premises), r.conclusion), r.state_after)
}

/// `v` with every ground name of `rs`.
pub open spec fn with_rules(v: SpecVocabulary, rs: Seq<SpecRule>) -> SpecVocabulary
    decreases rs.len(),
{
    if rs.len() == 0 {
        v
    } else {
        with_rule(with_rules(v, rs.drop_last()), rs.last())
    }
}

/// `v` with every ground name that a fold starts from.
pub open spec fn with_seeds(v: SpecVocabulary, ds: Seq<SpecSeqSlot>) -> SpecVocabulary
    decreases ds.len(),
{
    if ds.len() == 0 {
        v
    } else {
        with_fact(with_seeds(v, ds.drop_last()), ds.last().initial)
    }
}

/// Every ground name that `p` can mention.
pub open spec fn vocabulary_of(p: SpecProgram) -> SpecVocabulary {
    with_rules(with_seeds(no_names(), p.seq_slots), p.rules)
}

/// The first name in `e` that `f` contradicts, walking both in parallel.
pub open spec fn term_disagreement(e: SpecTerm, f: SpecTerm) -> Option<(Seq<char>, NameKind)>
    decreases e, 0nat,
{
    match (e, f) {
        (SpecTerm::Atom(a), SpecTerm::Atom(b)) => if a != b {
            Some((a, NameKind::Atom))
        } else {
            None
        },
        (SpecTerm::Ctor(an, aa), SpecTerm::Ctor(bn, ba)) => if an != bn {
            Some((an, NameKind::Ctor))
        } else if aa.len() != ba.len() {
            None
        } else {
            terms_disagreement(aa, ba, aa.len())
        },
        _ => None,
    }
}

/// The first disagreement among the first `n` pairs.
pub open spec fn terms_disagreement(es: Seq<SpecTerm>, fs: Seq<SpecTerm>, n: nat) -> Option<
    (Seq<char>, NameKind),
>
    decreases es, n,
{
    if n == 0 || n > es.len() {
        None
    } else {
        match terms_disagreement(es, fs, (n - 1) as nat) {
            Some(d) => Some(d),
            None => term_disagreement(es[n - 1], fs[n - 1]),
        }
    }
}

/// The first name in `e` that `f` contradicts. Facts of different predicates
/// or arities disagree about something a spelling correction cannot fix.
pub open spec fn disagreement(e: SpecFact, f: SpecFact) -> Option<(Seq<char>, NameKind)> {
    if e.pred != f.pred || e.args.len() != f.args.len() {
        None
    } else {
        terms_disagreement(e.args, f.args, e.args.len())
    }
}

/// `names` with every name of `more`.
pub open spec fn merge_names(names: Seq<Seq<char>>, more: Seq<Seq<char>>) -> Seq<Seq<char>>
    decreases more.len(),
{
    if more.len() == 0 {
        names
    } else {
        insert_name(merge_names(names, more.drop_last()), more.last())
    }
}

/// `names` without `name`.
pub open spec fn without_name(names: Seq<Seq<char>>, name: Seq<char>) -> Seq<Seq<char>>
    decreases names.len(),
{
    if names.len() == 0 {
        Seq::empty()
    } else if names.last() == name {
        without_name(names.drop_last(), name)
    } else {
        without_name(names.drop_last(), name).push(names.last())
    }
}

/// A name that looks misspelt, and what it may have been meant to be.
pub struct SpecHintRequest {
    pub query: Seq<char>,
    pub candidates: Seq<Seq<char>>,
}

/// What to ask a suggester about a fact that was expected but not found.
pub open spec fn hint_request_of(v: SpecVocabulary, expected: SpecFact, found: SpecFact) -> Option<
    SpecHintRequest,
> {
    match disagreement(expected, found) {
        None => None,
        Some((query, kind)) => {
            let from_found = with_fact(no_names(), found);
            let pool = match kind {
                NameKind::Atom => merge_names(v.atoms, from_found.atoms),
                NameKind::Ctor => merge_names(v.ctors, from_found.ctors),
            };
            let candidates = without_name(pool, query);
            if candidates.len() == 0 {
                None
            } else {
                Some(SpecHintRequest { query, candidates })
            }
        },
    }
}

/// A name that looks misspelt, and what it may have been meant to be.
#[derive(Debug)]
pub struct HintRequest {
    /// The name that looks misspelt.
    pub query: String,
    /// Known names of the same kind, in ascending order.
    pub candidates: Vec<String>,
}

impl View for HintRequest {
    type V = SpecHintRequest;

    open spec fn view(&self) -> SpecHintRequest {
        SpecHintRequest { query: self.query@, candidates: strings_view(self.candidates@) }
    }
}

/// The view of an optional request.
pub open spec fn opt_request(r: Option<HintRequest>) -> Option<SpecHintRequest> {
    match r {
        Some(r) => Some(r@),
        None => None,
    }
}

/// The first name in `expected` that `found` contradicts.
pub fn first_term_disagreement<'a>(expected: &'a Term, found: &Term) -> (out: Option<
    (&'a str, NameKind),
>)
    ensures
        match out {
            Some((name, kind)) => term_disagreement(expected@, found@) == Some((name@, kind)),
            None => term_disagreement(expected@, found@) is None,
        },
    decreases expected, 0nat,
{
    proof {
        lemma_ctor_view(*expected);
        lemma_ctor_view(*found);
    }
    match (expected, found) {
        (Term::Atom(a), Term::Atom(b)) => {
            if same_text(a, b) {
                None
            } else {
                Some((a.as_str(), NameKind::Atom))
            }
        },
        (Term::Ctor(an, aa), Term::Ctor(bn, ba)) => {
            if !same_text(an, bn) {
                return Some((an.as_str(), NameKind::Ctor));
            }
            if aa.len() != ba.len() {
                return None;
            }
            first_of_pairs(aa, ba)
        },
        _ => None,
    }
}

proof fn lemma_first_pair(es: Seq<SpecTerm>, fs: Seq<SpecTerm>, n: nat, m: nat)
    requires
        n <= m <= es.len(),
        terms_disagreement(es, fs, n) is Some,
    ensures
        terms_disagreement(es, fs, m) == terms_disagreement(es, fs, n),
    decreases m,
{
    if n < m {
        lemma_first_pair(es, fs, n, (m - 1) as nat);
    }
}

fn first_of_pairs<'a>(es: &'a Vec<Term>, fs: &Vec<Term>) -> (out: Option<(&'a str, NameKind)>)
    requires
        es.len() == fs.len(),
    ensures
        match out {
            Some((name, kind)) => terms_disagreement(
                terms_view(es@),
                terms_view(fs@),
                es@.len(),
            ) == Some((name@, kind)),
            None => terms_disagreement(terms_view(es@), terms_view(fs@), es@.len()) is None,
        },
    decreases es, 1nat,
{
    let ghost ev = terms_view(es@);
    let ghost fv = terms_view(fs@);
    let mut i: usize = 0;
    while i < es.len()
        invariant
            i <= es.len(),
            es.len() == fs.len(),
            ev == terms_view(es@),
            fv == terms_view(fs@),
            terms_disagreement(ev, fv, i as nat) is None,
        decreases es.len() - i,
    {
        let d = first_term_disagreement(&es[i], &fs[i]);
        proof {
            assert(ev[i as int] == es@[i as int]@);
            assert(fv[i as int] == fs@[i as int]@);
        }
        if d.is_some() {
            proof {
                assert(terms_disagreement(ev, fv, (i + 1) as nat) is Some);
                lemma_first_pair(ev, fv, (i + 1) as nat, es@.len());
            }
            return d;
        }
        i += 1;
    }
    None
}

/// The first name in `expected` that `found` contradicts.
pub fn first_disagreement<'a>(expected: &'a Fact, found: &Fact) -> (out: Option<
    (&'a str, NameKind),
>)
    ensures
        match out {
            Some((name, kind)) => disagreement(expected@, found@) == Some((name@, kind)),
            None => disagreement(expected@, found@) is None,
        },
{
    if !same_text(&expected.pred, &found.pred) || expected.args.len() != found.args.len() {
        return None;
    }
    first_of_pairs(&expected.args, &found.args)
}

fn merge_into(names: &mut Vec<String>, more: &Vec<String>)
    ensures
        strings_view(final(names)@) == merge_names(
            strings_view(old(names)@),
            strings_view(more@),
        ),
{
    let ghost mv = strings_view(more@);
    let ghost start = strings_view(names@);
    assert(mv.take(0) =~= Seq::empty());
    for i in 0..more.len()
        invariant
            mv == strings_view(more@),
            strings_view(names@) == merge_names(start, mv.take(i as int)),
    {
        proof {
            let done = mv.take(i + 1);
            assert(done.drop_last() =~= mv.take(i as int));
            assert(done.last() == more@[i as int]@);
        }
        insert_text(names, more[i].as_str());
    }
    assert(mv.take(mv.len() as int) =~= mv);
}

fn clone_names(names: &Vec<String>) -> (out: Vec<String>)
    ensures
        strings_view(out@) == strings_view(names@),
{
    let mut out: Vec<String> = Vec::new();
    for i in 0..names.len()
        invariant
            out@.len() == i,
            forall|j: int| 0 <= j < i ==> (#[trigger] out@[j])@ == names@[j]@,
    {
        out.push(names[i].clone());
    }
    assert(strings_view(out@) =~= strings_view(names@));
    out
}

fn drop_name(names: &Vec<String>, name: &str) -> (out: Vec<String>)
    ensures
        strings_view(out@) == without_name(strings_view(names@), name@),
{
    let ghost nv = strings_view(names@);
    let mut out: Vec<String> = Vec::new();
    assert(strings_view(out@) =~= without_name(nv.take(0), name@));
    for i in 0..names.len()
        invariant
            nv == strings_view(names@),
            strings_view(out@) == without_name(nv.take(i as int), name@),
    {
        proof {
            let done = nv.take(i + 1);
            assert(done.drop_last() =~= nv.take(i as int));
            assert(done.last() == names@[i as int]@);
        }
        if !same_text(names[i].as_str(), name) {
            let ghost before = strings_view(out@);
            out.push(names[i].clone());
            assert(strings_view(out@) =~= before.push(names@[i as int]@));
        }
    }
    assert(nv.take(nv.len() as int) =~= nv);
    out
}

impl Default for Vocabulary {
    fn default() -> (out: Self)
        ensures
            out@ == no_names(),
    {
        let out = Vocabulary { atoms: Vec::new(), ctors: Vec::new() };
        assert(out@.atoms =~= Seq::empty());
        assert(out@.ctors =~= Seq::empty());
        out
    }
}

impl Vocabulary {
    /// Every ground name the program itself can mention.
    pub fn of_program(program: &CheckProgram) -> (out: Self)
        ensures
            out@ == vocabulary_of(program@),
    {
        let mut out = Vocabulary::default();
        let ghost ds = program@.seq_slots;
        assert(ds.take(0) =~= Seq::empty());
        for i in 0..program.seq_slots.len()
            invariant
                ds == program@.seq_slots,
                out@ == with_seeds(no_names(), ds.take(i as int)),
        {
            proof {
                let done = ds.take(i + 1);
                assert(done.drop_last() =~= ds.take(i as int));
                assert(done.last() == program.seq_slots@[i as int]@);
            }
            out.absorb_fact(&program.seq_slots[i].initial);
        }
        assert(ds.take(ds.len() as int) =~= ds);
        let ghost seeded = out@;
        let ghost rs = program@.rules;
        assert(rs.take(0) =~= Seq::empty());
        for i in 0..program.rules.len()
            invariant
                rs == program@.rules,
                out@ == with_rules(seeded, rs.take(i as int)),
        {
            proof {
                let done = rs.take(i + 1);
                assert(done.drop_last() =~= rs.take(i as int));
                assert(done.last() == program.rules@[i as int]@);
            }
            out.absorb_rule(&program.rules[i]);
        }
        assert(rs.take(rs.len() as int) =~= rs);
        out
    }

    fn absorb_rule(&mut self, rule: &Rule)
        ensures
            final(self)@ == with_rule(old(self)@, rule@),
    {
        let ghost start = self@;
        let ghost ps = rule@.premises;
        assert(ps.take(0) =~= Seq::empty());
        for i in 0..rule.premises.len()
            invariant
                ps == premises_view(rule.premises@),
                self@ == with_premises(start, ps.take(i as int)),
        {
            proof {
                let done = ps.take(i + 1);
                assert(done.drop_last() =~= ps.take(i as int));
                assert(done.last() == rule.premises@[i as int]@);
            }
            match &rule.premises[i] {
                Premise::Child { slot: _, expect } => self.absorb_fact(expect),
                Premise::State { expect } => self.absorb_fact(expect),
                Premise::Eq(lhs, rhs) => {
                    self.absorb(lhs);
                    self.absorb(rhs);
                },
                Premise::Neq(lhs, rhs) => {
                    self.absorb(lhs);
                    self.absorb(rhs);
                },
            }
        }
        assert(ps.take(ps.len() as int) =~= ps);
        if let Some(fact) = &rule.conclusion {
            self.absorb_fact(fact);
        }
        if let Some(fact) = &rule.state_after {
            self.absorb_fact(fact);
        }
    }

    /// Adds every ground name of `fact`.
    pub fn absorb_fact(&mut self, fact: &Fact)
        ensures
            final(self)@ == with_fact(old(self)@, fact@),
    {
        self.absorb_all(&fact.args);
    }

    fn absorb_all(&mut self, terms: &Vec<Term>)
        ensures
            final(self)@ == with_terms(old(self)@, terms_view(terms@), terms@.len()),
        decreases terms, 1nat,
    {
        let ghost start = self@;
        let ghost tv = terms_view(terms@);
        for i in 0..terms.len()
            invariant
                tv == terms_view(terms@),
                self@ == with_terms(start, tv, i as nat),
        {
            self.absorb(&terms[i]);
            proof {
                assert(tv[i as int] == terms@[i as int]@);
            }
        }
    }

    /// Adds every ground name of `term`. Variables and field references name
    /// no value.
    pub fn absorb(&mut self, term: &Term)
        ensures
            final(self)@ == with_term(old(self)@, term@),
        decreases term, 0nat,
    {
        proof {
            lemma_ctor_view(*term);
        }
        match term {
            Term::Atom(name) => {
                insert_text(&mut self.atoms, name.as_str());
            },
            Term::Ctor(name, args) => {
                insert_text(&mut self.ctors, name.as_str());
                self.absorb_all(args);
            },
            _ => {},
        }
    }

    /// What to ask a suggester about `expected`, which was not what was
    /// `found`. Candidates are this vocabulary plus everything `found`
    /// mentions, without the query itself.
    pub fn hint_request(&self, expected: &Fact, found: &Fact) -> (out: Option<HintRequest>)
        ensures
            opt_request(out) == hint_request_of(self@, expected@, found@),
    {
        let (query, kind) = match first_disagreement(expected, found) {
            Some(d) => d,
            None => {
                return None;
            },
        };
        let mut from_found = Vocabulary::default();
        from_found.absorb_fact(found);
        let pool = match kind {
            NameKind::Atom => {
                let mut pool = clone_names(&self.atoms);
                merge_into(&mut pool, &from_found.atoms);
                pool
            },
            NameKind::Ctor => {
                let mut pool = clone_names(&self.ctors);
                merge_into(&mut pool, &from_found.ctors);
                pool
            },
        };
        let candidates = drop_name(&pool, query);
        assert(strings_view(candidates@).len() == candidates@.len());
        if candidates.len() == 0 {
            None
        } else {
            Some(HintRequest { query: query.to_owned(), candidates })
        }
    }

    /// A hint for the first name that `expected` and `found` disagree on, or
    /// `None` when they disagree about something a spelling correction cannot
    /// fix.
    pub fn did_you_mean<S: Suggester + ?Sized>(
        &self,
        expected: &Fact,
        found: &Fact,
        suggester: &S,
    ) -> (out: Option<String>)
        ensures
            may_hint(suggester, hint_request_of(self@, expected@, found@), opt_text(out)),
    {
        match self.hint_request(expected, found) {
            Some(request) => ask(suggester, &request),
            None => None,
        }
    }
}

/// The hints that `suggester` may give for a request: none without a request,
/// none just where it has nothing to suggest, and its own words elsewhere.
pub open spec fn may_hint<S: Suggester + ?Sized>(
    suggester: &S,
    request: Option<SpecHintRequest>,
    hint: Option<Seq<char>>,
) -> bool {
    match request {
        None => hint is None,
        Some(r) => {
            &&& exists|ss: Seq<SpecSuggestion>|
                #[trigger] suggester.may_suggest(r.query, r.candidates, ss) && (ss.len() == 0
                    <==> hint is None)
            &&& says(suggester, r.query, r.candidates, hint)
        },
    }
}

/// Puts a request to a suggester.
pub fn ask<S: Suggester + ?Sized>(suggester: &S, request: &HintRequest) -> (out: Option<String>)
    ensures
        may_hint(suggester, Some(request@), opt_text(out)),
{
    let mut names: Vec<&str> = Vec::new();
    for i in 0..request.candidates.len()
        invariant
            names@.len() == i,
            forall|j: int| 0 <= j < i ==> (#[trigger] names@[j])@ == request.candidates@[j]@,
    {
        names.push(request.candidates[i].as_str());
    }
    assert(strs_view(names@) =~= strings_view(request.candidates@));
    let query = request.query.as_str();
    let out = suggester.enrich_unknown(query, &names);
    proof {
        let ss = choose|ss: Seq<SpecSuggestion>|
            #[trigger] suggester.may_suggest(request.query@, strs_view(names@), ss) && (ss.len()
                == 0 <==> out is None);
        let r = Some(request@);
        assert(suggester.may_suggest(r->0.query, r->0.candidates, ss));
        assert(call_ensures(S::enrich_unknown, (suggester, query, &names), out));
    }
    out
}

} // verus!
