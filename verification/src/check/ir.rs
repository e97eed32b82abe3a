//! The data model a vocabulary author writes a type system, a state
//! machine or a capability discipline in.
//!
//! Everything here is plain data. A [`CheckProgram`] is a bag of
//! [`Rule`]s, one syntax-directed judgement per variant, plus the
//! declarations that say which child slots carry a sequential meaning
//! ([`SeqSlotDecl`]). The predicate name of a [`Fact`] is data too, so
//! the solver never grows a case for a new family of judgements.
use vstd::prelude::*;
use vstd::string::*;

use crate::text::{join_spec, same_text};

verus! {

// ---------------------------------------------------------------------------
// Terms and facts
// ---------------------------------------------------------------------------

/// A first-order term: the argument shape of a [`Fact`].
#[derive(Debug, PartialEq, Eq)]
pub enum Term {
    /// A ground constant: `Int`, `SystemReady`, `comfyui`.
    Atom(String),
    /// A constructor application: `ServiceRunning(comfyui)`.
    Ctor(String, Vec<Term>),
    /// A rule-local variable, written `$a` in messages.
    Var(String),
    /// The value of a payload field on the node the rule fires for.
    FieldRef(String),
}

/// The mathematical shape of a [`Term`].
pub enum SpecTerm {
    Atom(Seq<char>),
    Ctor(Seq<char>, Seq<SpecTerm>),
    Var(Seq<char>),
    FieldRef(Seq<char>),
}

pub open spec fn term_view(t: Term) -> SpecTerm
    decreases t,
{
    match t {
        Term::Atom(name) => SpecTerm::Atom(name@),
        Term::Var(name) => SpecTerm::Var(name@),
        Term::FieldRef(name) => SpecTerm::FieldRef(name@),
        Term::Ctor(name, args) => SpecTerm::Ctor(
            name@,
            Seq::new(
                args@.len(),
                |i: int|
                    if 0 <= i < args@.len() {
                        term_view(args@[i])
                    } else {
                        SpecTerm::Atom(name@)
                    },
            ),
        ),
    }
}

impl View for Term {
    type V = SpecTerm;

    open spec fn view(&self) -> SpecTerm {
        term_view(*self)
    }
}

/// The views of a sequence of terms.
pub open spec fn terms_view(ts: Seq<Term>) -> Seq<SpecTerm> {
    Seq::new(ts.len(), |i: int| ts[i]@)
}

/// A `Ctor`'s view holds its arguments' views.
pub proof fn lemma_ctor_view(t: Term)
    ensures
        t matches Term::Ctor(name, args) ==> t@ == SpecTerm::Ctor(name@, terms_view(args@)),
{
    if let Term::Ctor(name, args) = t {
        assert(t@->Ctor_1 =~= terms_view(args@));
    }
}

/// The text a term is shown as: `Int`, `$a`, `@name`, `Running(comfyui)`.
pub open spec fn term_text(t: SpecTerm) -> Seq<char>
    decreases t, 0int,
{
    match t {
        SpecTerm::Atom(name) => name,
        SpecTerm::Var(name) => "$"@ + name,
        SpecTerm::FieldRef(name) => "@"@ + name,
        SpecTerm::Ctor(name, args) => name + args_text(args),
    }
}

/// The texts of a sequence of terms.
pub open spec fn term_texts(ts: Seq<SpecTerm>) -> Seq<Seq<char>>
    decreases ts, 0int,
{
    Seq::new(
        ts.len(),
        |i: int|
            if 0 <= i < ts.len() {
                term_text(ts[i])
            } else {
                Seq::empty()
            },
    )
}

/// `(a, b)`, or nothing at all when there are no arguments.
pub open spec fn args_text(ts: Seq<SpecTerm>) -> Seq<char>
    decreases ts, 1int,
{
    if ts.len() == 0 {
        Seq::empty()
    } else {
        "("@ + join_spec(term_texts(ts), ", "@) + ")"@
    }
}

/// Appends `(a, b)` to `out`, or nothing when `args` is empty.
fn push_args(out: &mut String, args: &Vec<Term>)
    ensures
        final(out)@ == old(out)@ + args_text(terms_view(args@)),
    decreases args, 0int,
{
    if args.len() == 0 {
        assert(out@ =~= old(out)@ + args_text(terms_view(args@)));
        return;
    }
    let ghost start = out@;
    let ghost texts = term_texts(terms_view(args@));
    out.append("(");
    let mut i: usize = 0;
    while i < args.len()
        invariant
            i <= args.len(),
            texts == term_texts(terms_view(args@)),
            out@ == start + "("@ + join_spec(texts.take(i as int), ", "@),
        decreases args.len() - i,
    {
        if i > 0 {
            out.append(", ");
        }
        args[i].push_text(out);
        proof {
            let done = texts.take(i + 1);
            assert(done.drop_last() =~= texts.take(i as int));
            assert(done.last() == texts[i as int]);
            assert(texts[i as int] == term_text(args@[i as int]@));
            assert(out@ =~= start + "("@ + join_spec(done, ", "@));
        }
        i += 1;
    }
    assert(texts.take(i as int) =~= texts);
    out.append(")");
    assert(out@ =~= start + args_text(terms_view(args@)));
}

impl Term {
    /// Appends the term's text to `out`.
    pub fn push_text(&self, out: &mut String)
        ensures
            final(out)@ == old(out)@ + term_text(self@),
        decreases self, 1int,
    {
        match self {
            Term::Atom(name) => {
                out.append(name.as_str());
            },
            Term::Var(name) => {
                out.append("$");
                out.append(name.as_str());
                assert(out@ =~= old(out)@ + term_text(self@));
            },
            Term::FieldRef(name) => {
                out.append("@");
                out.append(name.as_str());
                assert(out@ =~= old(out)@ + term_text(self@));
            },
            Term::Ctor(name, args) => {
                out.append(name.as_str());
                push_args(out, args);
                proof {
                    lemma_ctor_view(*self);
                    assert(out@ =~= old(out)@ + term_text(self@));
                }
            },
        }
    }

    /// The text the term is shown as.
    pub fn to_text(&self) -> (out: String)
        ensures
            out@ == term_text(self@),
    {
        let mut out = String::new();
        self.push_text(&mut out);
        assert(out@ =~= term_text(self@));
        out
    }

    /// Structural equality of two terms.
    pub fn same_as(&self, other: &Term) -> (same: bool)
        ensures
            same == (self@ == other@),
        decreases self,
    {
        match (self, other) {
            (Term::Atom(a), Term::Atom(b)) => same_text(a, b),
            (Term::Var(a), Term::Var(b)) => same_text(a, b),
            (Term::FieldRef(a), Term::FieldRef(b)) => same_text(a, b),
            (Term::Ctor(an, aa), Term::Ctor(bn, ba)) => {
                proof {
                    lemma_ctor_view(*self);
                    lemma_ctor_view(*other);
                }
                if !same_text(an, bn) || aa.len() != ba.len() {
                    assert(terms_view(aa@).len() == aa.len());
                    assert(terms_view(ba@).len() == ba.len());
                    return false;
                }
                let mut i: usize = 0;
                while i < aa.len()
                    invariant
                        i <= aa.len(),
                        aa.len() == ba.len(),
                        an@ == bn@,
                        self matches Term::Ctor(n, a) && a == aa,
                        self@ == SpecTerm::Ctor(an@, terms_view(aa@)),
                        other@ == SpecTerm::Ctor(bn@, terms_view(ba@)),
                        forall|j: int| 0 <= j < i ==> (#[trigger] aa@[j])@ == ba@[j]@,
                    decreases aa.len() - i,
                {
                    if !aa[i].same_as(&ba[i]) {
                        assert(terms_view(aa@)[i as int] != terms_view(ba@)[i as int]);
                        return false;
                    }
                    i += 1;
                }
                assert(terms_view(aa@) =~= terms_view(ba@));
                true
            },
            _ => false,
        }
    }
}

impl Clone for Term {
    fn clone(&self) -> (out: Self)
        ensures
            out@ == self@,
        decreases self,
    {
        match self {
            Term::Atom(name) => Term::Atom(name.clone()),
            Term::Var(name) => Term::Var(name.clone()),
            Term::FieldRef(name) => Term::FieldRef(name.clone()),
            Term::Ctor(name, args) => {
                let mut out: Vec<Term> = Vec::new();
                for i in 0..args.len()
                    invariant
                        out@.len() == i,
                        self matches Term::Ctor(n, a) && a == args,
                        forall|j: int| 0 <= j < i ==> (#[trigger] out@[j])@ == args@[j]@,
                {
                    out.push(args[i].clone());
                }
                let t = Term::Ctor(name.clone(), out);
                assert(t@->Ctor_1 =~= self@->Ctor_1);
                t
            },
        }
    }
}

/// Clones a list of terms.
pub fn clone_terms(ts: &Vec<Term>) -> (out: Vec<Term>)
    ensures
        terms_view(out@) == terms_view(ts@),
{
    let mut out: Vec<Term> = Vec::new();
    for i in 0..ts.len()
        invariant
            out@.len() == i,
            forall|j: int| 0 <= j < i ==> (#[trigger] out@[j])@ == ts@[j]@,
    {
        out.push(ts[i].clone());
    }
    assert(terms_view(out@) =~= terms_view(ts@));
    out
}

/// A judgement the solver derives or matches: a predicate name plus
/// argument terms, as in `type(Int)` or `cap(net, outbound)`.
#[derive(Debug, PartialEq, Eq)]
pub struct Fact {
    /// Predicate name.
    pub pred: String,
    /// Argument terms. A fact only matches another of the same predicate
    /// and the same arity.
    pub args: Vec<Term>,
}

/// The mathematical shape of a [`Fact`].
pub struct SpecFact {
    pub pred: Seq<char>,
    pub args: Seq<SpecTerm>,
}

impl View for Fact {
    type V = SpecFact;

    open spec fn view(&self) -> SpecFact {
        SpecFact { pred: self.pred@, args: terms_view(self.args@) }
    }
}

/// The text a fact is shown as: `type(Bool)`, or `ready` without arguments.
pub open spec fn fact_text(f: SpecFact) -> Seq<char> {
    f.pred + args_text(f.args)
}

impl Clone for Fact {
    fn clone(&self) -> (out: Self)
        ensures
            out@ == self@,
    {
        Fact { pred: self.pred.clone(), args: clone_terms(&self.args) }
    }
}

impl Fact {
    /// Builds a fact from a predicate name and its arguments.
    pub fn new(pred: &str, args: Vec<Term>) -> (out: Self)
        ensures
            out@ == (SpecFact { pred: pred@, args: terms_view(args@) }),
    {
        Fact { pred: pred.to_owned(), args }
    }

    /// The text the fact is shown as.
    pub fn to_text(&self) -> (out: String)
        ensures
            out@ == fact_text(self@),
    {
        let mut out = String::new();
        out.append(self.pred.as_str());
        push_args(&mut out, &self.args);
        assert(out@ =~= fact_text(self@));
        out
    }

    /// Structural equality of two facts.
    pub fn same_as(&self, other: &Fact) -> (same: bool)
        ensures
            same == (self@ == other@),
    {
        if !same_text(&self.pred, &other.pred) || self.args.len() != other.args.len() {
            assert(self@.args.len() == self.args.len());
            assert(other@.args.len() == other.args.len());
            return false;
        }
        let mut i: usize = 0;
        while i < self.args.len()
            invariant
                i <= self.args.len(),
                self.args.len() == other.args.len(),
                self.pred@ == other.pred@,
                forall|j: int| 0 <= j < i ==> (#[trigger] self.args@[j])@ == other.args@[j]@,
            decreases self.args.len() - i,
        {
            if !self.args[i].same_as(&other.args[i]) {
                assert(self@.args[i as int] != other@.args[i as int]);
                return false;
            }
            i += 1;
        }
        assert(self@.args =~= other@.args);
        true
    }
}

/// The view of an optional fact.
pub open spec fn opt_fact_view(f: Option<Fact>) -> Option<SpecFact> {
    match f {
        Some(f) => Some(f@),
        None => None,
    }
}

/// Clones an optional fact.
pub fn clone_opt_fact(f: &Option<Fact>) -> (out: Option<Fact>)
    ensures
        opt_fact_view(out) == opt_fact_view(*f),
{
    match f {
        Some(f) => Some(f.clone()),
        None => None,
    }
}

/// Builds a [`Term::Atom`].
pub fn atom(name: &str) -> (out: Term)
    ensures
        out@ == SpecTerm::Atom(name@),
{
    Term::Atom(name.to_owned())
}

/// Builds a [`Term::Var`]. The name is written without the `$` sigil.
pub fn var(name: &str) -> (out: Term)
    ensures
        out@ == SpecTerm::Var(name@),
{
    Term::Var(name.to_owned())
}

/// Builds a [`Term::Ctor`].
pub fn ctor(name: &str, args: Vec<Term>) -> (out: Term)
    ensures
        out@ == SpecTerm::Ctor(name@, terms_view(args@)),
{
    let out = Term::Ctor(name.to_owned(), args);
    proof {
        lemma_ctor_view(out);
    }
    out
}

/// Builds a [`Term::FieldRef`] to a payload field of the node the rule
/// fires for.
pub fn field_ref(name: &str) -> (out: Term)
    ensures
        out@ == SpecTerm::FieldRef(name@),
{
    Term::FieldRef(name.to_owned())
}

/// Builds a [`Fact`]. Shorthand for [`Fact::new`].
pub fn fact(pred: &str, args: Vec<Term>) -> (out: Fact)
    ensures
        out@ == (SpecFact { pred: pred@, args: terms_view(args@) }),
{
    Fact::new(pred, args)
}

// ---------------------------------------------------------------------------
// Premises
// ---------------------------------------------------------------------------

/// One condition a [`Rule`] needs before it fires.
///
/// Premises are evaluated left to right and share one binding
/// environment, so an earlier premise can bind a variable that a later
/// one constrains.
#[derive(Debug, PartialEq, Eq)]
pub enum Premise {
    /// The conclusion of every child in `slot` must unify with `expect`.
    /// A slot that is absent or empty, and a child without a conclusion,
    /// satisfy the premise vacuously.
    Child {
        /// Child slot name on the node the rule fires for.
        slot: String,
        /// Pattern the child's conclusion must match.
        expect: Fact,
    },
    /// The running fold state must unify with `expect`. Where no state is
    /// in scope the premise passes vacuously.
    State {
        /// Pattern the running state must match.
        expect: Fact,
    },
    /// Two terms must unify, binding variables in the process.
    Eq(Term, Term),
    /// Two terms must not be provably equal. Open terms are never provably
    /// equal.
    Neq(Term, Term),
}

/// The mathematical shape of a [`Premise`].
pub enum SpecPremise {
    Child { slot: Seq<char>, expect: SpecFact },
    State { expect: SpecFact },
    Eq(SpecTerm, SpecTerm),
    Neq(SpecTerm, SpecTerm),
}

impl View for Premise {
    type V = SpecPremise;

    open spec fn view(&self) -> SpecPremise {
        match self {
            Premise::Child { slot, expect } => SpecPremise::Child { slot: slot@, expect: expect@ },
            Premise::State { expect } => SpecPremise::State { expect: expect@ },
            Premise::Eq(lhs, rhs) => SpecPremise::Eq(lhs@, rhs@),
            Premise::Neq(lhs, rhs) => SpecPremise::Neq(lhs@, rhs@),
        }
    }
}

impl Clone for Premise {
    fn clone(&self) -> (out: Self)
        ensures
            out@ == self@,
    {
        match self {
            Premise::Child { slot, expect } => Premise::Child {
                slot: slot.clone(),
                expect: expect.clone(),
            },
            Premise::State { expect } => Premise::State { expect: expect.clone() },
            Premise::Eq(lhs, rhs) => Premise::Eq(lhs.clone(), rhs.clone()),
            Premise::Neq(lhs, rhs) => Premise::Neq(lhs.clone(), rhs.clone()),
        }
    }
}

impl Premise {
    /// Structural equality of two premises.
    pub fn same_as(&self, other: &Premise) -> (same: bool)
        ensures
            same == (self@ == other@),
    {
        match (self, other) {
            (Premise::Child { slot: a, expect: e }, Premise::Child { slot: b, expect: f }) => same_text(
                a,
                b,
            ) && e.same_as(f),
            (Premise::State { expect: e }, Premise::State { expect: f }) => e.same_as(f),
            (Premise::Eq(a, b), Premise::Eq(c, d)) => a.same_as(c) && b.same_as(d),
            (Premise::Neq(a, b), Premise::Neq(c, d)) => a.same_as(c) && b.same_as(d),
            _ => false,
        }
    }
}

/// The views of a sequence of premises.
pub open spec fn premises_view(ps: Seq<Premise>) -> Seq<SpecPremise> {
    Seq::new(ps.len(), |i: int| ps[i]@)
}

/// Clones a list of premises.
pub fn clone_premises(ps: &Vec<Premise>) -> (out: Vec<Premise>)
    ensures
        premises_view(out@) == premises_view(ps@),
{
    let mut out: Vec<Premise> = Vec::new();
    for i in 0..ps.len()
        invariant
            out@.len() == i,
            forall|j: int| 0 <= j < i ==> (#[trigger] out@[j])@ == ps@[j]@,
    {
        out.push(ps[i].clone());
    }
    assert(premises_view(out@) =~= premises_view(ps@));
    out
}

/// Whether two lists hold the same premises in the same order.
pub fn same_premises(a: &Vec<Premise>, b: &Vec<Premise>) -> (same: bool)
    ensures
        same == (premises_view(a@) == premises_view(b@)),
{
    if a.len() != b.len() {
        assert(premises_view(a@).len() != premises_view(b@).len());
        return false;
    }
    let mut i: usize = 0;
    while i < a.len()
        invariant
            i <= a.len(),
            a.len() == b.len(),
            forall|j: int| 0 <= j < i ==> (#[trigger] a@[j])@ == b@[j]@,
        decreases a.len() - i,
    {
        if !a[i].same_as(&b[i]) {
            assert(premises_view(a@)[i as int] != premises_view(b@)[i as int]);
            return false;
        }
        i += 1;
    }
    assert(premises_view(a@) =~= premises_view(b@));
    true
}

// ---------------------------------------------------------------------------
// Messages
// ---------------------------------------------------------------------------

/// The wording a [`Rule`] emits when its premises do not hold.
///
/// | hole | expands to |
/// |---|---|
/// | `{$name}` | the value bound to `$name`, or `?` if unbound |
/// | `{slot}` | the child slot under evaluation, `?` outside a `Child` premise |
/// | `{expected}` | the premise pattern, with bindings applied |
/// | `{found}` | the fact that was actually there |
/// | `{provenance}` | where the offending fact came from |
///
/// An unrecognised hole is left verbatim.
#[derive(Debug, PartialEq, Eq)]
pub struct MessageTemplate {
    /// Stable diagnostic slug.
    pub code: &'static str,
    /// Template text with `{…}` holes.
    pub template: String,
}

/// The mathematical shape of a [`MessageTemplate`].
pub struct SpecMessage {
    pub code: Seq<char>,
    pub template: Seq<char>,
}

impl View for MessageTemplate {
    type V = SpecMessage;

    open spec fn view(&self) -> SpecMessage {
        SpecMessage { code: self.code@, template: self.template@ }
    }
}

impl Clone for MessageTemplate {
    fn clone(&self) -> (out: Self)
        ensures
            out@ == self@,
    {
        MessageTemplate { code: self.code, template: self.template.clone() }
    }
}

impl MessageTemplate {
    /// Builds a template from a code slug and template text.
    pub fn new(code: &'static str, template: &str) -> (out: Self)
        ensures
            out@ == (SpecMessage { code: code@, template: template@ }),
    {
        MessageTemplate { code, template: template.to_owned() }
    }
}

// ---------------------------------------------------------------------------
// Rules
// ---------------------------------------------------------------------------

/// One syntax-directed judgement, attached to a variant by name.
#[derive(Debug, PartialEq, Eq)]
pub struct Rule {
    /// Variant this rule fires for.
    pub variant: String,
    /// Conditions, evaluated in order under one binding environment.
    pub premises: Vec<Premise>,
    /// Attribute handed to the parent; `None` contributes no fact.
    pub conclusion: Option<Fact>,
    /// State the node moves the enclosing fold to; `None` leaves it alone.
    pub state_after: Option<Fact>,
    /// Wording emitted when a premise fails.
    pub message: MessageTemplate,
}

/// The mathematical shape of a [`Rule`].
pub struct SpecRule {
    pub variant: Seq<char>,
    pub premises: Seq<SpecPremise>,
    pub conclusion: Option<SpecFact>,
    pub state_after: Option<SpecFact>,
    pub message: SpecMessage,
}

impl View for Rule {
    type V = SpecRule;

    open spec fn view(&self) -> SpecRule {
        SpecRule {
            variant: self.variant@,
            premises: premises_view(self.premises@),
            conclusion: opt_fact_view(self.conclusion),
            state_after: opt_fact_view(self.state_after),
            message: self.message@,
        }
    }
}

impl Clone for Rule {
    fn clone(&self) -> (out: Self)
        ensures
            out@ == self@,
    {
        Rule {
            variant: self.variant.clone(),
            premises: clone_premises(&self.premises),
            conclusion: clone_opt_fact(&self.conclusion),
            state_after: clone_opt_fact(&self.state_after),
            message: self.message.clone(),
        }
    }
}

impl Rule {
    /// Starts building a rule for `variant`.
    pub fn on(variant: &str) -> (out: RuleBuilder)
        ensures
            out@ == (SpecRuleDraft {
                variant: variant@,
                premises: Seq::empty(),
                conclusion: None,
                state_after: None,
            }),
    {
        let out = RuleBuilder {
            variant: variant.to_owned(),
            premises: Vec::new(),
            conclusion: None,
            state_after: None,
        };
        assert(out@.premises =~= Seq::empty());
        out
    }
}

/// Fluent builder for a [`Rule`]. See [`Rule::on`].
#[derive(Debug)]
pub struct RuleBuilder {
    variant: String,
    premises: Vec<Premise>,
    conclusion: Option<Fact>,
    state_after: Option<Fact>,
}

/// What a [`RuleBuilder`] has been told so far.
pub struct SpecRuleDraft {
    pub variant: Seq<char>,
    pub premises: Seq<SpecPremise>,
    pub conclusion: Option<SpecFact>,
    pub state_after: Option<SpecFact>,
}

impl View for RuleBuilder {
    type V = SpecRuleDraft;

    closed spec fn view(&self) -> SpecRuleDraft {
        SpecRuleDraft {
            variant: self.variant@,
            premises: premises_view(self.premises@),
            conclusion: opt_fact_view(self.conclusion),
            state_after: opt_fact_view(self.state_after),
        }
    }
}

impl Clone for RuleBuilder {
    fn clone(&self) -> (out: Self)
        ensures
            out@ == self@,
    {
        RuleBuilder {
            variant: self.variant.clone(),
            premises: clone_premises(&self.premises),
            conclusion: clone_opt_fact(&self.conclusion),
            state_after: clone_opt_fact(&self.state_after),
        }
    }
}

impl RuleBuilder {
    /// Adds a [`Premise::Child`].
    pub fn child(self, slot: &str, expect: Fact) -> (out: Self)
        ensures
            out@ == (SpecRuleDraft {
                premises: self@.premises.push(
                    SpecPremise::Child { slot: slot@, expect: expect@ },
                ),
                ..self@
            }),
    {
        self.premise(Premise::Child { slot: slot.to_owned(), expect })
    }

    /// Adds a [`Premise::State`].
    pub fn requires_state(self, expect: Fact) -> (out: Self)
        ensures
            out@ == (SpecRuleDraft {
                premises: self@.premises.push(SpecPremise::State { expect: expect@ }),
                ..self@
            }),
    {
        self.premise(Premise::State { expect })
    }

    /// Adds a [`Premise::Eq`].
    pub fn eq(self, lhs: Term, rhs: Term) -> (out: Self)
        ensures
            out@ == (SpecRuleDraft {
                premises: self@.premises.push(SpecPremise::Eq(lhs@, rhs@)),
                ..self@
            }),
    {
        self.premise(Premise::Eq(lhs, rhs))
    }

    /// Adds a [`Premise::Neq`].
    pub fn neq(self, lhs: Term, rhs: Term) -> (out: Self)
        ensures
            out@ == (SpecRuleDraft {
                premises: self@.premises.push(SpecPremise::Neq(lhs@, rhs@)),
                ..self@
            }),
    {
        self.premise(Premise::Neq(lhs, rhs))
    }

    /// Adds an already-built premise.
    pub fn premise(self, premise: Premise) -> (out: Self)
        ensures
            out@ == (SpecRuleDraft { premises: self@.premises.push(premise@), ..self@ }),
    {
        let mut out = self;
        out.premises.push(premise);
        assert(out@.premises =~= self@.premises.push(premise@));
        out
    }

    /// Sets the conclusion handed to the parent.
    pub fn concludes(self, conclusion: Fact) -> (out: Self)
        ensures
            out@ == (SpecRuleDraft { conclusion: Some(conclusion@), ..self@ }),
    {
        let mut out = self;
        out.conclusion = Some(conclusion);
        out
    }

    /// Sets the state this node moves the enclosing fold to.
    pub fn transitions_to(self, state: Fact) -> (out: Self)
        ensures
            out@ == (SpecRuleDraft { state_after: Some(state@), ..self@ }),
    {
        let mut out = self;
        out.state_after = Some(state);
        out
    }

    /// Attaches the failure wording and finishes the rule.
    pub fn message(self, code: &'static str, template: &str) -> (out: Rule)
        ensures
            out@ == (SpecRule {
                variant: self@.variant,
                premises: self@.premises,
                conclusion: self@.conclusion,
                state_after: self@.state_after,
                message: SpecMessage { code: code@, template: template@ },
            }),
    {
        Rule {
            variant: self.variant,
            premises: self.premises,
            conclusion: self.conclusion,
            state_after: self.state_after,
            message: MessageTemplate::new(code, template),
        }
    }
}

// ---------------------------------------------------------------------------
// Sequential slots
// ---------------------------------------------------------------------------

/// How a child slot's elements relate to each other.
#[derive(Debug, Clone, Copy, PartialEq, Eq, Structural)]
pub enum SeqMode {
    /// Order matters: a state is threaded left to right through the
    /// slot's children.
    Fold,
    /// Order does not matter: every child sees the same incoming state.
    All,
}

/// Declares that a `(variant, slot)` pair carries a sequential meaning,
/// and what state the sequence starts from.
#[derive(Debug, PartialEq, Eq)]
pub struct SeqSlotDecl {
    /// Variant owning the slot.
    pub variant: String,
    /// Slot name on that variant.
    pub slot: String,
    /// State the fold starts from.
    pub initial: Fact,
    /// Fold or independent evaluation.
    pub mode: SeqMode,
}

/// The mathematical shape of a [`SeqSlotDecl`].
pub struct SpecSeqSlot {
    pub variant: Seq<char>,
    pub slot: Seq<char>,
    pub initial: SpecFact,
    pub mode: SeqMode,
}

impl View for SeqSlotDecl {
    type V = SpecSeqSlot;

    open spec fn view(&self) -> SpecSeqSlot {
        SpecSeqSlot {
            variant: self.variant@,
            slot: self.slot@,
            initial: self.initial@,
            mode: self.mode,
        }
    }
}

impl Clone for SeqSlotDecl {
    fn clone(&self) -> (out: Self)
        ensures
            out@ == self@,
    {
        SeqSlotDecl {
            variant: self.variant.clone(),
            slot: self.slot.clone(),
            initial: self.initial.clone(),
            mode: self.mode,
        }
    }
}

impl SeqSlotDecl {
    /// Declares a [`SeqMode::Fold`] slot.
    pub fn fold(variant: &str, slot: &str, initial: Fact) -> (out: Self)
        ensures
            out@ == (SpecSeqSlot {
                variant: variant@,
                slot: slot@,
                initial: initial@,
                mode: SeqMode::Fold,
            }),
    {
        SeqSlotDecl {
            variant: variant.to_owned(),
            slot: slot.to_owned(),
            initial,
            mode: SeqMode::Fold,
        }
    }

    /// Declares a [`SeqMode::All`] slot, the same as leaving it undeclared.
    pub fn all(variant: &str, slot: &str, initial: Fact) -> (out: Self)
        ensures
            out@ == (SpecSeqSlot {
                variant: variant@,
                slot: slot@,
                initial: initial@,
                mode: SeqMode::All,
            }),
    {
        SeqSlotDecl {
            variant: variant.to_owned(),
            slot: slot.to_owned(),
            initial,
            mode: SeqMode::All,
        }
    }
}

// ---------------------------------------------------------------------------
// Program
// ---------------------------------------------------------------------------

/// A whole type system, state machine or capability discipline as data.
#[derive(Debug, PartialEq, Eq)]
pub struct CheckProgram {
    /// Judgements. Several rules per variant are tried in declaration
    /// order; the first whose premises all hold wins.
    pub rules: Vec<Rule>,
    /// Slots whose children carry a sequential meaning.
    pub seq_slots: Vec<SeqSlotDecl>,
}

/// The mathematical shape of a [`CheckProgram`].
pub struct SpecProgram {
    pub rules: Seq<SpecRule>,
    pub seq_slots: Seq<SpecSeqSlot>,
}

/// The views of a sequence of rules.
pub open spec fn rules_view(rs: Seq<Rule>) -> Seq<SpecRule> {
    Seq::new(rs.len(), |i: int| rs[i]@)
}

/// The views of a sequence of borrowed rules.
pub open spec fn rule_refs_view(rs: Seq<&Rule>) -> Seq<SpecRule> {
    Seq::new(rs.len(), |i: int| rs[i]@)
}

/// The views of a sequence of slot declarations.
pub open spec fn slots_view(ds: Seq<SeqSlotDecl>) -> Seq<SpecSeqSlot> {
    Seq::new(ds.len(), |i: int| ds[i]@)
}

impl View for CheckProgram {
    type V = SpecProgram;

    open spec fn view(&self) -> SpecProgram {
        SpecProgram { rules: rules_view(self.rules@), seq_slots: slots_view(self.seq_slots@) }
    }
}

impl Clone for CheckProgram {
    fn clone(&self) -> (out: Self)
        ensures
            out@ == self@,
    {
        let mut rules: Vec<Rule> = Vec::new();
        for i in 0..self.rules.len()
            invariant
                rules@.len() == i,
                forall|j: int| 0 <= j < i ==> (#[trigger] rules@[j])@ == self.rules@[j]@,
        {
            rules.push(self.rules[i].clone());
        }
        let mut seq_slots: Vec<SeqSlotDecl> = Vec::new();
        for i in 0..self.seq_slots.len()
            invariant
                seq_slots@.len() == i,
                forall|j: int| 0 <= j < i ==> (#[trigger] seq_slots@[j])@ == self.seq_slots@[j]@,
        {
            seq_slots.push(self.seq_slots[i].clone());
        }
        let out = CheckProgram { rules, seq_slots };
        assert(out@.rules =~= self@.rules);
        assert(out@.seq_slots =~= self@.seq_slots);
        out
    }
}

impl Default for CheckProgram {
    fn default() -> (out: Self)
        ensures
            out@ == (SpecProgram { rules: Seq::empty(), seq_slots: Seq::empty() }),
    {
        let out = CheckProgram { rules: Vec::new(), seq_slots: Vec::new() };
        assert(out@.rules =~= Seq::empty());
        assert(out@.seq_slots =~= Seq::empty());
        out
    }
}

/// The rules of `rules` that are attached to `variant`, in order.
pub open spec fn rules_on(rules: Seq<SpecRule>, variant: Seq<char>) -> Seq<SpecRule>
    decreases rules.len(),
{
    if rules.len() == 0 {
        Seq::empty()
    } else if rules.last().variant == variant {
        rules_on(rules.drop_last(), variant).push(rules.last())
    } else {
        rules_on(rules.drop_last(), variant)
    }
}

/// The first declaration in `decls` for `(variant, slot)`.
pub open spec fn slot_decl(
    decls: Seq<SpecSeqSlot>,
    variant: Seq<char>,
    slot: Seq<char>,
) -> Option<SpecSeqSlot>
    decreases decls.len(),
{
    if decls.len() == 0 {
        None
    } else if decls[0].variant == variant && decls[0].slot == slot {
        Some(decls[0])
    } else {
        slot_decl(decls.skip(1), variant, slot)
    }
}

impl CheckProgram {
    /// Builds a program from its two parts.
    pub fn new(rules: Vec<Rule>, seq_slots: Vec<SeqSlotDecl>) -> (out: Self)
        ensures
            out@ == (SpecProgram {
                rules: rules_view(rules@),
                seq_slots: slots_view(seq_slots@),
            }),
    {
        CheckProgram { rules, seq_slots }
    }

    /// Starts a [`CheckProgramBuilder`].
    pub fn builder() -> (out: CheckProgramBuilder)
        ensures
            out@ == (SpecProgram { rules: Seq::empty(), seq_slots: Seq::empty() }),
    {
        CheckProgramBuilder::default()
    }

    /// Rules attached to `variant`, in declaration order.
    pub fn rules_for<'a>(&'a self, variant: &str) -> (out: Vec<&'a Rule>)
        ensures
            rule_refs_view(out@) == rules_on(self@.rules, variant@),
    {
        let mut out: Vec<&'a Rule> = Vec::new();
        let ghost all = self@.rules;
        assert(rule_refs_view(out@) =~= rules_on(all.take(0), variant@));
        for i in 0..self.rules.len()
            invariant
                all == self@.rules,
                rule_refs_view(out@) == rules_on(all.take(i as int), variant@),
        {
            proof {
                let next = all.take(i + 1);
                assert(next.drop_last() =~= all.take(i as int));
                assert(next.last() == self.rules@[i as int]@);
            }
            let ghost before = out@;
            if same_text(&self.rules[i].variant, variant) {
                out.push(&self.rules[i]);
                assert(rule_refs_view(out@) =~= rule_refs_view(before).push(
                    self.rules@[i as int]@,
                ));
            }
        }
        assert(all.take(all.len() as int) =~= all);
        out
    }

    /// The declaration for a `(variant, slot)` pair, if any.
    pub fn seq_slot<'a>(&'a self, variant: &str, slot: &str) -> (out: Option<&'a SeqSlotDecl>)
        ensures
            match out {
                Some(d) => slot_decl(self@.seq_slots, variant@, slot@) == Some(d@),
                None => slot_decl(self@.seq_slots, variant@, slot@) is None,
            },
    {
        let ghost all = self@.seq_slots;
        assert(all.skip(0) =~= all);
        for i in 0..self.seq_slots.len()
            invariant
                all == self@.seq_slots,
                slot_decl(all, variant@, slot@) == slot_decl(all.skip(i as int), variant@, slot@),
        {
            let d = &self.seq_slots[i];
            proof {
                let rest = all.skip(i as int);
                assert(rest[0] == d@);
                assert(rest.skip(1) =~= all.skip(i + 1));
            }
            if same_text(&d.variant, variant) && same_text(&d.slot, slot) {
                return Some(d);
            }
        }
        None
    }
}

/// Fluent builder for a [`CheckProgram`]. See [`CheckProgram::builder`].
#[derive(Debug)]
pub struct CheckProgramBuilder {
    rules: Vec<Rule>,
    seq_slots: Vec<SeqSlotDecl>,
}

impl View for CheckProgramBuilder {
    type V = SpecProgram;

    closed spec fn view(&self) -> SpecProgram {
        SpecProgram { rules: rules_view(self.rules@), seq_slots: slots_view(self.seq_slots@) }
    }
}

impl Clone for CheckProgramBuilder {
    fn clone(&self) -> (out: Self)
        ensures
            out@ == self@,
    {
        let mut rules: Vec<Rule> = Vec::new();
        for i in 0..self.rules.len()
            invariant
                rules@.len() == i,
                forall|j: int| 0 <= j < i ==> (#[trigger] rules@[j])@ == self.rules@[j]@,
        {
            rules.push(self.rules[i].clone());
        }
        let mut seq_slots: Vec<SeqSlotDecl> = Vec::new();
        for i in 0..self.seq_slots.len()
            invariant
                seq_slots@.len() == i,
                forall|j: int| 0 <= j < i ==> (#[trigger] seq_slots@[j])@ == self.seq_slots@[j]@,
        {
            seq_slots.push(self.seq_slots[i].clone());
        }
        let out = CheckProgramBuilder { rules, seq_slots };
        assert(out@.rules =~= self@.rules);
        assert(out@.seq_slots =~= self@.seq_slots);
        out
    }
}

impl Default for CheckProgramBuilder {
    fn default() -> (out: Self)
        ensures
            out@ == (SpecProgram { rules: Seq::empty(), seq_slots: Seq::empty() }),
    {
        let out = CheckProgramBuilder { rules: Vec::new(), seq_slots: Vec::new() };
        assert(out@.rules =~= Seq::empty());
        assert(out@.seq_slots =~= Seq::empty());
        out
    }
}

impl CheckProgramBuilder {
    /// Appends a rule.
    pub fn rule(self, rule: Rule) -> (out: Self)
        ensures
            out@ == (SpecProgram { rules: self@.rules.push(rule@), ..self@ }),
    {
        let mut out = self;
        out.rules.push(rule);
        assert(out@.rules =~= self@.rules.push(rule@));
        out
    }

    /// Appends a sequential-slot declaration.
    pub fn seq_slot(self, decl: SeqSlotDecl) -> (out: Self)
        ensures
            out@ == (SpecProgram { seq_slots: self@.seq_slots.push(decl@), ..self@ }),
    {
        let mut out = self;
        out.seq_slots.push(decl);
        assert(out@.seq_slots =~= self@.seq_slots.push(decl@));
        out
    }

    /// Shorthand for `seq_slot(SeqSlotDecl::fold(variant, slot, initial))`.
    pub fn fold_slot(self, variant: &str, slot: &str, initial: Fact) -> (out: Self)
        ensures
            out@ == (SpecProgram {
                seq_slots: self@.seq_slots.push(
                    SpecSeqSlot {
                        variant: variant@,
                        slot: slot@,
                        initial: initial@,
                        mode: SeqMode::Fold,
                    },
                ),
                ..self@
            }),
    {
        self.seq_slot(SeqSlotDecl::fold(variant, slot, initial))
    }

    /// Finishes the program.
    pub fn build(self) -> (out: CheckProgram)
        ensures
            out@ == self@,
    {
        CheckProgram { rules: self.rules, seq_slots: self.seq_slots }
    }
}

/// Contract for a DSL type that ships its own check program.
pub trait DslCheck {
    /// The judgement rules for this DSL type.
    fn check_program() -> CheckProgram;
}

} // verus!
