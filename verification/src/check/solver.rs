//! One bottom-up pass over a document, evaluating a check program.
//!
//! Children are evaluated first. A slot declared as a fold threads a state
//! left to right through its children; every other slot evaluates its
//! children against the incoming state. The first rule of the node's variant
//! whose premises all hold supplies the conclusion and the state. A node
//! whose rules all fail reports once, draws no conclusion and leaves the
//! state alone, so one mistake yields one diagnostic. A variant without a
//! rule never fails.
use vstd::prelude::*;
use vstd::string::*;

use crate::check::hint::{
    ask, hint_request_of, may_hint, opt_request, vocabulary_of, HintRequest, SpecHintRequest,
    SpecVocabulary, Vocabulary,
};
use crate::check::ir::{
    fact_text, lemma_ctor_view, opt_fact_view, rule_refs_view, rules_on, slot_decl, term_text,
    terms_view, CheckProgram, Fact, Premise, Rule, SeqMode, SpecFact, SpecPremise, SpecProgram,
    SpecRule, SpecTerm, Term,
};
use crate::check::message::{
    child_path, child_path_text, label_text, location_label, render_template, rendered, MsgCtx,
    SpecMsgCtx,
};
use crate::check::tree::{
    diags_view, entries_view, field_of, keyed_slots_of, slots_of, trees_view, Diagnostic,
    Location, ParseTree, RawValue, Severity, Span, SpecDiagnostic, SpecRaw, SpecTree,
};
use crate::check::unify::{
    applied, applied_fact, apply, apply_fact, ground_term, is_ground, unified, unified_facts,
    unify, unify_fact, BindMap, Bindings,
};
use crate::suggest::{is_silent, Suggester};
use crate::text::{decimal, opt_text, push_decimal, same_text};

verus! {

// ---------------------------------------------------------------------------
// Payload values
// ---------------------------------------------------------------------------

/// What a text stands for as a JSON document that is a string, if it is one.
pub uninterp spec fn json_string_content(text: Seq<char>) -> Option<Seq<char>>;

/// `serde_json::from_str` at type `String`: the contents of a JSON string
/// literal, and nothing for any other text. It depends on the text alone.
#[verifier::external_body]
fn json_string(text: &str) -> (out: Option<String>)
    ensures
        opt_text(out) == json_string_content(text@),
{
    serde_json::from_str::<String>(text).ok()
}

/// The atom text of a JSON value: the contents of a string, the compact
/// notation of anything else.
pub open spec fn json_atom(text: Seq<char>, decoded: Option<Seq<char>>) -> Seq<char> {
    match decoded {
        Some(s) => s,
        None => text,
    }
}

/// The atom text of the JSON value `text`, whose contents as a string are
/// `decoded`.
pub fn json_value_text(text: &str, decoded: Option<String>) -> (out: String)
    ensures
        out@ == json_atom(text@, opt_text(decoded)),
{
    match decoded {
        Some(s) => s,
        None => text.to_owned(),
    }
}

/// The atom text a payload value is compared by.
pub open spec fn raw_text(value: SpecRaw) -> Seq<char> {
    match value {
        SpecRaw::Text(text) => text,
        SpecRaw::Json(text) => json_atom(text, json_string_content(text)),
    }
}

/// The atom text a payload value is compared by.
pub fn raw_value_text(value: &RawValue) -> (out: String)
    ensures
        out@ == raw_text(value@),
{
    match value {
        RawValue::Text(text) => text.clone(),
        RawValue::Json(text) => json_value_text(text.as_str(), json_string(text.as_str())),
    }
}

/// `t` with its field references replaced by the node's payload. A reference
/// to a field that the node does not carry stays.
pub open spec fn grounded(t: SpecTerm, fields: Seq<(Seq<char>, SpecRaw)>) -> SpecTerm
    decreases t,
{
    match t {
        SpecTerm::FieldRef(name) => match field_of(fields, name) {
            Some(value) => SpecTerm::Atom(raw_text(value)),
            None => t,
        },
        SpecTerm::Ctor(name, args) => SpecTerm::Ctor(name, grounded_all(args, fields)),
        _ => t,
    }
}

/// The terms of `ts` with their field references replaced.
pub open spec fn grounded_all(ts: Seq<SpecTerm>, fields: Seq<(Seq<char>, SpecRaw)>) -> Seq<SpecTerm>
    decreases ts,
{
    Seq::new(
        ts.len(),
        |i: int|
            if 0 <= i < ts.len() {
                grounded(ts[i], fields)
            } else {
                arbitrary()
            },
    )
}

/// `f` with its field references replaced by the node's payload.
pub open spec fn grounded_fact(f: SpecFact, fields: Seq<(Seq<char>, SpecRaw)>) -> SpecFact {
    SpecFact { pred: f.pred, args: grounded_all(f.args, fields) }
}

/// Resolves field references against the node the rule fires for.
pub fn ground_field_refs(term: &Term, node: &ParseTree) -> (out: Term)
    ensures
        out@ == grounded(term@, node@.fields),
    decreases term, 0nat,
{
    proof {
        lemma_ctor_view(*term);
    }
    match term {
        Term::FieldRef(name) => match node.field(name.as_str()) {
            Some(value) => Term::Atom(raw_value_text(value)),
            None => term.clone(),
        },
        Term::Ctor(name, args) => {
            let out = Term::Ctor(name.clone(), ground_all(args, node));
            proof {
                lemma_ctor_view(out);
            }
            out
        },
        _ => term.clone(),
    }
}

fn ground_all(ts: &Vec<Term>, node: &ParseTree) -> (out: Vec<Term>)
    ensures
        terms_view(out@) == grounded_all(terms_view(ts@), node@.fields),
    decreases ts, 1nat,
{
    let mut out: Vec<Term> = Vec::new();
    for i in 0..ts.len()
        invariant
            out@.len() == i,
            forall|j: int|
                0 <= j < i ==> (#[trigger] out@[j])@ == grounded(ts@[j]@, node@.fields),
    {
        out.push(ground_field_refs(&ts[i], node));
    }
    assert(terms_view(out@) =~= grounded_all(terms_view(ts@), node@.fields));
    out
}

/// Resolves field references in a fact.
pub fn ground_field_refs_fact(f: &Fact, node: &ParseTree) -> (out: Fact)
    ensures
        out@ == grounded_fact(f@, node@.fields),
{
    Fact { pred: f.pred.clone(), args: ground_all(&f.args, node) }
}

// ---------------------------------------------------------------------------
// Values that travel through the walk
// ---------------------------------------------------------------------------

/// Where a fact came from.
#[derive(Debug)]
pub struct Provenance {
    path: String,
    span: Option<Span>,
}

/// The mathematical shape of a [`Provenance`].
pub struct SpecProvenance {
    pub path: Seq<char>,
    pub span: Option<Span>,
}

impl View for Provenance {
    type V = SpecProvenance;

    closed spec fn view(&self) -> SpecProvenance {
        SpecProvenance { path: self.path@, span: self.span }
    }
}

impl Clone for Provenance {
    fn clone(&self) -> (out: Self)
        ensures
            out@ == self@,
    {
        Provenance { path: self.path.clone(), span: self.span }
    }
}

/// The origin of a fold's seed: no node supplied it.
pub open spec fn initial_provenance() -> SpecProvenance {
    SpecProvenance { path: "<initial>"@, span: None }
}

/// The label a provenance is shown as.
pub open spec fn provenance_text(p: SpecProvenance) -> Seq<char> {
    label_text(p.path, p.span)
}

impl Provenance {
    /// The origin of a fold's seed: no node supplied it.
    pub fn initial() -> (out: Self)
        ensures
            out@ == initial_provenance(),
    {
        Provenance { path: "<initial>".to_owned(), span: None }
    }

    /// The node at `path`.
    pub fn of(path: &str, span: Option<Span>) -> (out: Self)
        ensures
            out@ == (SpecProvenance { path: path@, span }),
    {
        Provenance { path: path.to_owned(), span }
    }

    /// The label the provenance is shown as.
    pub fn render(&self) -> (out: String)
        ensures
            out@ == provenance_text(self@),
    {
        location_label(self.path.as_str(), self.span)
    }
}

/// The state threaded through a fold, and the node that last set it.
#[derive(Debug)]
struct StateVal {
    fact: Fact,
    prov: Provenance,
}

/// The mathematical shape of the threaded state.
pub struct SpecState {
    pub fact: SpecFact,
    pub prov: SpecProvenance,
}

impl View for StateVal {
    type V = SpecState;

    closed spec fn view(&self) -> SpecState {
        SpecState { fact: self.fact@, prov: self.prov@ }
    }
}

impl Clone for StateVal {
    fn clone(&self) -> (out: Self)
        ensures
            out@ == self@,
    {
        StateVal { fact: self.fact.clone(), prov: self.prov.clone() }
    }
}

spec fn state_view(s: Option<StateVal>) -> Option<SpecState> {
    match s {
        Some(s) => Some(s@),
        None => None,
    }
}

fn clone_state(s: &Option<StateVal>) -> (out: Option<StateVal>)
    ensures
        state_view(out) == state_view(*s),
{
    match s {
        Some(s) => Some(s.clone()),
        None => None,
    }
}

/// What one child contributes to a slot: its conclusion, where it drew one,
/// and where it stands.
pub struct SpecChildVal {
    pub conclusion: Option<SpecFact>,
    pub prov: SpecProvenance,
}

struct ChildVal {
    conclusion: Option<Fact>,
    prov: Provenance,
}

impl View for ChildVal {
    type V = SpecChildVal;

    closed spec fn view(&self) -> SpecChildVal {
        SpecChildVal { conclusion: opt_fact_view(self.conclusion), prov: self.prov@ }
    }
}

spec fn vals_view(vs: Seq<ChildVal>) -> Seq<SpecChildVal> {
    Seq::new(vs.len(), |i: int| vs[i]@)
}

/// The contributions of every slot of a node.
pub type SlotMap = Map<Seq<char>, Seq<SpecChildVal>>;

/// The contributions of every slot; a later entry of one name replaces an
/// earlier one.
struct SlotVals {
    entries: Vec<(String, Vec<ChildVal>)>,
}

spec fn slot_entries_map(es: Seq<(String, Vec<ChildVal>)>) -> SlotMap
    decreases es.len(),
{
    if es.len() == 0 {
        Map::empty()
    } else {
        slot_entries_map(es.drop_last()).insert(es.last().0@, vals_view(es.last().1@))
    }
}

impl View for SlotVals {
    type V = SlotMap;

    closed spec fn view(&self) -> SlotMap {
        slot_entries_map(self.entries@)
    }
}

impl SlotVals {
    fn new() -> (out: Self)
        ensures
            out@ == Map::<Seq<char>, Seq<SpecChildVal>>::empty(),
    {
        SlotVals { entries: Vec::new() }
    }

    fn insert(&mut self, slot: &str, vals: Vec<ChildVal>)
        ensures
            final(self)@ == old(self)@.insert(slot@, vals_view(vals@)),
    {
        self.entries.push((slot.to_owned(), vals));
        assert(self.entries@.drop_last() =~= old(self).entries@);
    }

    fn get<'a>(&'a self, slot: &str) -> (out: Option<&'a Vec<ChildVal>>)
        ensures
            match out {
                Some(vs) => self@.contains_key(slot@) && self@[slot@] == vals_view(vs@),
                None => !self@.contains_key(slot@),
            },
    {
        let mut n: usize = self.entries.len();
        assert(self.entries@.take(n as int) =~= self.entries@);
        while n > 0
            invariant
                n <= self.entries.len(),
                self@.contains_key(slot@) == slot_entries_map(
                    self.entries@.take(n as int),
                ).contains_key(slot@),
                self@.contains_key(slot@) ==> self@[slot@] == slot_entries_map(
                    self.entries@.take(n as int),
                )[slot@],
            decreases n,
        {
            let e = &self.entries[n - 1];
            proof {
                let front = self.entries@.take(n as int);
                assert(front.drop_last() =~= self.entries@.take(n - 1));
                assert(front.last() == *e);
            }
            if same_text(e.0.as_str(), slot) {
                return Some(&e.1);
            }
            n -= 1;
        }
        None
    }
}

// ---------------------------------------------------------------------------
// One rule
// ---------------------------------------------------------------------------

/// What a rule that fired supplies.
pub struct SpecApplied {
    pub conclusion: Option<SpecFact>,
    pub state_after: Option<SpecFact>,
}

/// Why a premise did not hold.
pub struct SpecMismatch {
    pub slot: Option<Seq<char>>,
    pub expected: Seq<char>,
    pub found: Seq<char>,
    pub provenance: Seq<char>,
    pub bindings: BindMap,
    pub facts: Option<(SpecFact, SpecFact)>,
}

/// A rule that did not fire, how many premises held before the one that
/// failed, and why that one failed.
pub struct SpecFailure {
    pub rule: SpecRule,
    pub satisfied: nat,
    pub why: SpecMismatch,
}

/// The failure of `expect` against the fact `found`.
pub open spec fn fact_mismatch(
    slot: Option<Seq<char>>,
    expect: SpecFact,
    found: SpecFact,
    prov: SpecProvenance,
    b: BindMap,
) -> SpecMismatch {
    SpecMismatch {
        slot,
        expected: fact_text(applied_fact(expect, b)),
        found: fact_text(found),
        provenance: provenance_text(prov),
        bindings: b,
        facts: Some((applied_fact(expect, b), found)),
    }
}

/// Matches `expect` against the first `n` contributions of a slot. Children
/// without a conclusion say nothing.
pub open spec fn match_children(
    slot: Seq<char>,
    expect: SpecFact,
    vals: Seq<SpecChildVal>,
    b: BindMap,
    n: nat,
) -> Result<BindMap, SpecMismatch>
    decreases n,
{
    if n == 0 || n > vals.len() {
        Ok(b)
    } else {
        match match_children(slot, expect, vals, b, (n - 1) as nat) {
            Err(why) => Err(why),
            Ok(b1) => match vals[n - 1].conclusion {
                None => Ok(b1),
                Some(found) => {
                    let (ok, b2) = unified_facts(expect, found, b1);
                    if ok {
                        Ok(b2)
                    } else {
                        Err(fact_mismatch(Some(slot), expect, found, vals[n - 1].prov, b1))
                    }
                },
            },
        }
    }
}

/// Whether one premise holds, and what is bound afterwards.
pub open spec fn check_premise(
    premise: SpecPremise,
    node: SpecTree,
    slots: SlotMap,
    state: Option<SpecState>,
    b: BindMap,
) -> Result<BindMap, SpecMismatch> {
    match premise {
        SpecPremise::Child { slot, expect } => if slots.contains_key(slot) {
            match_children(
                slot,
                grounded_fact(expect, node.fields),
                slots[slot],
                b,
                slots[slot].len(),
            )
        } else {
            Ok(b)
        },
        SpecPremise::State { expect } => match state {
            None => Ok(b),
            Some(state) => {
                let want = grounded_fact(expect, node.fields);
                let (ok, b1) = unified_facts(want, state.fact, b);
                if ok {
                    Ok(b1)
                } else {
                    Err(fact_mismatch(None, want, state.fact, state.prov, b))
                }
            },
        },
        SpecPremise::Eq(lhs, rhs) => {
            let l = grounded(lhs, node.fields);
            let r = grounded(rhs, node.fields);
            let (ok, b1) = unified(l, r, b);
            if ok {
                Ok(b1)
            } else {
                Err(
                    SpecMismatch {
                        slot: None,
                        expected: term_text(applied(l, b)),
                        found: term_text(applied(r, b)),
                        provenance: label_text(node.variant, node.span),
                        bindings: b,
                        facts: None,
                    },
                )
            }
        },
        SpecPremise::Neq(lhs, rhs) => {
            let l = applied(grounded(lhs, node.fields), b);
            let r = applied(grounded(rhs, node.fields), b);
            if ground_term(l) && ground_term(r) && l == r {
                Err(
                    SpecMismatch {
                        slot: None,
                        expected: "anything but "@ + term_text(l),
                        found: term_text(r),
                        provenance: label_text(node.variant, node.span),
                        bindings: b,
                        facts: None,
                    },
                )
            } else {
                Ok(b)
            }
        },
    }
}

/// Evaluates the first `n` premises of a rule from left to right.
pub open spec fn check_premises(
    rule: SpecRule,
    node: SpecTree,
    slots: SlotMap,
    state: Option<SpecState>,
    n: nat,
) -> Result<BindMap, SpecFailure>
    decreases n,
{
    if n == 0 || n > rule.premises.len() {
        Ok(Map::empty())
    } else {
        match check_premises(rule, node, slots, state, (n - 1) as nat) {
            Err(f) => Err(f),
            Ok(b) => match check_premise(rule.premises[n - 1], node, slots, state, b) {
                Ok(b1) => Ok(b1),
                Err(why) => Err(SpecFailure { rule, satisfied: (n - 1) as nat, why }),
            },
        }
    }
}

/// `f` as a rule that fired hands it out: grounded and with its bindings.
pub open spec fn concluded(f: Option<SpecFact>, node: SpecTree, b: BindMap) -> Option<SpecFact> {
    match f {
        Some(f) => Some(applied_fact(grounded_fact(f, node.fields), b)),
        None => None,
    }
}

/// Whether a rule fires for a node, and what it supplies.
pub open spec fn attempt(
    rule: SpecRule,
    node: SpecTree,
    slots: SlotMap,
    state: Option<SpecState>,
) -> Result<SpecApplied, SpecFailure> {
    match check_premises(rule, node, slots, state, rule.premises.len()) {
        Err(f) => Err(f),
        Ok(b) => Ok(
            SpecApplied {
                conclusion: concluded(rule.conclusion, node, b),
                state_after: concluded(rule.state_after, node, b),
            },
        ),
    }
}

struct Mismatch {
    slot: Option<String>,
    expected: String,
    found: String,
    provenance: String,
    bindings: Bindings,
    facts: Option<(Fact, Fact)>,
}

impl View for Mismatch {
    type V = SpecMismatch;

    closed spec fn view(&self) -> SpecMismatch {
        SpecMismatch {
            slot: opt_text(self.slot),
            expected: self.expected@,
            found: self.found@,
            provenance: self.provenance@,
            bindings: self.bindings@,
            facts: match self.facts {
                Some((e, f)) => Some((e@, f@)),
                None => None,
            },
        }
    }
}

struct Failure<'r> {
    rule: &'r Rule,
    satisfied: usize,
    why: Mismatch,
}

impl<'r> View for Failure<'r> {
    type V = SpecFailure;

    closed spec fn view(&self) -> SpecFailure {
        SpecFailure { rule: self.rule@, satisfied: self.satisfied as nat, why: self.why@ }
    }
}

struct Applied {
    conclusion: Option<Fact>,
    state_after: Option<Fact>,
}

impl View for Applied {
    type V = SpecApplied;

    closed spec fn view(&self) -> SpecApplied {
        SpecApplied {
            conclusion: opt_fact_view(self.conclusion),
            state_after: opt_fact_view(self.state_after),
        }
    }
}

fn mismatch_of(
    slot: Option<&str>,
    expect: &Fact,
    found: &Fact,
    prov: &Provenance,
    before: Bindings,
) -> (out: Mismatch)
    ensures
        out@ == fact_mismatch(
            match slot {
                Some(s) => Some(s@),
                None => None,
            },
            expect@,
            found@,
            prov@,
            before@,
        ),
{
    let want = apply_fact(expect, &before);
    Mismatch {
        slot: match slot {
            Some(s) => Some(s.to_owned()),
            None => None,
        },
        expected: want.to_text(),
        found: found.to_text(),
        provenance: prov.render(),
        bindings: before,
        facts: Some((want, found.clone())),
    }
}

proof fn lemma_children_fail(
    slot: Seq<char>,
    expect: SpecFact,
    vals: Seq<SpecChildVal>,
    b: BindMap,
    n: nat,
    m: nat,
)
    requires
        n <= m <= vals.len(),
        match_children(slot, expect, vals, b, n) is Err,
    ensures
        match_children(slot, expect, vals, b, m) == match_children(slot, expect, vals, b, n),
    decreases m,
{
    if n < m {
        lemma_children_fail(slot, expect, vals, b, n, (m - 1) as nat);
    }
}

fn try_children(slot: &str, expect: &Fact, vals: &Vec<ChildVal>, binds: &mut Bindings) -> (out:
    Result<(), Mismatch>)
    ensures
        match out {
            Ok(_) => match_children(
                slot@,
                expect@,
                vals_view(vals@),
                old(binds)@,
                vals@.len(),
            ) == Ok::<BindMap, SpecMismatch>(final(binds)@),
            Err(why) => match_children(
                slot@,
                expect@,
                vals_view(vals@),
                old(binds)@,
                vals@.len(),
            ) == Err::<BindMap, SpecMismatch>(why@),
        },
{
    let ghost vv = vals_view(vals@);
    let ghost start = binds@;
    let mut i: usize = 0;
    while i < vals.len()
        invariant
            i <= vals.len(),
            vv == vals_view(vals@),
            start == old(binds)@,
            match_children(slot@, expect@, vv, start, i as nat) == Ok::<BindMap, SpecMismatch>(
                binds@,
            ),
        decreases vals.len() - i,
    {
        let val = &vals[i];
        assert(vv[i as int] == val@);
        if let Some(found) = &val.conclusion {
            let before = binds.clone();
            if !unify_fact(expect, found, binds) {
                let why = mismatch_of(Some(slot), expect, found, &val.prov, before);
                proof {
                    assert(match_children(slot@, expect@, vv, start, (i + 1) as nat) == Err::<
                        BindMap,
                        SpecMismatch,
                    >(why@));
                    lemma_children_fail(slot@, expect@, vv, start, (i + 1) as nat, vals@.len());
                }
                return Err(why);
            }
        }
        i += 1;
    }
    Ok(())
}

fn try_premise(
    premise: &Premise,
    node: &ParseTree,
    slots: &SlotVals,
    state_in: &Option<StateVal>,
    binds: &mut Bindings,
) -> (out: Result<(), Mismatch>)
    ensures
        match out {
            Ok(_) => check_premise(
                premise@,
                node@,
                slots@,
                state_view(*state_in),
                old(binds)@,
            ) == Ok::<BindMap, SpecMismatch>(final(binds)@),
            Err(why) => check_premise(
                premise@,
                node@,
                slots@,
                state_view(*state_in),
                old(binds)@,
            ) == Err::<BindMap, SpecMismatch>(why@),
        },
{
    match premise {
        Premise::Child { slot, expect } => {
            let want = ground_field_refs_fact(expect, node);
            match slots.get(slot.as_str()) {
                Some(vals) => {
                    assert(vals_view(vals@).len() == vals@.len());
                    try_children(slot.as_str(), &want, vals, binds)
                },
                None => Ok(()),
            }
        },
        Premise::State { expect } => {
            let want = ground_field_refs_fact(expect, node);
            match state_in {
                None => Ok(()),
                Some(state) => {
                    let before = binds.clone();
                    if unify_fact(&want, &state.fact, binds) {
                        Ok(())
                    } else {
                        Err(mismatch_of(None, &want, &state.fact, &state.prov, before))
                    }
                },
            }
        },
        Premise::Eq(lhs, rhs) => {
            let l = ground_field_refs(lhs, node);
            let r = ground_field_refs(rhs, node);
            let before = binds.clone();
            if unify(&l, &r, binds) {
                Ok(())
            } else {
                Err(
                    Mismatch {
                        slot: None,
                        expected: apply(&l, &before).to_text(),
                        found: apply(&r, &before).to_text(),
                        provenance: location_label(node.variant.as_str(), node.span),
                        bindings: before,
                        facts: None,
                    },
                )
            }
        },
        Premise::Neq(lhs, rhs) => {
            let l = apply(&ground_field_refs(lhs, node), binds);
            let r = apply(&ground_field_refs(rhs, node), binds);
            if is_ground(&l) && is_ground(&r) && l.same_as(&r) {
                let mut expected = "anything but ".to_owned();
                l.push_text(&mut expected);
                Err(
                    Mismatch {
                        slot: None,
                        expected,
                        found: r.to_text(),
                        provenance: location_label(node.variant.as_str(), node.span),
                        bindings: binds.clone(),
                        facts: None,
                    },
                )
            } else {
                Ok(())
            }
        },
    }
}

proof fn lemma_premises_fail(
    rule: SpecRule,
    node: SpecTree,
    slots: SlotMap,
    state: Option<SpecState>,
    n: nat,
    m: nat,
)
    requires
        n <= m <= rule.premises.len(),
        check_premises(rule, node, slots, state, n) is Err,
    ensures
        check_premises(rule, node, slots, state, m) == check_premises(rule, node, slots, state, n),
    decreases m,
{
    if n < m {
        lemma_premises_fail(rule, node, slots, state, n, (m - 1) as nat);
    }
}

fn conclude(f: &Option<Fact>, node: &ParseTree, binds: &Bindings) -> (out: Option<Fact>)
    ensures
        opt_fact_view(out) == concluded(opt_fact_view(*f), node@, binds@),
{
    match f {
        Some(f) => Some(apply_fact(&ground_field_refs_fact(f, node), binds)),
        None => None,
    }
}

fn try_rule<'r>(
    rule: &'r Rule,
    node: &ParseTree,
    slots: &SlotVals,
    state_in: &Option<StateVal>,
) -> (out: Result<Applied, Failure<'r>>)
    ensures
        match out {
            Ok(a) => attempt(rule@, node@, slots@, state_view(*state_in)) == Ok::<
                SpecApplied,
                SpecFailure,
            >(a@),
            Err(f) => attempt(rule@, node@, slots@, state_view(*state_in)) == Err::<
                SpecApplied,
                SpecFailure,
            >(f@),
        },
{
    let ghost st = state_view(*state_in);
    let mut binds = Bindings::new();
    let mut index: usize = 0;
    while index < rule.premises.len()
        invariant
            index <= rule.premises.len(),
            st == state_view(*state_in),
            check_premises(rule@, node@, slots@, st, index as nat) == Ok::<BindMap, SpecFailure>(
                binds@,
            ),
        decreases rule.premises.len() - index,
    {
        assert(rule@.premises[index as int] == rule.premises@[index as int]@);
        match try_premise(&rule.premises[index], node, slots, state_in, &mut binds) {
            Ok(_) => {},
            Err(why) => {
                let failure = Failure { rule, satisfied: index, why };
                proof {
                    assert(check_premises(rule@, node@, slots@, st, (index + 1) as nat) == Err::<
                        BindMap,
                        SpecFailure,
                    >(failure@));
                    lemma_premises_fail(
                        rule@,
                        node@,
                        slots@,
                        st,
                        (index + 1) as nat,
                        rule@.premises.len(),
                    );
                }
                return Err(failure);
            },
        }
        index += 1;
    }
    Ok(
        Applied {
            conclusion: conclude(&rule.conclusion, node, &binds),
            state_after: conclude(&rule.state_after, node, &binds),
        },
    )
}

// ---------------------------------------------------------------------------
// Findings
// ---------------------------------------------------------------------------

/// A failed node, worded but for the hint.
pub struct SpecFinding {
    pub code: Seq<char>,
    pub body: Seq<char>,
    pub request: Option<SpecHintRequest>,
    pub label: Seq<char>,
    pub span: Option<Span>,
}

/// The finding that a failure at `path` is reported as.
pub open spec fn finding_of(
    f: SpecFailure,
    path: Seq<char>,
    span: Option<Span>,
    v: SpecVocabulary,
) -> SpecFinding {
    SpecFinding {
        code: f.rule.message.code,
        body: rendered(
            f.rule.message.template,
            SpecMsgCtx {
                slot: f.why.slot,
                expected: f.why.expected,
                found: f.why.found,
                provenance: f.why.provenance,
                bindings: f.why.bindings,
            },
        ),
        request: match f.why.facts {
            Some((e, found)) => hint_request_of(v, e, found),
            None => None,
        },
        label: label_text(path, span),
        span,
    }
}

/// A failed node, worded but for the hint.
#[derive(Debug)]
pub struct Finding {
    /// Slug the rule reports under.
    pub code: &'static str,
    /// The rule's own sentence, with its holes filled.
    pub body: String,
    /// What a suggester may be asked about it.
    pub request: Option<HintRequest>,
    /// Where the node stands.
    pub label: String,
    /// Its source position, where there is one.
    pub span: Option<Span>,
}

impl View for Finding {
    type V = SpecFinding;

    open spec fn view(&self) -> SpecFinding {
        SpecFinding {
            code: self.code@,
            body: self.body@,
            request: opt_request(self.request),
            label: self.label@,
            span: self.span,
        }
    }
}

/// The views of a list of findings.
pub open spec fn findings_view(fs: Seq<Finding>) -> Seq<SpecFinding> {
    Seq::new(fs.len(), |i: int| fs[i]@)
}

/// The diagnostic for a finding and the hint that was given for it.
pub open spec fn diagnostic_of(f: SpecFinding, hint: Option<Seq<char>>) -> SpecDiagnostic {
    let hinted = match hint {
        Some(h) => f.body + " ("@ + h + ")"@,
        None => f.body,
    };
    SpecDiagnostic {
        severity: Severity::Error,
        code: f.code,
        message: hinted + " [at "@ + f.label + "]"@,
        location: match f.span {
            Some(s) => Location::Span(s),
            None => Location::Nowhere,
        },
    }
}

impl Finding {
    /// The diagnostic for this finding, with `hint` where there is one.
    pub fn into_diagnostic(self, hint: Option<String>) -> (out: Diagnostic)
        ensures
            out@ == diagnostic_of(self@, opt_text(hint)),
    {
        let ghost me = self@;
        let mut message = self.body;
        if let Some(h) = &hint {
            message.append(" (");
            message.append(h.as_str());
            message.append(")");
        }
        message.append(" [at ");
        message.append(self.label.as_str());
        message.append("]");
        assert(message@ =~= diagnostic_of(me, opt_text(hint)).message);
        Diagnostic::error(self.code, message).with_span(self.span)
    }
}

fn report(failure: Failure<'_>, path: &str, span: Option<Span>, vocab: &Vocabulary) -> (out: Finding)
    ensures
        out@ == finding_of(failure@, path@, span, vocab@),
{
    let why = failure.why;
    let slot = match &why.slot {
        Some(s) => Some(s.as_str()),
        None => None,
    };
    let body = render_template(
        failure.rule.message.template.as_str(),
        &MsgCtx {
            slot,
            expected: why.expected.as_str(),
            found: why.found.as_str(),
            provenance: why.provenance.as_str(),
            bindings: &why.bindings,
        },
    );
    let request = match &why.facts {
        Some((e, f)) => vocab.hint_request(e, f),
        None => None,
    };
    Finding {
        code: failure.rule.message.code,
        body,
        request,
        label: location_label(path, span),
        span,
    }
}

// ---------------------------------------------------------------------------
// The walk
// ---------------------------------------------------------------------------

/// What one node contributes to its parent, and what it has to report.
pub struct SpecSolved {
    pub conclusion: Option<SpecFact>,
    pub prov: SpecProvenance,
    pub state_out: Option<SpecState>,
    pub findings: Seq<SpecFinding>,
}

/// The outcome of trying rules in order: the first that fires, or else the
/// failure that got furthest.
pub enum SpecChoice {
    Fired(SpecApplied),
    Failed(Option<SpecFailure>),
}

/// Tries the first `n` rules in declaration order.
pub open spec fn choose_rule(
    rules: Seq<SpecRule>,
    node: SpecTree,
    slots: SlotMap,
    state: Option<SpecState>,
    n: nat,
) -> SpecChoice
    decreases n,
{
    if n == 0 || n > rules.len() {
        SpecChoice::Failed(None)
    } else {
        match choose_rule(rules, node, slots, state, (n - 1) as nat) {
            SpecChoice::Fired(a) => SpecChoice::Fired(a),
            SpecChoice::Failed(best) => match attempt(rules[n - 1], node, slots, state) {
                Ok(a) => SpecChoice::Fired(a),
                Err(f) => SpecChoice::Failed(
                    match best {
                        Some(b) => if f.satisfied > b.satisfied {
                            Some(f)
                        } else {
                            Some(b)
                        },
                        None => Some(f),
                    },
                ),
            },
        }
    }
}

/// The judgement of a node whose children have been evaluated.
pub open spec fn judged(
    node: SpecTree,
    path: Seq<char>,
    state: Option<SpecState>,
    slots: SlotMap,
    p: SpecProgram,
    v: SpecVocabulary,
) -> SpecSolved {
    let here = SpecProvenance { path, span: node.span };
    let rules = rules_on(p.rules, node.variant);
    match choose_rule(rules, node, slots, state, rules.len()) {
        SpecChoice::Fired(a) => SpecSolved {
            conclusion: a.conclusion,
            prov: here,
            state_out: match a.state_after {
                Some(fact) => Some(SpecState { fact, prov: here }),
                None => state,
            },
            findings: Seq::empty(),
        },
        SpecChoice::Failed(best) => SpecSolved {
            conclusion: None,
            prov: here,
            state_out: state,
            findings: match best {
                Some(f) => seq![finding_of(f, path, node.span, v)],
                None => Seq::empty(),
            },
        },
    }
}

/// The contributions of a run of children, the state behind them, and what
/// they have to report.
pub struct SpecRun {
    pub vals: Seq<SpecChildVal>,
    pub state: Option<SpecState>,
    pub findings: Seq<SpecFinding>,
}

/// The state a slot starts from: the declared seed of a fold, the incoming
/// state anywhere else.
pub open spec fn slot_start(
    p: SpecProgram,
    variant: Seq<char>,
    slot: Seq<char>,
    state: Option<SpecState>,
) -> (bool, Option<SpecState>) {
    match slot_decl(p.seq_slots, variant, slot) {
        Some(d) => if d.mode == SeqMode::Fold {
            (true, Some(SpecState { fact: d.initial, prov: initial_provenance() }))
        } else {
            (false, state)
        },
        None => (false, state),
    }
}

/// Evaluates a node.
pub open spec fn solved(
    node: SpecTree,
    path: Seq<char>,
    state: Option<SpecState>,
    p: SpecProgram,
    v: SpecVocabulary,
) -> SpecSolved
    decreases node, 0nat,
{
    let (slots1, f1) = solved_slots(
        node.children,
        node.variant,
        path,
        state,
        p,
        v,
        node.children.len(),
    );
    let (slots2, f2) = solved_keyed(
        node.keyed_children,
        path,
        state,
        p,
        v,
        slots1,
        node.keyed_children.len(),
    );
    let own = judged(node, path, state, slots2, p, v);
    SpecSolved { findings: f1 + f2 + own.findings, ..own }
}

/// Evaluates the first `n` positional slots.
pub open spec fn solved_slots(
    cs: Seq<(Seq<char>, Seq<SpecTree>)>,
    variant: Seq<char>,
    path: Seq<char>,
    state: Option<SpecState>,
    p: SpecProgram,
    v: SpecVocabulary,
    n: nat,
) -> (SlotMap, Seq<SpecFinding>)
    decreases cs, n,
{
    if n == 0 || n > cs.len() {
        (Map::empty(), Seq::empty())
    } else {
        let (slots, fs) = solved_slots(cs, variant, path, state, p, v, (n - 1) as nat);
        let slot = cs[n - 1].0;
        let (folding, start) = slot_start(p, variant, slot, state);
        let run = solved_children(
            cs[n - 1].1,
            slot,
            path,
            folding,
            start,
            p,
            v,
            cs[n - 1].1.len(),
        );
        (slots.insert(slot, run.vals), fs + run.findings)
    }
}

/// Evaluates the first `n` children of a positional slot.
pub open spec fn solved_children(
    ts: Seq<SpecTree>,
    slot: Seq<char>,
    path: Seq<char>,
    folding: bool,
    start: Option<SpecState>,
    p: SpecProgram,
    v: SpecVocabulary,
    n: nat,
) -> SpecRun
    decreases ts, n,
{
    if n == 0 || n > ts.len() {
        SpecRun { vals: Seq::empty(), state: start, findings: Seq::empty() }
    } else {
        let run = solved_children(ts, slot, path, folding, start, p, v, (n - 1) as nat);
        let child = solved(
            ts[n - 1],
            child_path_text(path, slot, decimal((n - 1) as nat)),
            run.state,
            p,
            v,
        );
        SpecRun {
            vals: run.vals.push(SpecChildVal { conclusion: child.conclusion, prov: child.prov }),
            state: if folding && child.state_out is Some {
                child.state_out
            } else {
                run.state
            },
            findings: run.findings + child.findings,
        }
    }
}

/// Evaluates the first `n` keyed slots.
pub open spec fn solved_keyed(
    ks: Seq<(Seq<char>, Seq<(Seq<char>, SpecTree)>)>,
    path: Seq<char>,
    state: Option<SpecState>,
    p: SpecProgram,
    v: SpecVocabulary,
    slots: SlotMap,
    n: nat,
) -> (SlotMap, Seq<SpecFinding>)
    decreases ks, n,
{
    if n == 0 || n > ks.len() {
        (slots, Seq::empty())
    } else {
        let (before, fs) = solved_keyed(ks, path, state, p, v, slots, (n - 1) as nat);
        let run = solved_entries(ks[n - 1].1, ks[n - 1].0, path, state, p, v, ks[n - 1].1.len());
        (before.insert(ks[n - 1].0, run.vals), fs + run.findings)
    }
}

/// Evaluates the first `n` entries of a keyed slot, each against the incoming
/// state.
pub open spec fn solved_entries(
    es: Seq<(Seq<char>, SpecTree)>,
    slot: Seq<char>,
    path: Seq<char>,
    state: Option<SpecState>,
    p: SpecProgram,
    v: SpecVocabulary,
    n: nat,
) -> SpecRun
    decreases es, n,
{
    if n == 0 || n > es.len() {
        SpecRun { vals: Seq::empty(), state, findings: Seq::empty() }
    } else {
        let run = solved_entries(es, slot, path, state, p, v, (n - 1) as nat);
        let child = solved(es[n - 1].1, child_path_text(path, slot, es[n - 1].0), state, p, v);
        SpecRun {
            vals: run.vals.push(SpecChildVal { conclusion: child.conclusion, prov: child.prov }),
            state,
            findings: run.findings + child.findings,
        }
    }
}

struct Solved {
    conclusion: Option<Fact>,
    prov: Provenance,
    state_out: Option<StateVal>,
}

spec fn matches_solved(out: Solved, s: SpecSolved) -> bool {
    &&& opt_fact_view(out.conclusion) == s.conclusion
    &&& out.prov@ == s.prov
    &&& state_view(out.state_out) == s.state_out
}

fn judge(
    node: &ParseTree,
    path: &str,
    state_in: &Option<StateVal>,
    slots: &SlotVals,
    program: &CheckProgram,
    vocab: &Vocabulary,
    findings: &mut Vec<Finding>,
) -> (out: Solved)
    ensures
        ({
            let s = judged(node@, path@, state_view(*state_in), slots@, program@, vocab@);
            &&& matches_solved(out, s)
            &&& findings_view(final(findings)@) == findings_view(old(findings)@) + s.findings
        }),
{
    let ghost st = state_view(*state_in);
    let ghost before = findings_view(findings@);
    let here = Provenance::of(path, node.span);
    let rules = program.rules_for(node.variant.as_str());
    let ghost rv = rule_refs_view(rules@);
    let mut best: Option<Failure<'_>> = None;
    let mut i: usize = 0;
    while i < rules.len()
        invariant
            i <= rules.len(),
            rv == rule_refs_view(rules@),
            rv == rules_on(program@.rules, node@.variant),
            st == state_view(*state_in),
            here@ == (SpecProvenance { path: path@, span: node@.span }),
            findings@ == old(findings)@,
            before == findings_view(old(findings)@),
            choose_rule(rv, node@, slots@, st, i as nat) == SpecChoice::Failed(
                match best {
                    Some(f) => Some(f@),
                    None => None,
                },
            ),
        decreases rules.len() - i,
    {
        assert(rv[i as int] == rules@[i as int]@);
        match try_rule(rules[i], node, slots, state_in) {
            Ok(a) => {
                proof {
                    assert(choose_rule(rv, node@, slots@, st, (i + 1) as nat)
                        == SpecChoice::Fired(a@));
                    lemma_fired(rv, node@, slots@, st, (i + 1) as nat, rv.len());
                    assert(before + Seq::<SpecFinding>::empty() =~= before);
                }
                let state_out = match a.state_after {
                    Some(fact) => Some(StateVal { fact, prov: here.clone() }),
                    None => clone_state(state_in),
                };
                return Solved { conclusion: a.conclusion, prov: here, state_out };
            },
            Err(failure) => {
                let better = match &best {
                    Some(b) => failure.satisfied > b.satisfied,
                    None => true,
                };
                if better {
                    best = Some(failure);
                }
            },
        }
        i += 1;
    }
    match best {
        Some(failure) => {
            let ghost fv = failure@;
            findings.push(report(failure, path, node.span, vocab));
            assert(findings_view(findings@) =~= before + seq![
                finding_of(fv, path@, node@.span, vocab@),
            ]);
        },
        None => {
            assert(before + Seq::<SpecFinding>::empty() =~= before);
        },
    }
    Solved { conclusion: None, prov: here, state_out: clone_state(state_in) }
}

proof fn lemma_fired(
    rules: Seq<SpecRule>,
    node: SpecTree,
    slots: SlotMap,
    state: Option<SpecState>,
    n: nat,
    m: nat,
)
    requires
        n <= m <= rules.len(),
        choose_rule(rules, node, slots, state, n) is Fired,
    ensures
        choose_rule(rules, node, slots, state, m) == choose_rule(rules, node, slots, state, n),
    decreases m,
{
    if n < m {
        lemma_fired(rules, node, slots, state, n, (m - 1) as nat);
    }
}

fn solve(
    node: &ParseTree,
    path: &str,
    state_in: &Option<StateVal>,
    program: &CheckProgram,
    vocab: &Vocabulary,
    findings: &mut Vec<Finding>,
) -> (out: Solved)
    ensures
        ({
            let s = solved(node@, path@, state_view(*state_in), program@, vocab@);
            &&& matches_solved(out, s)
            &&& findings_view(final(findings)@) == findings_view(old(findings)@) + s.findings
        }),
    decreases node, 0nat,
{
    let ghost st = state_view(*state_in);
    let ghost before = findings_view(findings@);
    let ghost cs = node@.children;
    let mut slots = SlotVals::new();
    let ghost mut f1 = Seq::<SpecFinding>::empty();
    assert(before + f1 =~= before);
    let mut i: usize = 0;
    while i < node.children.len()
        invariant
            i <= node.children.len(),
            cs == slots_of(node.children@),
            cs == node@.children,
            st == state_view(*state_in),
            (slots@, f1) == solved_slots(
                cs,
                node@.variant,
                path@,
                st,
                program@,
                vocab@,
                i as nat,
            ),
            findings_view(findings@) == before + f1,
        decreases node.children.len() - i,
    {
        let entry = &node.children[i];
        let slot = entry.0.as_str();
        proof {
            assert(cs[i as int].0 == slot@);
            assert(cs[i as int].1 == trees_view(entry.1@));
        }
        let decl = program.seq_slot(node.variant.as_str(), slot);
        let (folding, start) = match decl {
            Some(d) => {
                if d.mode == SeqMode::Fold {
                    (
                        true,
                        Some(StateVal { fact: d.initial.clone(), prov: Provenance::initial() }),
                    )
                } else {
                    (false, clone_state(state_in))
                }
            },
            None => (false, clone_state(state_in)),
        };
        let ghost start_view = state_view(start);
        assert((folding, start_view) == slot_start(program@, node@.variant, slot@, st));
        let ghost mid = findings_view(findings@);
        let vals = solve_children(
            &entry.1,
            slot,
            path,
            folding,
            start,
            program,
            vocab,
            findings,
        );
        slots.insert(slot, vals);
        proof {
            let run = solved_children(
                cs[i as int].1,
                slot@,
                path@,
                folding,
                start_view,
                program@,
                vocab@,
                cs[i as int].1.len(),
            );
            assert(before + (f1 + run.findings) =~= before + f1 + run.findings);
            f1 = f1 + run.findings;
        }
        i += 1;
    }
    let ghost slots1 = slots@;
    let ghost ks = node@.keyed_children;
    let ghost mut f2 = Seq::<SpecFinding>::empty();
    assert(before + f1 + f2 =~= before + f1);
    let mut i: usize = 0;
    while i < node.keyed_children.len()
        invariant
            i <= node.keyed_children.len(),
            ks == keyed_slots_of(node.keyed_children@),
            ks == node@.keyed_children,
            st == state_view(*state_in),
            (slots@, f2) == solved_keyed(ks, path@, st, program@, vocab@, slots1, i as nat),
            findings_view(findings@) == before + f1 + f2,
        decreases node.keyed_children.len() - i,
    {
        let entry = &node.keyed_children[i];
        let slot = entry.0.as_str();
        proof {
            assert(ks[i as int].0 == slot@);
            assert(ks[i as int].1 == entries_view(entry.1@));
        }
        let vals = solve_entries(&entry.1, slot, path, state_in, program, vocab, findings);
        slots.insert(slot, vals);
        proof {
            let run = solved_entries(
                ks[i as int].1,
                slot@,
                path@,
                st,
                program@,
                vocab@,
                ks[i as int].1.len(),
            );
            assert(before + f1 + (f2 + run.findings) =~= before + f1 + f2 + run.findings);
            f2 = f2 + run.findings;
        }
        i += 1;
    }
    let out = judge(node, path, state_in, &slots, program, vocab, findings);
    proof {
        let own = judged(node@, path@, st, slots@, program@, vocab@);
        assert(before + f1 + f2 + own.findings =~= before + (f1 + f2 + own.findings));
    }
    out
}

fn solve_children(
    children: &Vec<ParseTree>,
    slot: &str,
    path: &str,
    folding: bool,
    start: Option<StateVal>,
    program: &CheckProgram,
    vocab: &Vocabulary,
    findings: &mut Vec<Finding>,
) -> (vals: Vec<ChildVal>)
    ensures
        ({
            let run = solved_children(
                trees_view(children@),
                slot@,
                path@,
                folding,
                state_view(start),
                program@,
                vocab@,
                children@.len(),
            );
            &&& vals_view(vals@) == run.vals
            &&& findings_view(final(findings)@) == findings_view(old(findings)@) + run.findings
        }),
    decreases children, 1nat,
{
    let ghost st = state_view(start);
    let ghost before = findings_view(findings@);
    let ghost ts = trees_view(children@);
    let mut running = start;
    let mut vals: Vec<ChildVal> = Vec::new();
    assert(vals_view(vals@) =~= Seq::empty());
    assert(before + Seq::<SpecFinding>::empty() =~= before);
    let mut i: usize = 0;
    while i < children.len()
        invariant
            i <= children.len(),
            ts == trees_view(children@),
            ({
                let run = solved_children(
                    ts,
                    slot@,
                    path@,
                    folding,
                    st,
                    program@,
                    vocab@,
                    i as nat,
                );
                &&& vals_view(vals@) == run.vals
                &&& state_view(running) == run.state
                &&& findings_view(findings@) == before + run.findings
            }),
        decreases children.len() - i,
    {
        let ghost run = solved_children(ts, slot@, path@, folding, st, program@, vocab@, i as nat);
        let ghost vals_before = vals@;
        assert(ts[i as int] == children@[i as int]@);
        let mut index = String::new();
        push_decimal(&mut index, i as u64);
        assert(index@ =~= decimal(i as nat));
        let here = child_path(path, slot, index.as_str());
        let child = solve(&children[i], here.as_str(), &running, program, vocab, findings);
        proof {
            let c = solved(ts[i as int], here@, run.state, program@, vocab@);
            assert(before + run.findings + c.findings =~= before + (run.findings + c.findings));
        }
        if folding && child.state_out.is_some() {
            running = child.state_out;
        }
        let val = ChildVal { conclusion: child.conclusion, prov: child.prov };
        vals.push(val);
        assert(vals_view(vals@) =~= vals_view(vals_before).push(val@));
        i += 1;
    }
    vals
}

fn solve_entries(
    entries: &Vec<(String, ParseTree)>,
    slot: &str,
    path: &str,
    state_in: &Option<StateVal>,
    program: &CheckProgram,
    vocab: &Vocabulary,
    findings: &mut Vec<Finding>,
) -> (vals: Vec<ChildVal>)
    ensures
        ({
            let run = solved_entries(
                entries_view(entries@),
                slot@,
                path@,
                state_view(*state_in),
                program@,
                vocab@,
                entries@.len(),
            );
            &&& vals_view(vals@) == run.vals
            &&& findings_view(final(findings)@) == findings_view(old(findings)@) + run.findings
        }),
    decreases entries, 1nat,
{
    let ghost st = state_view(*state_in);
    let ghost before = findings_view(findings@);
    let ghost es = entries_view(entries@);
    let mut vals: Vec<ChildVal> = Vec::new();
    assert(vals_view(vals@) =~= Seq::empty());
    assert(before + Seq::<SpecFinding>::empty() =~= before);
    let mut i: usize = 0;
    while i < entries.len()
        invariant
            i <= entries.len(),
            es == entries_view(entries@),
            st == state_view(*state_in),
            ({
                let run = solved_entries(es, slot@, path@, st, program@, vocab@, i as nat);
                &&& vals_view(vals@) == run.vals
                &&& findings_view(findings@) == before + run.findings
            }),
        decreases entries.len() - i,
    {
        let ghost run = solved_entries(es, slot@, path@, st, program@, vocab@, i as nat);
        let ghost vals_before = vals@;
        let entry = &entries[i];
        proof {
            assert(es[i as int].0 == entry.0@);
            assert(es[i as int].1 == entry.1@);
        }
        let here = child_path(path, slot, entry.0.as_str());
        let child = solve(&entry.1, here.as_str(), state_in, program, vocab, findings);
        proof {
            let c = solved(es[i as int].1, here@, st, program@, vocab@);
            assert(before + run.findings + c.findings =~= before + (run.findings + c.findings));
        }
        let val = ChildVal { conclusion: child.conclusion, prov: child.prov };
        vals.push(val);
        assert(vals_view(vals@) =~= vals_view(vals_before).push(val@));
        i += 1;
    }
    vals
}

// ---------------------------------------------------------------------------
// Entry points
// ---------------------------------------------------------------------------

/// Everything a program finds wrong with a document, in document order.
pub open spec fn findings_of(tree: SpecTree, p: SpecProgram) -> Seq<SpecFinding> {
    solved(tree, Seq::empty(), None, p, vocabulary_of(p)).findings
}

/// Every semantic finding, in document order, before hints are asked for.
pub fn check_findings(tree: &ParseTree, program: &CheckProgram) -> (out: Vec<Finding>)
    ensures
        findings_view(out@) == findings_of(tree@, program@),
{
    let vocab = Vocabulary::of_program(program);
    let mut findings: Vec<Finding> = Vec::new();
    assert(findings_view(findings@) =~= Seq::empty());
    proof {
        reveal_strlit("");
    }
    assert(""@ =~= Seq::empty());
    solve(tree, "", &None, program, &vocab, &mut findings);
    assert(findings_view(findings@) =~= findings_of(tree@, program@));
    findings
}

/// The diagnostics for `fs` without any hint.
pub open spec fn plain_diagnostics(fs: Seq<SpecFinding>) -> Seq<SpecDiagnostic> {
    Seq::new(fs.len(), |i: int| diagnostic_of(fs[i], None))
}

/// Evaluates `program` against `tree` and returns every semantic diagnostic,
/// in document order. An empty result means the document satisfies the
/// program.
pub fn check_semantics(tree: &ParseTree, program: &CheckProgram) -> (out: Vec<Diagnostic>)
    ensures
        diags_view(out@) == plain_diagnostics(findings_of(tree@, program@)),
{
    let mut findings = check_findings(tree, program);
    let ghost all = findings_view(findings@);
    let mut out: Vec<Diagnostic> = Vec::new();
    let ghost n = findings@.len();
    while findings.len() > 0
        invariant
            findings@.len() <= n,
            n == all.len(),
            findings_view(findings@) == all.skip(n - findings@.len()),
            out@.len() == n - findings@.len(),
            forall|j: int|
                0 <= j < out@.len() ==> (#[trigger] out@[j])@ == diagnostic_of(all[j], None),
        decreases findings.len(),
    {
        let ghost rest = findings_view(findings@);
        let f = findings.remove(0);
        proof {
            assert(rest[0] == f@);
            assert(findings_view(findings@) =~= rest.skip(1));
            assert(rest.skip(1) =~= all.skip(n - findings@.len()));
        }
        out.push(f.into_diagnostic(None));
    }
    assert(diags_view(out@) =~= plain_diagnostics(all));
    out
}

/// Whether `ds` are the diagnostics for `fs` with hints that `suggester` may
/// have given.
pub open spec fn hinted_diagnostics<S: Suggester + ?Sized>(
    fs: Seq<SpecFinding>,
    suggester: &S,
    ds: Seq<SpecDiagnostic>,
) -> bool {
    &&& ds.len() == fs.len()
    &&& forall|i: int|
        0 <= i < fs.len() ==> hinted_diagnostic(#[trigger] fs[i], suggester, ds[i])
}

/// Whether `d` is the diagnostic for `f` with a hint that `suggester` may have
/// given.
pub open spec fn hinted_diagnostic<S: Suggester + ?Sized>(
    f: SpecFinding,
    suggester: &S,
    d: SpecDiagnostic,
) -> bool {
    exists|hint: Option<Seq<char>>|
        #[trigger] may_hint(suggester, f.request, hint) && d == diagnostic_of(f, hint)
}

/// [`check_semantics`] with a `did you mean` hint on each diagnostic that the
/// suggester has one for.
pub fn check_semantics_with<S: Suggester + ?Sized>(
    tree: &ParseTree,
    program: &CheckProgram,
    suggester: &S,
) -> (out: Vec<Diagnostic>)
    ensures
        hinted_diagnostics(findings_of(tree@, program@), suggester, diags_view(out@)),
{
    let mut findings = check_findings(tree, program);
    let ghost all = findings_view(findings@);
    let mut out: Vec<Diagnostic> = Vec::new();
    let ghost n = findings@.len();
    while findings.len() > 0
        invariant
            findings@.len() <= n,
            n == all.len(),
            findings_view(findings@) == all.skip(n - findings@.len()),
            out@.len() == n - findings@.len(),
            forall|j: int|
                0 <= j < out@.len() ==> hinted_diagnostic(
                    all[j],
                    suggester,
                    (#[trigger] out@[j])@,
                ),
        decreases findings.len(),
    {
        let ghost rest = findings_view(findings@);
        let f = findings.remove(0);
        proof {
            assert(rest[0] == f@);
            assert(findings_view(findings@) =~= rest.skip(1));
            assert(rest.skip(1) =~= all.skip(n - findings@.len()));
        }
        let hint = match &f.request {
            Some(request) => ask(suggester, request),
            None => None,
        };
        proof {
            assert(may_hint(suggester, f@.request, opt_text(hint)));
        }
        let d = f.into_diagnostic(hint);
        assert(hinted_diagnostic(all[out@.len() as int], suggester, d@));
        out.push(d);
    }
    assert forall|i: int| 0 <= i < all.len() implies hinted_diagnostic(
        #[trigger] all[i],
        suggester,
        diags_view(out@)[i],
    ) by {
        assert(diags_view(out@)[i] == out@[i]@);
    }
    out
}

/// A suggester with nothing to suggest changes no message.
pub proof fn law_silent_suggester_changes_nothing<S: Suggester + ?Sized>(
    fs: Seq<SpecFinding>,
    suggester: &S,
    ds: Seq<SpecDiagnostic>,
)
    requires
        is_silent(suggester),
        hinted_diagnostics(fs, suggester, ds),
    ensures
        ds == plain_diagnostics(fs),
{
    assert forall|i: int| 0 <= i < fs.len() implies ds[i] == diagnostic_of(
        #[trigger] fs[i],
        None,
    ) by {
        let hint = choose|hint: Option<Seq<char>>|
            #[trigger] may_hint(suggester, fs[i].request, hint) && ds[i] == diagnostic_of(
                fs[i],
                hint,
            );
        assert(hint is None);
    }
    assert(ds =~= plain_diagnostics(fs));
}

} // verus!
