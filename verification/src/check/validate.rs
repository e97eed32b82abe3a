//! Load-time self-validation of a check program.
//!
//! A finding about a document cannot be silenced, which is only fair while
//! the program itself is sound. [`CheckProgram::validate`] reads the program
//! on its own and reports states that nothing reaches, predicates that
//! nothing consumes, and rules that an earlier one always wins over. It
//! compares patterns only, so it rules out what cannot hold under any
//! document.
use vstd::prelude::*;
use vstd::string::*;

use crate::check::codes;
use crate::check::ir::{
    fact_text, premises_view, rules_view, same_premises, CheckProgram, Fact, Premise, Rule,
    SpecFact, SpecPremise, SpecProgram, SpecRule, SpecSeqSlot,
};
use crate::check::tree::{diags_view, Diagnostic, Location, Severity, SpecDiagnostic};
use crate::check::unify::{compatible, may_unify_fact};
use crate::text::{
    decimal, insert_name, insert_text, join, join_spec, push_decimal, same_text, strings_view,
    text_before, text_lt,
};

verus! {

// ---------------------------------------------------------------------------
// States that nothing reaches
// ---------------------------------------------------------------------------

/// The seeds of the first `n` slot declarations.
pub open spec fn seed_facts(ds: Seq<SpecSeqSlot>) -> Seq<SpecFact> {
    Seq::new(ds.len(), |i: int| ds[i].initial)
}

/// The states that rules move to, in declaration order.
pub open spec fn transition_facts(rs: Seq<SpecRule>) -> Seq<SpecFact>
    decreases rs.len(),
{
    if rs.len() == 0 {
        Seq::empty()
    } else {
        match rs.last().state_after {
            Some(f) => transition_facts(rs.drop_last()).push(f),
            None => transition_facts(rs.drop_last()),
        }
    }
}

/// Every fact the program can put into a fold state.
pub open spec fn producers_of(p: SpecProgram) -> Seq<SpecFact> {
    seed_facts(p.seq_slots) + transition_facts(p.rules)
}

/// The views of borrowed facts.
pub open spec fn fact_refs_view(fs: Seq<&Fact>) -> Seq<SpecFact> {
    Seq::new(fs.len(), |i: int| fs[i]@)
}

/// Whether one of `producers` could be what `expect` asks for.
pub open spec fn reached(producers: Seq<SpecFact>, expect: SpecFact) -> bool {
    exists|i: int| 0 <= i < producers.len() && compatible(expect, #[trigger] producers[i])
}

/// The texts of the facts of one predicate, each once and in ascending order.
pub open spec fn known_texts(fs: Seq<SpecFact>, pred: Seq<char>) -> Seq<Seq<char>>
    decreases fs.len(),
{
    if fs.len() == 0 {
        Seq::empty()
    } else if fs.last().pred == pred {
        insert_name(known_texts(fs.drop_last(), pred), fact_text(fs.last()))
    } else {
        known_texts(fs.drop_last(), pred)
    }
}

/// ` (reachable: state(Built), state(Raw))`, or nothing when the predicate
/// has no producer at all.
pub open spec fn reachable_text(fs: Seq<SpecFact>, pred: Seq<char>) -> Seq<char> {
    let known = known_texts(fs, pred);
    if known.len() == 0 {
        Seq::empty()
    } else {
        " (reachable: "@ + join_spec(known, ", "@) + ")"@
    }
}

/// The error about a state that nothing reaches.
pub open spec fn undefined_state(
    variant: Seq<char>,
    expect: SpecFact,
    producers: Seq<SpecFact>,
) -> SpecDiagnostic {
    SpecDiagnostic {
        severity: Severity::Error,
        code: codes::CHECK_PROGRAM_UNDEFINED_STATE@,
        message: "rule `"@ + variant + "` requires `"@ + fact_text(expect)
            + "`, but nothing in the program reaches that state — no rule produces it and no fold declaration starts from it"@
            + reachable_text(producers, expect.pred),
        location: Location::Nowhere,
    }
}

/// The errors about the first `n` premises of a rule.
pub open spec fn undefined_in_rule(
    variant: Seq<char>,
    ps: Seq<SpecPremise>,
    producers: Seq<SpecFact>,
) -> Seq<SpecDiagnostic>
    decreases ps.len(),
{
    if ps.len() == 0 {
        Seq::empty()
    } else {
        let before = undefined_in_rule(variant, ps.drop_last(), producers);
        match ps.last() {
            SpecPremise::State { expect } => if reached(producers, expect) {
                before
            } else {
                before.push(undefined_state(variant, expect, producers))
            },
            _ => before,
        }
    }
}

/// The errors about states that nothing reaches.
pub open spec fn undefined_states(rs: Seq<SpecRule>, producers: Seq<SpecFact>) -> Seq<
    SpecDiagnostic,
>
    decreases rs.len(),
{
    if rs.len() == 0 {
        Seq::empty()
    } else {
        undefined_states(rs.drop_last(), producers) + undefined_in_rule(
            rs.last().variant,
            rs.last().premises,
            producers,
        )
    }
}

fn push_diag(out: &mut Vec<Diagnostic>, d: Diagnostic)
    ensures
        diags_view(final(out)@) == diags_view(old(out)@).push(d@),
{
    let ghost before = diags_view(out@);
    out.push(d);
    assert(diags_view(out@) =~= before.push(d@));
}

/// ` (reachable: …)` for the facts of one predicate.
pub fn reachable_summary(producers: &Vec<&Fact>, pred: &str) -> (out: String)
    ensures
        out@ == reachable_text(fact_refs_view(producers@), pred@),
{
    let ghost fv = fact_refs_view(producers@);
    let mut known: Vec<String> = Vec::new();
    assert(strings_view(known@) =~= known_texts(fv.take(0), pred@));
    for i in 0..producers.len()
        invariant
            fv == fact_refs_view(producers@),
            strings_view(known@) == known_texts(fv.take(i as int), pred@),
    {
        proof {
            let done = fv.take(i + 1);
            assert(done.drop_last() =~= fv.take(i as int));
            assert(done.last() == producers@[i as int]@);
        }
        if same_text(producers[i].pred.as_str(), pred) {
            insert_text(&mut known, producers[i].to_text().as_str());
        }
    }
    assert(fv.take(fv.len() as int) =~= fv);
    assert(strings_view(known@).len() == known@.len());
    if known.len() == 0 {
        return String::new();
    }
    let mut out = " (reachable: ".to_owned();
    out.append(join(&known, ", ").as_str());
    out.append(")");
    out
}

// ---------------------------------------------------------------------------
// Predicates that nothing consumes
// ---------------------------------------------------------------------------

/// Whether a premise asks for a fact of predicate `pred`.
pub open spec fn premise_asks(p: SpecPremise, pred: Seq<char>) -> bool {
    match p {
        SpecPremise::Child { slot, expect } => expect.pred == pred,
        SpecPremise::State { expect } => expect.pred == pred,
        _ => false,
    }
}

/// Whether a premise of `r` asks for a fact of predicate `pred`.
pub open spec fn rule_asks(r: SpecRule, pred: Seq<char>) -> bool {
    exists|i: int| 0 <= i < r.premises.len() && premise_asks(#[trigger] r.premises[i], pred)
}

/// Whether any rule asks for a fact of predicate `pred`.
pub open spec fn required(rs: Seq<SpecRule>, pred: Seq<char>) -> bool {
    exists|i: int| 0 <= i < rs.len() && rule_asks(#[trigger] rs[i], pred)
}

/// A predicate and what first produces it.
pub struct SpecOrigin {
    pub pred: Seq<char>,
    pub origin: Seq<char>,
}

/// `os` with `pred` in its place, unless it is there already.
pub open spec fn insert_origin(os: Seq<SpecOrigin>, pred: Seq<char>, origin: Seq<char>) -> Seq<
    SpecOrigin,
>
    decreases os.len(),
{
    if os.len() == 0 {
        seq![SpecOrigin { pred, origin }]
    } else if os[0].pred == pred {
        os
    } else if text_lt(pred, os[0].pred) {
        seq![SpecOrigin { pred, origin }] + os
    } else {
        seq![os[0]] + insert_origin(os.skip(1), pred, origin)
    }
}

/// The origin that a slot declaration is named as.
pub open spec fn slot_origin(d: SpecSeqSlot) -> Seq<char> {
    "the `"@ + d.variant + "."@ + d.slot + "` fold declaration"@
}

/// The origin that a rule is named as.
pub open spec fn rule_origin(r: SpecRule) -> Seq<char> {
    "rule `"@ + r.variant + "`"@
}

/// The predicates that slot declarations produce.
pub open spec fn slot_origins(ds: Seq<SpecSeqSlot>) -> Seq<SpecOrigin>
    decreases ds.len(),
{
    if ds.len() == 0 {
        Seq::empty()
    } else {
        insert_origin(slot_origins(ds.drop_last()), ds.last().initial.pred, slot_origin(ds.last()))
    }
}

/// `os` with the predicate of an optional fact.
pub open spec fn with_origin(os: Seq<SpecOrigin>, f: Option<SpecFact>, origin: Seq<char>) -> Seq<
    SpecOrigin,
> {
    match f {
        Some(f) => insert_origin(os, f.pred, origin),
        None => os,
    }
}

/// `os` with the predicates that rules produce.
pub open spec fn rule_origins(os: Seq<SpecOrigin>, rs: Seq<SpecRule>) -> Seq<SpecOrigin>
    decreases rs.len(),
{
    if rs.len() == 0 {
        os
    } else {
        let before = rule_origins(os, rs.drop_last());
        with_origin(
            with_origin(before, rs.last().conclusion, rule_origin(rs.last())),
            rs.last().state_after,
            rule_origin(rs.last()),
        )
    }
}

/// The predicates that the program produces, in ascending order, each with
/// what produces it first.
pub open spec fn produced(p: SpecProgram) -> Seq<SpecOrigin> {
    rule_origins(slot_origins(p.seq_slots), p.rules)
}

/// The warning about a predicate that nothing consumes.
pub open spec fn unused_pred(o: SpecOrigin) -> SpecDiagnostic {
    SpecDiagnostic {
        severity: Severity::Warning,
        code: codes::CHECK_PROGRAM_UNUSED_PRED@,
        message: "predicate `"@ + o.pred + "` is produced (first by "@ + o.origin
            + ") but no premise ever requires it — either a rule that consumes it is missing, or one of the two spellings is a typo"@,
        location: Location::Nowhere,
    }
}

/// The warnings about predicates that nothing consumes.
pub open spec fn unused_preds(os: Seq<SpecOrigin>, rs: Seq<SpecRule>) -> Seq<SpecDiagnostic>
    decreases os.len(),
{
    if os.len() == 0 {
        Seq::empty()
    } else if required(rs, os.last().pred) {
        unused_preds(os.drop_last(), rs)
    } else {
        unused_preds(os.drop_last(), rs).push(unused_pred(os.last()))
    }
}

struct Origin {
    pred: String,
    origin: String,
}

impl View for Origin {
    type V = SpecOrigin;

    closed spec fn view(&self) -> SpecOrigin {
        SpecOrigin { pred: self.pred@, origin: self.origin@ }
    }
}

spec fn origins_view(os: Seq<Origin>) -> Seq<SpecOrigin> {
    Seq::new(os.len(), |i: int| os[i]@)
}

fn add_origin(os: &mut Vec<Origin>, pred: &str, origin: String)
    ensures
        origins_view(final(os)@) == insert_origin(origins_view(old(os)@), pred@, origin@),
{
    let ghost before = origins_view(os@);
    let mut i: usize = 0;
    assert(before.skip(0) =~= before);
    assert(before.take(0) + insert_origin(before, pred@, origin@) =~= insert_origin(
        before,
        pred@,
        origin@,
    ));
    while i < os.len()
        invariant
            i <= os.len(),
            before == origins_view(old(os)@),
            os@ == old(os)@,
            insert_origin(before, pred@, origin@) == before.take(i as int) + insert_origin(
                before.skip(i as int),
                pred@,
                origin@,
            ),
        decreases os.len() - i,
    {
        let ghost rest = before.skip(i as int);
        assert(rest[0] == os@[i as int]@);
        assert(rest.skip(1) =~= before.skip(i + 1));
        if same_text(os[i].pred.as_str(), pred) {
            assert(before.take(i as int) + rest =~= before);
            return;
        }
        if text_before(pred, os[i].pred.as_str()) {
            let entry = Origin { pred: pred.to_owned(), origin };
            os.insert(i, entry);
            assert(origins_view(os@) =~= before.take(i as int) + (seq![entry@] + rest));
            return;
        }
        assert(before.take(i as int) + (seq![rest[0]] + insert_origin(
            rest.skip(1),
            pred@,
            origin@,
        )) =~= before.take(i + 1) + insert_origin(before.skip(i + 1), pred@, origin@));
        i += 1;
    }
    let entry = Origin { pred: pred.to_owned(), origin };
    os.push(entry);
    assert(before.skip(i as int) =~= Seq::empty());
    assert(origins_view(os@) =~= before.take(i as int) + seq![entry@]);
}

fn rule_name(rule: &Rule) -> (out: String)
    ensures
        out@ == rule_origin(rule@),
{
    let mut out = "rule `".to_owned();
    out.append(rule.variant.as_str());
    out.append("`");
    out
}

fn asks_for(rule: &Rule, pred: &str) -> (asks: bool)
    ensures
        asks == rule_asks(rule@, pred@),
{
    for i in 0..rule.premises.len()
        invariant
            forall|j: int| 0 <= j < i ==> !premise_asks(#[trigger] rule@.premises[j], pred@),
    {
        assert(rule@.premises[i as int] == rule.premises@[i as int]@);
        let asks = match &rule.premises[i] {
            Premise::Child { slot: _, expect } => same_text(expect.pred.as_str(), pred),
            Premise::State { expect } => same_text(expect.pred.as_str(), pred),
            _ => false,
        };
        if asks {
            assert(premise_asks(rule@.premises[i as int], pred@));
            return true;
        }
    }
    false
}

// ---------------------------------------------------------------------------
// Rules that never fire
// ---------------------------------------------------------------------------

/// Whether `earlier` takes every document that `later` could have taken: it
/// is unconditional, or carries the same premises.
pub open spec fn shadowed(earlier: SpecRule, later: SpecRule) -> bool {
    earlier.premises.len() == 0 || earlier.premises == later.premises
}

/// The first of `earlier` that always wins over `r`.
pub open spec fn winner_over(earlier: Seq<SpecRule>, r: SpecRule) -> Option<SpecRule>
    decreases earlier.len(),
{
    if earlier.len() == 0 {
        None
    } else {
        match winner_over(earlier.drop_last(), r) {
            Some(w) => Some(w),
            None => if earlier.last().variant == r.variant && shadowed(earlier.last(), r) {
                Some(earlier.last())
            } else {
                None
            },
        }
    }
}

/// How many of `rs` are attached to `variant`.
pub open spec fn count_on(rs: Seq<SpecRule>, variant: Seq<char>) -> nat
    decreases rs.len(),
{
    if rs.len() == 0 {
        0
    } else if rs.last().variant == variant {
        count_on(rs.drop_last(), variant) + 1
    } else {
        count_on(rs.drop_last(), variant)
    }
}

/// The warning about a rule that never fires.
pub open spec fn unreachable_rule(ordinal: nat, r: SpecRule, winner: SpecRule) -> SpecDiagnostic {
    SpecDiagnostic {
        severity: Severity::Warning,
        code: codes::CHECK_PROGRAM_UNREACHABLE_RULE@,
        message: "rule #"@ + decimal(ordinal) + " for variant `"@ + r.variant
            + "` can never fire: an earlier rule for the same variant always wins ("@ + (
        if winner.premises.len() == 0 {
            "it is unconditional"@
        } else {
            "it carries the same premises"@
        }) + "), and rules are tried in declaration order"@,
        location: Location::Nowhere,
    }
}

/// The warnings about rules that never fire.
pub open spec fn unreachable_rules(rs: Seq<SpecRule>) -> Seq<SpecDiagnostic>
    decreases rs.len(),
{
    if rs.len() == 0 {
        Seq::empty()
    } else {
        let earlier = rs.drop_last();
        let before = unreachable_rules(earlier);
        match winner_over(earlier, rs.last()) {
            Some(w) => before.push(
                unreachable_rule(count_on(earlier, rs.last().variant) + 1, rs.last(), w),
            ),
            None => before,
        }
    }
}

/// Whether `earlier` takes every document that `later` could have taken.
pub fn shadows(earlier: &Rule, later: &Rule) -> (out: bool)
    ensures
        out == shadowed(earlier@, later@),
{
    earlier.premises.len() == 0 || same_premises(&earlier.premises, &later.premises)
}

// ---------------------------------------------------------------------------
// Entry point
// ---------------------------------------------------------------------------

/// Everything wrong with a program, errors first, then unused predicates,
/// then unreachable rules.
pub open spec fn validation(p: SpecProgram) -> Seq<SpecDiagnostic> {
    undefined_states(p.rules, producers_of(p)) + unused_preds(produced(p), p.rules)
        + unreachable_rules(p.rules)
}

impl CheckProgram {
    /// Checks the program against itself and returns what it finds.
    pub fn validate(&self) -> (out: Vec<Diagnostic>)
        ensures
            diags_view(out@) == validation(self@),
    {
        let mut out: Vec<Diagnostic> = Vec::new();
        assert(diags_view(out@) =~= Seq::empty());
        self.report_undefined_states(&mut out);
        self.report_unused_preds(&mut out);
        self.report_unreachable_rules(&mut out);
        assert(diags_view(out@) =~= validation(self@));
        out
    }

    /// Every fact the program can put into a fold state: the seed of each
    /// declared slot, then every rule's transition.
    pub fn state_producers<'a>(&'a self) -> (out: Vec<&'a Fact>)
        ensures
            fact_refs_view(out@) == producers_of(self@),
    {
        let mut out: Vec<&'a Fact> = Vec::new();
        for i in 0..self.seq_slots.len()
            invariant
                out@.len() == i,
                forall|j: int|
                    0 <= j < i ==> (#[trigger] out@[j])@ == self.seq_slots@[j].initial@,
        {
            out.push(&self.seq_slots[i].initial);
        }
        let ghost seeds = seed_facts(self@.seq_slots);
        let ghost rs = self@.rules;
        assert(fact_refs_view(out@) =~= seeds + transition_facts(rs.take(0)));
        for i in 0..self.rules.len()
            invariant
                rs == self@.rules,
                fact_refs_view(out@) == seeds + transition_facts(rs.take(i as int)),
        {
            proof {
                let done = rs.take(i + 1);
                assert(done.drop_last() =~= rs.take(i as int));
                assert(done.last() == self.rules@[i as int]@);
            }
            let ghost before = fact_refs_view(out@);
            if let Some(f) = &self.rules[i].state_after {
                out.push(f);
                assert(fact_refs_view(out@) =~= before.push(f@));
                assert(fact_refs_view(out@) =~= seeds + transition_facts(rs.take(i + 1)));
            }
        }
        assert(rs.take(rs.len() as int) =~= rs);
        out
    }

    fn report_undefined_states(&self, out: &mut Vec<Diagnostic>)
        ensures
            diags_view(final(out)@) == diags_view(old(out)@) + undefined_states(
                self@.rules,
                producers_of(self@),
            ),
    {
        let producers = self.state_producers();
        let ghost pv = fact_refs_view(producers@);
        let ghost start = diags_view(out@);
        let ghost rs = self@.rules;
        assert(start + undefined_states(rs.take(0), pv) =~= start);
        for i in 0..self.rules.len()
            invariant
                pv == fact_refs_view(producers@),
                rs == rules_view(self.rules@),
                diags_view(out@) == start + undefined_states(rs.take(i as int), pv),
        {
            let rule = &self.rules[i];
            let ghost ps = rule@.premises;
            let ghost mid = diags_view(out@);
            proof {
                let done = rs.take(i + 1);
                assert(done.drop_last() =~= rs.take(i as int));
                assert(done.last() == rule@);
            }
            assert(mid + undefined_in_rule(rule@.variant, ps.take(0), pv) =~= mid);
            for j in 0..rule.premises.len()
                invariant
                    pv == fact_refs_view(producers@),
                    ps == premises_view(rule.premises@),
                    diags_view(out@) == mid + undefined_in_rule(
                        rule@.variant,
                        ps.take(j as int),
                        pv,
                    ),
            {
                proof {
                    let done = ps.take(j + 1);
                    assert(done.drop_last() =~= ps.take(j as int));
                    assert(done.last() == rule.premises@[j as int]@);
                }
                if let Premise::State { expect } = &rule.premises[j] {
                    if !is_reached(&producers, expect) {
                        let mut message = "rule `".to_owned();
                        message.append(rule.variant.as_str());
                        message.append("` requires `");
                        message.append(expect.to_text().as_str());
                        message.append(
                            "`, but nothing in the program reaches that state — no rule produces it and no fold declaration starts from it",
                        );
                        message.append(reachable_summary(&producers, expect.pred.as_str()).as_str());
                        assert(message@ =~= undefined_state(rule@.variant, expect@, pv).message);
                        let ghost before = diags_view(out@);
                        push_diag(
                            out,
                            Diagnostic::error(codes::CHECK_PROGRAM_UNDEFINED_STATE, message),
                        );
                        assert(diags_view(out@) =~= mid + undefined_in_rule(
                            rule@.variant,
                            ps.take(j + 1),
                            pv,
                        ));
                    }
                }
            }
            assert(ps.take(ps.len() as int) =~= ps);
            assert(diags_view(out@) =~= start + undefined_states(rs.take(i + 1), pv));
        }
        assert(rs.take(rs.len() as int) =~= rs);
    }

    fn is_required(&self, pred: &str) -> (out: bool)
        ensures
            out == required(self@.rules, pred@),
    {
        for i in 0..self.rules.len()
            invariant
                forall|j: int| 0 <= j < i ==> !rule_asks(#[trigger] self@.rules[j], pred@),
        {
            assert(self@.rules[i as int] == self.rules@[i as int]@);
            if asks_for(&self.rules[i], pred) {
                assert(rule_asks(self@.rules[i as int], pred@));
                return true;
            }
        }
        false
    }

    fn produced_preds(&self) -> (out: Vec<Origin>)
        ensures
            origins_view(out@) == produced(self@),
    {
        let mut out: Vec<Origin> = Vec::new();
        let ghost ds = self@.seq_slots;
        assert(origins_view(out@) =~= slot_origins(ds.take(0)));
        for i in 0..self.seq_slots.len()
            invariant
                ds == self@.seq_slots,
                origins_view(out@) == slot_origins(ds.take(i as int)),
        {
            let d = &self.seq_slots[i];
            proof {
                let done = ds.take(i + 1);
                assert(done.drop_last() =~= ds.take(i as int));
                assert(done.last() == d@);
            }
            let mut origin = "the `".to_owned();
            origin.append(d.variant.as_str());
            origin.append(".");
            origin.append(d.slot.as_str());
            origin.append("` fold declaration");
            assert(origin@ =~= slot_origin(d@));
            add_origin(&mut out, d.initial.pred.as_str(), origin);
        }
        assert(ds.take(ds.len() as int) =~= ds);
        let ghost seeds = origins_view(out@);
        let ghost rs = self@.rules;
        assert(rs.take(0) =~= Seq::empty());
        for i in 0..self.rules.len()
            invariant
                rs == self@.rules,
                origins_view(out@) == rule_origins(seeds, rs.take(i as int)),
        {
            let rule = &self.rules[i];
            proof {
                let done = rs.take(i + 1);
                assert(done.drop_last() =~= rs.take(i as int));
                assert(done.last() == rule@);
            }
            if let Some(f) = &rule.conclusion {
                add_origin(&mut out, f.pred.as_str(), rule_name(rule));
            }
            if let Some(f) = &rule.state_after {
                add_origin(&mut out, f.pred.as_str(), rule_name(rule));
            }
        }
        assert(rs.take(rs.len() as int) =~= rs);
        out
    }

    fn report_unused_preds(&self, out: &mut Vec<Diagnostic>)
        ensures
            diags_view(final(out)@) == diags_view(old(out)@) + unused_preds(
                produced(self@),
                self@.rules,
            ),
    {
        let origins = self.produced_preds();
        let ghost os = origins_view(origins@);
        let ghost start = diags_view(out@);
        assert(start + unused_preds(os.take(0), self@.rules) =~= start);
        for i in 0..origins.len()
            invariant
                os == origins_view(origins@),
                diags_view(out@) == start + unused_preds(os.take(i as int), self@.rules),
        {
            let o = &origins[i];
            proof {
                let done = os.take(i + 1);
                assert(done.drop_last() =~= os.take(i as int));
                assert(done.last() == o@);
            }
            if !self.is_required(o.pred.as_str()) {
                let mut message = "predicate `".to_owned();
                message.append(o.pred.as_str());
                message.append("` is produced (first by ");
                message.append(o.origin.as_str());
                message.append(
                    ") but no premise ever requires it — either a rule that consumes it is missing, or one of the two spellings is a typo",
                );
                assert(message@ =~= unused_pred(o@).message);
                push_diag(out, Diagnostic::warning(codes::CHECK_PROGRAM_UNUSED_PRED, message));
                assert(diags_view(out@) =~= start + unused_preds(os.take(i + 1), self@.rules));
            }
        }
        assert(os.take(os.len() as int) =~= os);
    }

    fn report_unreachable_rules(&self, out: &mut Vec<Diagnostic>)
        ensures
            diags_view(final(out)@) == diags_view(old(out)@) + unreachable_rules(self@.rules),
    {
        let ghost rs = self@.rules;
        let ghost start = diags_view(out@);
        assert(start + unreachable_rules(rs.take(0)) =~= start);
        for index in 0..self.rules.len()
            invariant
                rs == rules_view(self.rules@),
                diags_view(out@) == start + unreachable_rules(rs.take(index as int)),
        {
            let rule = &self.rules[index];
            let ghost earlier = rs.take(index as int);
            proof {
                let done = rs.take(index + 1);
                assert(done.drop_last() =~= earlier);
                assert(done.last() == rule@);
            }
            let mut winner: Option<&Rule> = None;
            let mut ordinal: usize = 0;
            assert(earlier.take(0) =~= Seq::empty());
            for k in 0..index
                invariant
                    index < self.rules.len(),
                    rs == rules_view(self.rules@),
                    earlier == rs.take(index as int),
                    match winner {
                        Some(w) => winner_over(earlier.take(k as int), rule@) == Some(w@),
                        None => winner_over(earlier.take(k as int), rule@) is None,
                    },
                    ordinal == count_on(earlier.take(k as int), rule@.variant),
                    ordinal <= k,
            {
                let e = &self.rules[k];
                proof {
                    let done = earlier.take(k + 1);
                    assert(done.drop_last() =~= earlier.take(k as int));
                    assert(done.last() == e@);
                }
                if same_text(e.variant.as_str(), rule.variant.as_str()) {
                    if winner.is_none() && shadows(e, rule) {
                        winner = Some(e);
                    }
                    ordinal += 1;
                }
            }
            assert(earlier.take(index as int) =~= earlier);
            if let Some(w) = winner {
                let mut message = "rule #".to_owned();
                push_decimal(&mut message, (ordinal + 1) as u64);
                message.append(" for variant `");
                message.append(rule.variant.as_str());
                message.append(
                    "` can never fire: an earlier rule for the same variant always wins (",
                );
                assert(w@.premises.len() == w.premises@.len());
                if w.premises.len() == 0 {
                    message.append("it is unconditional");
                } else {
                    message.append("it carries the same premises");
                }
                message.append("), and rules are tried in declaration order");
                assert(message@ =~= unreachable_rule(
                    (ordinal + 1) as nat,
                    rule@,
                    w@,
                ).message);
                push_diag(
                    out,
                    Diagnostic::warning(codes::CHECK_PROGRAM_UNREACHABLE_RULE, message),
                );
                assert(diags_view(out@) =~= start + unreachable_rules(rs.take(index + 1)));
            }
        }
        assert(rs.take(rs.len() as int) =~= rs);
    }
}

fn is_reached(producers: &Vec<&Fact>, expect: &Fact) -> (out: bool)
    ensures
        out == reached(fact_refs_view(producers@), expect@),
{
    let ghost pv = fact_refs_view(producers@);
    for i in 0..producers.len()
        invariant
            pv == fact_refs_view(producers@),
            forall|j: int| 0 <= j < i ==> !compatible(expect@, #[trigger] pv[j]),
    {
        assert(pv[i as int] == producers@[i as int]@);
        if may_unify_fact(expect, producers[i]) {
            return true;
        }
    }
    false
}

/// A program that validates without an error has, for every state premise, a
/// seed or a transition that could satisfy it.
pub proof fn law_no_error_means_states_are_reached(p: SpecProgram, rule: int, premise: int)
    requires
        forall|i: int|
            0 <= i < validation(p).len() ==> (#[trigger] validation(p)[i]).severity
                != Severity::Error,
        0 <= rule < p.rules.len(),
        0 <= premise < p.rules[rule].premises.len(),
        p.rules[rule].premises[premise] is State,
    ensures
        reached(producers_of(p), p.rules[rule].premises[premise]->State_expect),
{
    let producers = producers_of(p);
    let expect = p.rules[rule].premises[premise]->State_expect;
    if !reached(producers, expect) {
        let d = undefined_state(p.rules[rule].variant, expect, producers);
        lemma_undefined_reported(p.rules, producers, rule, premise);
        let errors = undefined_states(p.rules, producers);
        let k = choose|k: int| 0 <= k < errors.len() && errors[k] == d;
        assert(validation(p)[k] == d);
    }
}

proof fn lemma_undefined_reported(
    rs: Seq<SpecRule>,
    producers: Seq<SpecFact>,
    rule: int,
    premise: int,
)
    requires
        0 <= rule < rs.len(),
        0 <= premise < rs[rule].premises.len(),
        rs[rule].premises[premise] is State,
        !reached(producers, rs[rule].premises[premise]->State_expect),
    ensures
        undefined_states(rs, producers).contains(
            undefined_state(
                rs[rule].variant,
                rs[rule].premises[premise]->State_expect,
                producers,
            ),
        ),
    decreases rs.len(),
{
    let d = undefined_state(
        rs[rule].variant,
        rs[rule].premises[premise]->State_expect,
        producers,
    );
    let head = undefined_states(rs.drop_last(), producers);
    let tail = undefined_in_rule(rs.last().variant, rs.last().premises, producers);
    if rule == rs.len() - 1 {
        lemma_undefined_in_rule(rs.last().variant, rs.last().premises, producers, premise);
        let k = choose|k: int| 0 <= k < tail.len() && tail[k] == d;
        assert((head + tail)[head.len() + k] == d);
    } else {
        assert(rs.drop_last()[rule] == rs[rule]);
        lemma_undefined_reported(rs.drop_last(), producers, rule, premise);
        let k = choose|k: int| 0 <= k < head.len() && head[k] == d;
        assert((head + tail)[k] == d);
    }
}

proof fn lemma_undefined_in_rule(
    variant: Seq<char>,
    ps: Seq<SpecPremise>,
    producers: Seq<SpecFact>,
    premise: int,
)
    requires
        0 <= premise < ps.len(),
        ps[premise] is State,
        !reached(producers, ps[premise]->State_expect),
    ensures
        undefined_in_rule(variant, ps, producers).contains(
            undefined_state(variant, ps[premise]->State_expect, producers),
        ),
    decreases ps.len(),
{
    let d = undefined_state(variant, ps[premise]->State_expect, producers);
    let out = undefined_in_rule(variant, ps, producers);
    let head = undefined_in_rule(variant, ps.drop_last(), producers);
    if premise == ps.len() - 1 {
        assert(out[head.len() as int] == d);
    } else {
        assert(ps.drop_last()[premise] == ps[premise]);
        lemma_undefined_in_rule(variant, ps.drop_last(), producers, premise);
        let k = choose|k: int| 0 <= k < head.len() && head[k] == d;
        assert(out[k] == d);
    }
}

} // verus!
