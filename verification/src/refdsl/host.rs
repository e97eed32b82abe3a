//! A host that runs a program of the language and reports on it.
use vstd::prelude::*;

use crate::context::{NodeContext, SpecContext};
use crate::derive::fact::{trim, trimmed};
use crate::error::{quote, quoted};
use crate::event::{pendings_view, reason_text, Pending, SpecPending, SpecReason, SuspendReason};
use crate::frame::{SpecOutcome, StepOutcome};
use crate::ids::{IdGen, NodeId, SuspensionId};
use crate::lint::{
    default_findings, law_default_rules_have_one_answer, lints_view, Diagnostic, Linter,
};
use crate::refdsl::run::{answered, evaluate, log_view, meaning};
use crate::refdsl::shape::ref_schema;
use crate::refdsl::{
    count_nodes, demo_program, integer_text, is_demo, pretty, push_integer, ref_id, ref_listing,
    ref_size, ref_summary, Binding, Ref,
};
use crate::schema::{DslSchema, NodeSchema};
use crate::text::slice_text;
use crate::walk::{levels, DslNode};

verus! {

/// Where a host stands, in plain numbers.
#[derive(Debug)]
pub struct HostLocation {
    /// The node.
    pub node: u64,
    /// The nodes from the root down to it.
    pub path: Vec<u64>,
    /// How deep it stands.
    pub depth: u32,
    /// The call frame it stands in.
    pub frame: Option<u64>,
    /// Which iteration it is in.
    pub iteration: Option<u64>,
}

/// Whether a location says where a context is.
pub open spec fn locates(l: HostLocation, at: SpecContext) -> bool {
    &&& l.node == at.node.0
    &&& l.path@ == at.path.map_values(|n: NodeId| n.0)
    &&& l.depth == at.depth
    &&& l.frame == (match at.frame {
        Some(f) => Some(f.0),
        None => None,
    })
    &&& l.iteration == (match at.iteration {
        Some(i) => Some(i.0),
        None => None,
    })
}

impl HostLocation {
    /// Where a context is.
    pub fn of(at: &NodeContext) -> (out: Self)
        ensures
            locates(out, at@),
    {
        let mut path: Vec<u64> = Vec::new();
        let ghost all = at@.path;
        for i in 0..at.path.0.len()
            invariant
                all == at.path.0@,
                path@ == all.take(i as int).map_values(|n: NodeId| n.0),
        {
            path.push(at.path.0[i].0);
            assert(path@ =~= all.take(i + 1).map_values(|n: NodeId| n.0));
        }
        assert(all.take(all.len() as int) =~= all);
        HostLocation {
            node: at.node.0,
            path,
            depth: at.depth,
            frame: match at.frame {
                Some(f) => Some(f.0),
                None => None,
            },
            iteration: match at.iteration {
                Some(i) => Some(i.0),
                None => None,
            },
        }
    }
}

/// What a host reports after a step.
#[derive(Debug)]
pub enum HostOutcome {
    /// It can go on.
    Advanced,
    /// It waits.
    Suspended {
        /// What for.
        reason: String,
        /// Where.
        at: HostLocation,
    },
    /// It is finished.
    Done,
}

/// The suspension a report speaks of: the first new one, or the first that
/// is outstanding.
pub open spec fn spoken_of(newly: Seq<SpecPending>, pending: Seq<SpecPending>) -> Option<
    SpecPending,
> {
    if newly.len() > 0 {
        Some(newly[0])
    } else if pending.len() > 0 {
        Some(pending[0])
    } else {
        None
    }
}

/// Whether a report says what a step led to.
pub open spec fn reports(
    h: HostOutcome,
    outcome: SpecOutcome<i64>,
    pending: Seq<SpecPending>,
) -> bool {
    match outcome {
        SpecOutcome::Done(_) => h is Done,
        SpecOutcome::Ready => h is Advanced,
        SpecOutcome::Blocked { newly_pending } => h matches HostOutcome::Suspended { reason, at }
            && match spoken_of(newly_pending, pending) {
            Some(p) => reason@ == reason_text(p.reason) && locates(at, p.at),
            None => reason@ == "waiting"@ && locates(
                at,
                SpecContext {
                    node: NodeId(0),
                    path: Seq::empty(),
                    frame: None,
                    depth: 0,
                    iteration: None,
                },
            ),
        },
    }
}

/// What a host reports of a step, given the suspensions that are outstanding
/// after it.
pub fn step_outcome_to_host(outcome: &StepOutcome<i64>, pending: &Vec<Pending>) -> (out:
    HostOutcome)
    ensures
        reports(out, outcome@, pendings_view(pending@)),
{
    match outcome {
        StepOutcome::Done(_) => HostOutcome::Done,
        StepOutcome::Ready => HostOutcome::Advanced,
        StepOutcome::Blocked { newly_pending } => {
            let reference: Option<&Pending> = match newly_pending.get(0) {
                Some(p) => Some(p),
                None => if pending.len() > 0 {
                    Some(&pending[0])
                } else {
                    None
                },
            };
            match reference {
                Some(p) => HostOutcome::Suspended {
                    reason: p.reason.to_text(),
                    at: HostLocation::of(&p.at),
                },
                None => {
                    let path: Vec<u64> = Vec::new();
                    assert(path@ =~= Seq::<NodeId>::empty().map_values(|n: NodeId| n.0));
                    HostOutcome::Suspended {
                        reason: "waiting".to_owned(),
                        at: HostLocation { node: 0, path, depth: 0, frame: None, iteration: None },
                    }
                },
            }
        },
    }
}

/// The calls among the suspensions: which one, of which node, for what.
pub open spec fn calls_among(ps: Seq<SpecPending>) -> Seq<(SuspensionId, u64, Seq<char>)>
    decreases ps.len(),
{
    if ps.len() == 0 {
        Seq::empty()
    } else {
        let before = calls_among(ps.drop_last());
        match ps.last().reason {
            SpecReason::Call { spec } => before.push(
                (ps.last().id, ps.last().at.node.0, spec.label),
            ),
            _ => before,
        }
    }
}

/// The mathematical shape of a list of calls.
pub open spec fn calls_view(cs: Seq<(SuspensionId, u64, String)>) -> Seq<
    (SuspensionId, u64, Seq<char>),
> {
    Seq::new(cs.len(), |i: int| (cs[i].0, cs[i].1, cs[i].2@))
}

/// The calls among the suspensions, in order.
pub fn outstanding_calls(pending: &Vec<Pending>) -> (out: Vec<(SuspensionId, u64, String)>)
    ensures
        calls_view(out@) == calls_among(pendings_view(pending@)),
{
    let ghost all = pendings_view(pending@);
    let mut out: Vec<(SuspensionId, u64, String)> = Vec::new();
    assert(calls_view(out@) =~= calls_among(all.take(0)));
    for i in 0..pending.len()
        invariant
            all == pendings_view(pending@),
            calls_view(out@) == calls_among(all.take(i as int)),
    {
        let p = &pending[i];
        let ghost before = calls_view(out@);
        proof {
            assert(all[i as int] == p@);
            assert(all.take(i + 1).drop_last() =~= all.take(i as int));
            assert(all.take(i + 1).last() == p@);
        }
        if let SuspendReason::Call { spec } = &p.reason {
            out.push((p.id, p.at.node.0, spec.label.clone()));
            assert(calls_view(out@) =~= before.push((p@.id, p@.at.node.0, spec@.label)));
        }
    }
    assert(all.take(all.len() as int) =~= all);
    out
}

/// The number that decimal digits denote.
pub open spec fn digits_value(cs: Seq<char>) -> int
    decreases cs.len(),
{
    if cs.len() == 0 {
        0
    } else {
        digits_value(cs.drop_last()) * 10 + (cs.last() as int - '0' as int)
    }
}

/// The number that digits denote, if there are digits and nothing else.
pub open spec fn unsigned_in(cs: Seq<char>) -> Option<int> {
    if cs.len() > 0 && (forall|i: int| 0 <= i < cs.len() ==> '0' <= #[trigger] cs[i] && cs[i] <= '9') {
        Some(digits_value(cs))
    } else {
        None
    }
}

/// The number that a text denotes: digits, perhaps behind a sign.
pub open spec fn integer_in(cs: Seq<char>) -> Option<int> {
    if cs.len() > 0 && cs[0] == '-' {
        match unsigned_in(cs.skip(1)) {
            Some(n) => Some(-n),
            None => None,
        }
    } else if cs.len() > 0 && cs[0] == '+' {
        unsigned_in(cs.skip(1))
    } else {
        unsigned_in(cs)
    }
}

/// The number that a text denotes, if it is one of 64 bits.
pub open spec fn long_in(cs: Seq<char>) -> Option<i64> {
    match integer_in(cs) {
        Some(n) => if i64::MIN <= n && n <= i64::MAX {
            Some(n as i64)
        } else {
            None
        },
        None => None,
    }
}

/// What the error of `i64::from_str` is shown as for a text that denotes no
/// number of 64 bits.
pub uninterp spec fn integer_error(text: Seq<char>) -> Seq<char>;

/// `i64::from_str`: the number that a text denotes (digits, perhaps behind a
/// sign, and nothing else), or the error as it is shown. It depends on the
/// text alone. How the error reads is left unsaid.
#[verifier::external_body]
fn parse_integer(text: &str) -> (out: Result<i64, String>)
    ensures
        match out {
            Ok(n) => long_in(text@) == Some(n),
            Err(e) => long_in(text@) is None && e@ == integer_error(text@),
        },
{
    text.parse::<i64>().map_err(|e| e.to_string())
}

/// What is said of a text that is no integer.
pub open spec fn not_an_integer(text: Seq<char>, e: Seq<char>) -> Seq<char> {
    "invalid integer literal "@ + quoted(text) + ": "@ + e
}

/// The answer that a text stands for, given what parsing its trimmed form
/// gave.
pub fn answer_from(text: &str, parsed: Result<i64, String>) -> (out: Result<i64, String>)
    ensures
        match parsed {
            Ok(n) => out == Ok::<i64, String>(n),
            Err(e) => out matches Err(said) && said@ == not_an_integer(text@, e@),
        },
{
    match parsed {
        Ok(n) => Ok(n),
        Err(e) => {
            let mut said = "invalid integer literal ".to_owned();
            said.append(quote(text).as_str());
            said.append(": ");
            said.append(e.as_str());
            Err(said)
        },
    }
}

/// The answer that a host gives for a variable, which has no default.
pub fn answer_value(result: Option<&str>) -> (out: Result<i64, String>)
    ensures
        match result {
            None => out matches Err(said) && said@
                == "resolve requires `result` as an integer literal (no default provided)"@,
            Some(text) => match long_in(trim(text@)) {
                Some(n) => out == Ok::<i64, String>(n),
                None => out matches Err(said) && said@ == not_an_integer(
                    text@,
                    integer_error(trim(text@)),
                ),
            },
        },
{
    match result {
        None => Err(
            "resolve requires `result` as an integer literal (no default provided)".to_owned(),
        ),
        Some(text) => {
            let cs = trimmed(text);
            let core = slice_text(&cs, 0, cs.len());
            assert(core@ =~= trim(text@));
            answer_from(text, parse_integer(core.as_str()))
        },
    }
}

/// The rows with one more among them, after those of no larger number.
pub open spec fn row_placed(rows: Seq<(u64, Seq<char>)>, row: (u64, Seq<char>)) -> Seq<
    (u64, Seq<char>),
>
    decreases rows.len(),
{
    if rows.len() == 0 || rows.last().0 <= row.0 {
        rows.push(row)
    } else {
        row_placed(rows.drop_last(), row).push(rows.last())
    }
}

/// The rows in the order of their numbers; rows of one number keep theirs.
pub open spec fn rows_in_order(rows: Seq<(u64, Seq<char>)>) -> Seq<(u64, Seq<char>)>
    decreases rows.len(),
{
    if rows.len() == 0 {
        rows
    } else {
        row_placed(rows_in_order(rows.drop_last()), rows.last())
    }
}

proof fn lemma_placed(rows: Seq<(u64, Seq<char>)>, row: (u64, Seq<char>))
    requires
        forall|i: int, j: int| 0 <= i < j < rows.len() ==> rows[i].0 <= rows[j].0,
    ensures
        forall|i: int, j: int|
            0 <= i < j < row_placed(rows, row).len() ==> row_placed(rows, row)[i].0 <= row_placed(
                rows,
                row,
            )[j].0,
        row_placed(rows, row).len() == rows.len() + 1,
        row_placed(rows, row).to_multiset() == rows.to_multiset().insert(row),
        forall|i: int|
            0 <= i <= rows.len() ==> (#[trigger] row_placed(rows, row)[i]).0 == row.0 || (rows.len()
                > 0 && row_placed(rows, row)[i].0 <= rows.last().0),
    decreases rows.len(),
{
    rows.to_multiset_ensures();
    if rows.len() == 0 || rows.last().0 <= row.0 {
        let all = rows.push(row);
        assert(all.to_multiset() == rows.to_multiset().insert(row));
    } else {
        let front = rows.drop_last();
        lemma_placed(front, row);
        let placed = row_placed(front, row);
        placed.to_multiset_ensures();
        front.to_multiset_ensures();
        assert(front.push(rows.last()) =~= rows);
        assert(rows.to_multiset() == front.to_multiset().insert(rows.last()));
        assert(placed.push(rows.last()).to_multiset() =~= rows.to_multiset().insert(row));
    }
}

/// Ordering rows keeps them all and leaves no larger number before a smaller
/// one.
pub proof fn law_rows_are_ordered(rows: Seq<(u64, Seq<char>)>)
    ensures
        forall|i: int, j: int|
            0 <= i < j < rows_in_order(rows).len() ==> rows_in_order(rows)[i].0 <= rows_in_order(
                rows,
            )[j].0,
        rows_in_order(rows).to_multiset() == rows.to_multiset(),
    decreases rows.len(),
{
    if rows.len() > 0 {
        law_rows_are_ordered(rows.drop_last());
        lemma_placed(rows_in_order(rows.drop_last()), rows.last());
        rows.drop_last().to_multiset_ensures();
        assert(rows.drop_last().push(rows.last()) =~= rows);
    }
}

fn place_row(rows: &mut Vec<(u64, String)>, row: (u64, String))
    ensures
        log_view(final(rows)@) == row_placed(log_view(old(rows)@), (row.0, row.1@)),
{
    let ghost before = log_view(rows@);
    let ghost new = (row.0, row.1@);
    let mut at: usize = rows.len();
    assert(before.take(at as int) =~= before);
    assert(row_placed(before, new) =~= row_placed(before.take(at as int), new) + before.skip(
        at as int,
    ));
    while at > 0 && rows[at - 1].0 > row.0
        invariant
            at <= rows.len(),
            before == log_view(rows@),
            new == (row.0, row.1@),
            row_placed(before, new) == row_placed(before.take(at as int), new) + before.skip(
                at as int,
            ),
        decreases at,
    {
        proof {
            let front = before.take(at as int);
            assert(front.drop_last() =~= before.take(at - 1));
            assert(front.last() == before[at - 1]);
            assert(before.skip(at - 1) =~= seq![before[at - 1]] + before.skip(at as int));
            assert(row_placed(front, new) + before.skip(at as int) =~= row_placed(
                before.take(at - 1),
                new,
            ) + before.skip(at - 1));
        }
        at -= 1;
    }
    proof {
        if at > 0 {
            assert(before.take(at as int).last() == before[at - 1]);
        }
    }
    rows.insert(at, row);
    assert(log_view(rows@) =~= before.take(at as int).push(new) + before.skip(at as int));
}

/// Runs programs of the language.
#[derive(Debug)]
pub struct RefHost {
    program: Ref,
    resolved_log: Vec<(u64, String)>,
    final_value: Option<i64>,
}

/// The mathematical shape of a [`RefHost`].
pub struct SpecHost {
    pub program: Ref,
    pub resolved_log: Seq<(u64, Seq<char>)>,
    pub final_value: Option<i64>,
}

impl View for RefHost {
    type V = SpecHost;

    closed spec fn view(&self) -> SpecHost {
        SpecHost {
            program: self.program,
            resolved_log: log_view(self.resolved_log@),
            final_value: self.final_value,
        }
    }
}

/// A host that has run nothing yet.
pub open spec fn fresh_host(program: Ref) -> SpecHost {
    SpecHost { program, resolved_log: Seq::empty(), final_value: None }
}

/// How many answers one run gives before it has given too many.
pub const ANSWER_LIMIT: usize = 4096;

/// Whether a run would give more answers than it may.
pub open spec fn runs_over(h: SpecHost) -> bool {
    h.final_value is None && answered(h.program, Seq::empty()).len() > h.resolved_log.len()
        + ANSWER_LIMIT
}

/// A host after its program ran: to the end, or to the answer that was one
/// too many.
pub open spec fn run_host(h: SpecHost) -> SpecHost {
    let all = answered(h.program, Seq::empty());
    if h.final_value is Some {
        h
    } else if runs_over(h) {
        SpecHost { resolved_log: all.take(h.resolved_log.len() + ANSWER_LIMIT + 1), ..h }
    } else {
        SpecHost {
            resolved_log: all,
            final_value: Some(meaning(h.program, Seq::empty())),
            ..h
        }
    }
}

/// What a host has to show: the answers given, and the value of the program
/// under its root, in the order of the nodes.
pub open spec fn host_results(h: SpecHost) -> Seq<(u64, Seq<char>)> {
    match h.final_value {
        Some(v) => rows_in_order(
            h.resolved_log.push((ref_id(h.program).0, integer_text(v as int))),
        ),
        None => rows_in_order(h.resolved_log),
    }
}

impl RefHost {
    /// A host of the demonstration program.
    pub fn new_with_default_program() -> (out: Self)
        ensures
            is_demo(out@.program, 0),
            out@ == fresh_host(out@.program),
    {
        let mut ids = IdGen::new();
        RefHost::with_program(demo_program(&mut ids))
    }

    /// A host of `program`.
    pub fn with_program(program: Ref) -> (out: Self)
        ensures
            out@ == fresh_host(program),
    {
        let out = RefHost { program, resolved_log: Vec::new(), final_value: None };
        assert(out@.resolved_log =~= Seq::empty());
        out
    }

    /// The name of the language.
    pub fn dsl_name(&self) -> (out: &'static str)
        ensures
            out@ == "ref"@,
    {
        "ref"
    }

    /// The identity of the program's root.
    pub fn root_node_id(&self) -> (out: u64)
        ensures
            out == ref_id(self@.program).0,
    {
        self.program.node_id().0
    }

    /// The one-line summary of the program's root.
    pub fn root_summary(&self) -> (out: String)
        ensures
            out@ == ref_summary(self@.program),
    {
        self.program.summary()
    }

    /// How many nodes the program has.
    pub fn ast_size(&self) -> (out: usize)
        ensures
            out == ref_size(self@.program),
    {
        count_nodes(&self.program)
    }

    /// The program as an indented listing.
    pub fn ast_pretty(&self) -> (out: String)
        ensures
            out@ == ref_listing(
                levels(self@.program, 0),
                levels(self@.program, 0).len(),
            ),
    {
        pretty(&self.program)
    }

    /// Runs the program to the end, answering for unbound variables. A
    /// program that ran already is left alone. After more than
    /// [`ANSWER_LIMIT`] answers the run is given up; the next one goes on from
    /// there.
    pub fn step_to_done(&mut self) -> (out: Result<HostOutcome, String>)
        ensures
            final(self)@ == run_host(old(self)@),
            match out {
                Ok(o) => o is Done && !runs_over(old(self)@),
                Err(said) => runs_over(old(self)@) && said@
                    == "dsl-kit-cli reference host exceeded to_done safety limit"@,
            },
    {
        if self.final_value.is_some() {
            return Ok(HostOutcome::Done);
        }
        let ghost all = answered(self.program, Seq::empty());
        let mut chain: Vec<Binding> = Vec::new();
        let mut log: Vec<(u64, String)> = Vec::new();
        let value = evaluate(&self.program, &mut chain, &mut log);
        assert(log_view(log@) =~= all);
        assert(log_view(log@).len() == log@.len());
        let given: usize = self.resolved_log.len();
        assert(self@.resolved_log.len() == given);
        if log.len() > given && log.len() - given > ANSWER_LIMIT {
            let kept: usize = given + ANSWER_LIMIT + 1;
            log.truncate(kept);
            assert(log_view(log@) =~= all.take(kept as int));
            self.resolved_log = log;
            return Err("dsl-kit-cli reference host exceeded to_done safety limit".to_owned());
        }
        self.resolved_log = log;
        self.final_value = Some(value);
        Ok(HostOutcome::Done)
    }

    /// The answers given, and the value of the program once it ran, in the
    /// order of the nodes.
    pub fn results(&self) -> (out: Vec<(u64, String)>)
        ensures
            log_view(out@) == host_results(self@),
    {
        let ghost all = self@.resolved_log;
        let mut out: Vec<(u64, String)> = Vec::new();
        assert(log_view(out@) =~= rows_in_order(all.take(0)));
        for i in 0..self.resolved_log.len()
            invariant
                all == log_view(self.resolved_log@),
                log_view(out@) == rows_in_order(all.take(i as int)),
        {
            proof {
                assert(all.take(i + 1).drop_last() =~= all.take(i as int));
                assert(all.take(i + 1).last() == all[i as int]);
            }
            place_row(&mut out, (self.resolved_log[i].0, self.resolved_log[i].1.clone()));
        }
        assert(all.take(all.len() as int) =~= all);
        if let Some(value) = self.final_value {
            let mut text = String::new();
            push_integer(&mut text, value);
            assert(text@ =~= integer_text(value as int));
            let ghost row = (ref_id(self@.program).0, integer_text(value as int));
            assert(all.push(row).drop_last() =~= all);
            place_row(&mut out, (self.program.node_id().0, text));
        }
        out
    }

    /// The shape of the language.
    pub fn schema(&self) -> (out: NodeSchema)
        ensures
            out@ == ref_schema(),
    {
        Ref::schema()
    }

    /// What the default lint rules find in the program.
    pub fn lint(&self) -> (out: Vec<Diagnostic>)
        ensures
            lints_view(out@) == default_findings(self@.program),
    {
        let linter: Linter<Ref> = Linter::with_defaults();
        let out = linter.lint(&self.program);
        proof {
            law_default_rules_have_one_answer(linter, self.program, lints_view(out@));
        }
        out
    }

    /// Starts the program over.
    pub fn reset(&mut self)
        ensures
            final(self)@ == fresh_host(old(self)@.program),
    {
        self.resolved_log.clear();
        self.final_value = None;
        assert(self@.resolved_log =~= Seq::empty());
    }

    /// Puts another program in place and starts it over.
    pub fn load(&mut self, program: Ref)
        ensures
            final(self)@ == fresh_host(program),
    {
        self.program = program;
        self.reset();
    }
}

} // verus!
