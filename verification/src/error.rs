//! Failures of the engine and of evaluators.
use vstd::prelude::*;
use vstd::string::*;

use crate::context::{context_text, NodeContext, SpecContext};
use crate::ids::{tagged, SuspensionId};
use crate::join::{OpId, ReducerId};

pub mod laws;

verus! {

/// Structured error of the engine and of evaluators.
#[allow(inconsistent_fields)]
#[derive(Debug)]
pub enum EngineError {
    /// The evaluator explicitly aborted the current step.
    Aborted {
        /// Where the abort happened.
        at: NodeContext,
        /// Why the evaluator aborted.
        reason: String,
    },
    /// A node's semantics returned an error.
    EvalFailed {
        /// Where the failure happened.
        at: NodeContext,
        /// Text of the underlying error.
        source: String,
    },
    /// A node was expected to have a specific shape but did not.
    Malformed {
        /// Where the invariant violation was detected.
        at: NodeContext,
        /// The invariant that failed.
        detail: String,
    },
    /// The suspend and resume contract was broken.
    StepperProtocol {
        /// Where the protocol violation was detected.
        at: NodeContext,
        /// The misuse.
        detail: String,
    },
    /// A suspension that was never created, is already resolved, or belongs
    /// to a cancelled leg.
    UnknownSuspension {
        /// The unknown suspension id.
        id: SuspensionId,
    },
    /// A fan-out named a reducer that is not registered.
    UnknownReducer {
        /// The unknown reducer id.
        id: ReducerId,
    },
    /// A node named an operator that is not registered.
    UnknownOp {
        /// The unknown operator id.
        id: OpId,
    },
}

/// Result alias for engine and evaluator operations.
pub type EngineResult<T> = Result<T, EngineError>;

/// The mathematical shape of an [`EngineError`].
#[allow(inconsistent_fields)]
pub enum SpecEngineError {
    Aborted { at: SpecContext, reason: Seq<char> },
    EvalFailed { at: SpecContext, source: Seq<char> },
    Malformed { at: SpecContext, detail: Seq<char> },
    StepperProtocol { at: SpecContext, detail: Seq<char> },
    UnknownSuspension { id: SuspensionId },
    UnknownReducer { id: Seq<char> },
    UnknownOp { id: Seq<char> },
}

impl View for EngineError {
    type V = SpecEngineError;

    open spec fn view(&self) -> SpecEngineError {
        match self {
            EngineError::Aborted { at, reason } => SpecEngineError::Aborted {
                at: at@,
                reason: reason@,
            },
            EngineError::EvalFailed { at, source } => SpecEngineError::EvalFailed {
                at: at@,
                source: source@,
            },
            EngineError::Malformed { at, detail } => SpecEngineError::Malformed {
                at: at@,
                detail: detail@,
            },
            EngineError::StepperProtocol { at, detail } => SpecEngineError::StepperProtocol {
                at: at@,
                detail: detail@,
            },
            EngineError::UnknownSuspension { id } => SpecEngineError::UnknownSuspension {
                id: *id,
            },
            EngineError::UnknownReducer { id } => SpecEngineError::UnknownReducer { id: id@ },
            EngineError::UnknownOp { id } => SpecEngineError::UnknownOp { id: id@ },
        }
    }
}

/// A text in quotation marks, with its special characters escaped.
pub uninterp spec fn quoted(text: Seq<char>) -> Seq<char>;

/// The `{:?}` notation of a `str`: the text in quotation marks, escaped. It
/// depends on the text alone.
#[verifier::external_body]
pub(crate) fn quote(text: &str) -> (out: String)
    ensures
        out@ == quoted(text@),
{
    format!("{:?}", text)
}

/// The stable code of an error.
pub open spec fn error_code(e: SpecEngineError) -> Seq<char> {
    match e {
        SpecEngineError::Aborted { .. } => "dsl_kit::eval::aborted"@,
        SpecEngineError::EvalFailed { .. } => "dsl_kit::eval::failed"@,
        SpecEngineError::Malformed { .. } => "dsl_kit::ast::malformed"@,
        SpecEngineError::StepperProtocol { .. } => "dsl_kit::stepper::protocol"@,
        SpecEngineError::UnknownSuspension { .. } => "dsl_kit::stepper::unknown_suspension"@,
        SpecEngineError::UnknownReducer { .. } => "dsl_kit::reducer::unknown"@,
        SpecEngineError::UnknownOp { .. } => "dsl_kit::op::unknown"@,
    }
}

/// The advice that goes with an error.
pub open spec fn error_help(e: SpecEngineError) -> Seq<char> {
    match e {
        SpecEngineError::Aborted { .. } => "The interpreter returned an `Aborted` outcome. Inspect the reason and the node context to locate the abort site."@,
        SpecEngineError::EvalFailed { .. } => "The interpreter returned an error while evaluating this node. The `#[source]` chain points at the underlying failure."@,
        SpecEngineError::Malformed { .. } => "An AST invariant was violated. This usually means a hand-constructed tree omitted a required child."@,
        SpecEngineError::StepperProtocol { .. } => "The stepper's suspend/resume contract was broken. Each `PendingEffect` leaf must be resolved exactly once before further steps observe its value."@,
        SpecEngineError::UnknownSuspension { .. } => "The host called resolve() with a SuspensionId the engine does not know. This is the expected outcome for a late response arriving after the effect's branch was cancelled."@,
        SpecEngineError::UnknownReducer { .. } => "The ParFrame's reducer_id was not found in the ReducerRegistry. Register the reducer at Stepper build time or fix the AST to reference a known id."@,
        SpecEngineError::UnknownOp { .. } => "The Apply node's op_id was not found in the OpRegistry. Register the op at Stepper build time (Engine::new_with_ops) or fix the AST to reference a known id."@,
    }
}

/// The text an error is shown as.
pub open spec fn error_text(e: SpecEngineError) -> Seq<char> {
    match e {
        SpecEngineError::Aborted { at, reason } => "evaluation aborted at "@ + context_text(at)
            + ": "@ + reason,
        SpecEngineError::EvalFailed { at, source } => "evaluator failed at "@ + context_text(at),
        SpecEngineError::Malformed { at, detail } => "malformed AST at "@ + context_text(at) + ": "@
            + detail,
        SpecEngineError::StepperProtocol { at, detail } => "stepper protocol violation at "@
            + context_text(at) + ": "@ + detail,
        SpecEngineError::UnknownSuspension { id } => "unknown suspension "@ + tagged("s"@, id.0),
        SpecEngineError::UnknownReducer { id } => "unknown reducer ReducerId("@ + quoted(id) + ")"@,
        SpecEngineError::UnknownOp { id } => "unknown op OpId("@ + quoted(id) + ")"@,
    }
}

fn located(lead: &str, at: &NodeContext, tail: &str) -> (out: String)
    ensures
        out@ == lead@ + context_text(at@) + ": "@ + tail@,
{
    let mut out = lead.to_owned();
    out.append(at.to_text().as_str());
    out.append(": ");
    out.append(tail);
    out
}

impl EngineError {
    /// Stable machine-readable code.
    pub fn code(&self) -> (out: &'static str)
        ensures
            out@ == error_code(self@),
    {
        match self {
            EngineError::Aborted { .. } => "dsl_kit::eval::aborted",
            EngineError::EvalFailed { .. } => "dsl_kit::eval::failed",
            EngineError::Malformed { .. } => "dsl_kit::ast::malformed",
            EngineError::StepperProtocol { .. } => "dsl_kit::stepper::protocol",
            EngineError::UnknownSuspension { .. } => "dsl_kit::stepper::unknown_suspension",
            EngineError::UnknownReducer { .. } => "dsl_kit::reducer::unknown",
            EngineError::UnknownOp { .. } => "dsl_kit::op::unknown",
        }
    }

    /// How to react to the error.
    pub fn help(&self) -> (out: &'static str)
        ensures
            out@ == error_help(self@),
    {
        match self {
            EngineError::Aborted { .. } => "The interpreter returned an `Aborted` outcome. Inspect the reason and the node context to locate the abort site.",
            EngineError::EvalFailed { .. } => "The interpreter returned an error while evaluating this node. The `#[source]` chain points at the underlying failure.",
            EngineError::Malformed { .. } => "An AST invariant was violated. This usually means a hand-constructed tree omitted a required child.",
            EngineError::StepperProtocol { .. } => "The stepper's suspend/resume contract was broken. Each `PendingEffect` leaf must be resolved exactly once before further steps observe its value.",
            EngineError::UnknownSuspension { .. } => "The host called resolve() with a SuspensionId the engine does not know. This is the expected outcome for a late response arriving after the effect's branch was cancelled.",
            EngineError::UnknownReducer { .. } => "The ParFrame's reducer_id was not found in the ReducerRegistry. Register the reducer at Stepper build time or fix the AST to reference a known id.",
            EngineError::UnknownOp { .. } => "The Apply node's op_id was not found in the OpRegistry. Register the op at Stepper build time (Engine::new_with_ops) or fix the AST to reference a known id.",
        }
    }

    /// The text the error is shown as.
    pub fn to_text(&self) -> (out: String)
        ensures
            out@ == error_text(self@),
    {
        match self {
            EngineError::Aborted { at, reason } => located(
                "evaluation aborted at ",
                at,
                reason.as_str(),
            ),
            EngineError::EvalFailed { at, source: _ } => {
                let mut out = "evaluator failed at ".to_owned();
                out.append(at.to_text().as_str());
                out
            },
            EngineError::Malformed { at, detail } => located(
                "malformed AST at ",
                at,
                detail.as_str(),
            ),
            EngineError::StepperProtocol { at, detail } => located(
                "stepper protocol violation at ",
                at,
                detail.as_str(),
            ),
            EngineError::UnknownSuspension { id } => {
                let mut out = "unknown suspension ".to_owned();
                out.append(id.to_text().as_str());
                out
            },
            EngineError::UnknownReducer { id } => {
                let mut out = "unknown reducer ReducerId(".to_owned();
                out.append(quote(id.0.as_str()).as_str());
                out.append(")");
                out
            },
            EngineError::UnknownOp { id } => {
                let mut out = "unknown op OpId(".to_owned();
                out.append(quote(id.0.as_str()).as_str());
                out.append(")");
                out
            },
        }
    }
}

/// One entry of the error catalogue.
#[derive(Debug, PartialEq, Eq)]
pub struct ErrorCatalogEntry {
    /// Stable code.
    pub code: String,
    /// How to react to the error.
    pub help: String,
}

/// The mathematical shape of an [`ErrorCatalogEntry`].
pub struct SpecCatalogEntry {
    pub code: Seq<char>,
    pub help: Seq<char>,
}

impl View for ErrorCatalogEntry {
    type V = SpecCatalogEntry;

    open spec fn view(&self) -> SpecCatalogEntry {
        SpecCatalogEntry { code: self.code@, help: self.help@ }
    }
}

impl Clone for ErrorCatalogEntry {
    fn clone(&self) -> (out: Self)
        ensures
            out@ == self@,
    {
        ErrorCatalogEntry { code: self.code.clone(), help: self.help.clone() }
    }
}

/// The catalogue entry of an error.
pub open spec fn catalog_entry(e: SpecEngineError) -> SpecCatalogEntry {
    SpecCatalogEntry { code: error_code(e), help: error_help(e) }
}

/// The position of an error's kind in the catalogue.
pub open spec fn catalog_position(e: SpecEngineError) -> int {
    match e {
        SpecEngineError::Aborted { .. } => 0,
        SpecEngineError::EvalFailed { .. } => 1,
        SpecEngineError::Malformed { .. } => 2,
        SpecEngineError::StepperProtocol { .. } => 3,
        SpecEngineError::UnknownSuspension { .. } => 4,
        SpecEngineError::UnknownReducer { .. } => 5,
        SpecEngineError::UnknownOp { .. } => 6,
    }
}

/// The built-in error catalogue, one entry for each kind of error.
pub fn engine_error_catalog() -> (out: Vec<ErrorCatalogEntry>)
    ensures
        out@.len() == 7,
        forall|e: SpecEngineError|
            (#[trigger] catalog_entry(e)) == out@[catalog_position(e)]@,
{
    let at = NodeContext::at(crate::ids::NodeId(0), crate::ids::Path::root());
    let mut samples: Vec<EngineError> = Vec::new();
    samples.push(EngineError::Aborted { at: at.clone(), reason: String::new() });
    samples.push(EngineError::EvalFailed { at: at.clone(), source: String::new() });
    samples.push(EngineError::Malformed { at: at.clone(), detail: String::new() });
    samples.push(EngineError::StepperProtocol { at, detail: String::new() });
    samples.push(EngineError::UnknownSuspension { id: SuspensionId(0) });
    samples.push(EngineError::UnknownReducer { id: ReducerId(String::new()) });
    samples.push(EngineError::UnknownOp { id: OpId(String::new()) });
    let mut out: Vec<ErrorCatalogEntry> = Vec::new();
    for i in 0..samples.len()
        invariant
            out@.len() == i,
            forall|j: int| 0 <= j < i ==> (#[trigger] out@[j])@ == catalog_entry(samples@[j]@),
    {
        out.push(
            ErrorCatalogEntry {
                code: samples[i].code().to_owned(),
                help: samples[i].help().to_owned(),
            },
        );
    }
    assert forall|e: SpecEngineError| (#[trigger] catalog_entry(e)) == out@[catalog_position(e)]@ by {
        let k = catalog_position(e);
        assert(out@[k]@ == catalog_entry(samples@[k]@));
    }
    out
}

} // verus!
