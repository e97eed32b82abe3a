//! How errors are told apart.
use vstd::prelude::*;

use crate::context::{context_text, SpecContext};
use crate::error::{catalog_position, error_code, error_text, SpecEngineError};
use crate::ids::{path_text, tagged};
use crate::text::decimal;

verus! {

/// Whether two errors are of one kind.
pub open spec fn same_kind(a: SpecEngineError, b: SpecEngineError) -> bool {
    ||| a is Aborted && b is Aborted
    ||| a is EvalFailed && b is EvalFailed
    ||| a is Malformed && b is Malformed
    ||| a is StepperProtocol && b is StepperProtocol
    ||| a is UnknownSuspension && b is UnknownSuspension
    ||| a is UnknownReducer && b is UnknownReducer
    ||| a is UnknownOp && b is UnknownOp
}

/// Errors have the same code, and the same place in the catalogue, exactly
/// where they are of one kind.
pub proof fn law_codes_tell_errors_apart(a: SpecEngineError, b: SpecEngineError)
    ensures
        error_code(a) == error_code(b) <==> same_kind(a, b),
        catalog_position(a) == catalog_position(b) <==> same_kind(a, b),
        0 <= catalog_position(a) < 7,
{
    reveal_strlit("dsl_kit::eval::aborted");
    reveal_strlit("dsl_kit::eval::failed");
    reveal_strlit("dsl_kit::ast::malformed");
    reveal_strlit("dsl_kit::stepper::protocol");
    reveal_strlit("dsl_kit::stepper::unknown_suspension");
    reveal_strlit("dsl_kit::reducer::unknown");
    reveal_strlit("dsl_kit::op::unknown");
    assert("dsl_kit::eval::aborted"@.len() == 22);
    assert("dsl_kit::eval::failed"@.len() == 21);
    assert("dsl_kit::ast::malformed"@.len() == 23);
    assert("dsl_kit::stepper::protocol"@.len() == 26);
    assert("dsl_kit::stepper::unknown_suspension"@.len() == 36);
    assert("dsl_kit::reducer::unknown"@.len() == 25);
    assert("dsl_kit::op::unknown"@.len() == 20);
}

/// The text of a context starts with its node and ends with its path; what
/// lies between says the frame and the iteration, if there are any.
pub proof fn law_a_context_names_its_node_and_path(ctx: SpecContext)
    ensures
        context_text(ctx).take(tagged("n"@, ctx.node.0).len() as int) == tagged("n"@, ctx.node.0),
        exists|front: Seq<char>| context_text(ctx) == #[trigger] (front + path_text(ctx.path)),
        ctx.frame is None && ctx.iteration is None ==> context_text(ctx) == tagged(
            "n"@,
            ctx.node.0,
        ) + " at "@ + path_text(ctx.path),
        ctx.iteration matches Some(i) ==> ctx.frame is None ==> context_text(ctx) == tagged(
            "n"@,
            ctx.node.0,
        ) + " iter "@ + decimal(i.0 as nat) + " at "@ + path_text(ctx.path),
        ctx.frame matches Some(f) ==> ctx.iteration is None ==> context_text(ctx) == tagged(
            "n"@,
            ctx.node.0,
        ) + " (frame "@ + tagged("f"@, f.0) + ", depth "@ + decimal(ctx.depth as nat) + ")"@
            + " at "@ + path_text(ctx.path),
{
    let frame = match ctx.frame {
        Some(f) => " (frame "@ + tagged("f"@, f.0) + ", depth "@ + decimal(ctx.depth as nat)
            + ")"@,
        None => Seq::empty(),
    };
    let iteration = match ctx.iteration {
        Some(it) => " iter "@ + decimal(it.0 as nat),
        None => Seq::empty(),
    };
    let n = tagged("n"@, ctx.node.0);
    let front = n + frame + iteration + " at "@;
    let text = context_text(ctx);
    assert(text == front + path_text(ctx.path));
    assert(text.take(n.len() as int) =~= n);
    if ctx.frame is None && ctx.iteration is None {
        assert(text =~= n + " at "@ + path_text(ctx.path));
    }
    if ctx.frame is None && ctx.iteration is Some {
        let i = ctx.iteration->Some_0;
        assert(text =~= n + " iter "@ + decimal(i.0 as nat) + " at "@ + path_text(ctx.path));
    }
    if ctx.iteration is None && ctx.frame is Some {
        let f = ctx.frame->Some_0;
        assert(text =~= n + " (frame "@ + tagged("f"@, f.0) + ", depth "@ + decimal(
            ctx.depth as nat,
        ) + ")"@ + " at "@ + path_text(ctx.path));
    }
}

/// An error that has a place says where it is.
pub proof fn law_errors_say_where_they_are(e: SpecEngineError)
    ensures
        e matches SpecEngineError::Aborted { at, reason } ==> exists|front: Seq<char>|
            error_text(e) == #[trigger] (front + context_text(at)) + ": "@ + reason,
        e matches SpecEngineError::EvalFailed { at, source } ==> exists|front: Seq<char>|
            error_text(e) == #[trigger] (front + context_text(at)),
        e matches SpecEngineError::Malformed { at, detail } ==> exists|front: Seq<char>|
            error_text(e) == #[trigger] (front + context_text(at)) + ": "@ + detail,
        e matches SpecEngineError::StepperProtocol { at, detail } ==> exists|front: Seq<char>|
            error_text(e) == #[trigger] (front + context_text(at)) + ": "@ + detail,
{
    match e {
        SpecEngineError::Aborted { at, reason } => {
            assert(error_text(e) == ("evaluation aborted at "@ + context_text(at)) + ": "@
                + reason);
        },
        SpecEngineError::EvalFailed { at, source } => {
            assert(error_text(e) == "evaluator failed at "@ + context_text(at));
        },
        SpecEngineError::Malformed { at, detail } => {
            assert(error_text(e) == ("malformed AST at "@ + context_text(at)) + ": "@ + detail);
        },
        SpecEngineError::StepperProtocol { at, detail } => {
            assert(error_text(e) == ("stepper protocol violation at "@ + context_text(at)) + ": "@
                + detail);
        },
        _ => {},
    }
}

} // verus!
