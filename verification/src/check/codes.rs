//! Stable slugs that diagnostics are reported under.
//!
//! A message template names the slug it reports under, so these are the
//! vocabulary a DSL author picks from. The `program::` slugs are the
//! exception: they are about a program rather than a document, and the
//! self-validation assigns them.
use vstd::prelude::*;

verus! {

/// The sequence reached a node in a state its rule does not accept.
pub const CHECK_STATE_MISMATCH: &'static str = "dsl_kit::check::state_mismatch";

/// A child's type is not the one the rule requires, or two positions that
/// must agree do not.
pub const CHECK_TYPE_MISMATCH: &'static str = "dsl_kit::check::type_mismatch";

/// A rule referred to a handle that nothing in scope produced.
pub const CHECK_UNBOUND_HANDLE: &'static str = "dsl_kit::check::unbound_handle";

/// A required capability was not available at this point in the document.
pub const CHECK_CAP_MISSING: &'static str = "dsl_kit::check::cap_missing";

/// A premise failed without a more specific slug.
pub const CHECK_PREMISE_FAILED: &'static str = "dsl_kit::check::premise_failed";

/// A rule requires a state that nothing in the program can reach.
pub const CHECK_PROGRAM_UNDEFINED_STATE: &'static str = "dsl_kit::check::program::undefined_state";

/// A predicate is produced that no premise ever requires.
pub const CHECK_PROGRAM_UNUSED_PRED: &'static str = "dsl_kit::check::program::unused_pred";

/// An earlier rule for the same variant always wins over this one.
pub const CHECK_PROGRAM_UNREACHABLE_RULE: &'static str =
    "dsl_kit::check::program::unreachable_rule";

} // verus!
