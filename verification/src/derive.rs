//! Planning the implementations derived for an enum of nodes.
//!
//! One input shape serves every plan: an enum whose variants use named
//! fields. A plan says what the derived implementation does with each
//! variant and field; turning plans into tokens is left to the caller.
pub mod check;
pub mod clauses;
pub mod construct;
pub mod decl;
pub mod dump;
pub mod exec;
pub mod fact;
pub mod judgements;
pub mod laws;
pub mod meta;
pub mod node;
pub mod notation;
pub mod order;
pub mod routes;
pub mod schema;
pub mod shape;
pub mod shorthands;
pub mod spelling;
