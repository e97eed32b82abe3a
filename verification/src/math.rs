//! Names for the mathematical types that occur in the traits of this crate,
//! for implementations in ordinary Rust. Values of these types exist in
//! contracts only; the methods that mention them are never called at run
//! time.
use vstd::prelude::*;

verus! {

/// A mathematical sequence.
pub type Sequence<T> = Seq<T>;

/// A natural number of any size.
pub type Natural = nat;

/// An integer of any size.
pub type Integer = int;

} // verus!
