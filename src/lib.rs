//! A boolean array for sieve marking: every slot starts alive (`true`) and may only
//! ever be marked dead (`false`). The array's length never changes after construction.
//!
//! Every marking operation is specified over the array's view, a `Seq<bool>`, and
//! every one of them leaves a slot that was `false` still `false`.
pub mod laws;
pub mod sieve;

pub use sieve::{SieveError, SieveVecBool};
