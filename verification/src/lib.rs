//! Dynamic abstract-type inference engine.
//!
//! While a host program executes, instrumentation reports which runtime
//! values are bound to which variables and which values have interacted
//! (flowed together into one operation). From those events the engine
//! infers, for each program location, which variables share an abstract
//! type: two variables have the same abstract type at a site if the values
//! ever bound to them have, directly or transitively, interacted.
//!
//! The engine is built from a global monotonic partition over value
//! identities ([`union_find::UnionFind`]), a per-location accumulator that
//! derives a secondary partition over type classes ([`site::Site`]), a
//! checkout/checkin registry of those accumulators ([`site::Sites`]), and
//! a facade that instrumentation calls ([`ati::ATI`]).

pub mod ati;
pub mod errors;
pub mod site;
pub mod tag;
pub mod union_find;
