//! Hash-consing: every structurally equal value is represented by one shared
//! handle, and every handle carries an identifier that its table gave out once.
//!
//! A table ([`HConsign`]) turns values into handles ([`HConsed`]). While a
//! value is held by some handle, asking the table for a structurally equal
//! value gives a handle on the same value, with the same identifier. So among
//! the handles of one table, comparing identifiers is comparing values, however
//! deep the values are; the set and the map of [`coll`] are built on that.
//!
//! ```text
//! let mut consign = HConsign::new();
//! let x = consign.var("x");
//! let id = consign.lam(x.clone());
//! assert!(consign.var("x") == x);
//! assert!(consign.lam(x) == id);
//! ```
//!
//! The choices that a user has to know of:
//!
//! - A table has one owner. Every function that may change it takes it by
//!   `&mut`.
//! - A table holds no handle. An entry whose value nobody holds any more stays
//!   in the table until a later probe of its bucket finds it; nothing throws
//!   stale entries out ahead of time.
//! - An identifier is never used twice. A value that comes back after its last
//!   handle was dropped gets a new one.
//! - Handles of different tables must not be mixed: two tables number their
//!   values alike. What is proved of a handle is proved relative to a table
//!   that owns it, see [`HConsign::owns`].
//!
//! The modules:
//!
//! - [`shape`] says what a value type has to offer to be hash-consed.
//! - [`hash`] holds the word-mixing hash that shapes are hashed with.
//! - [`handle`] is the shared handle, compared and hashed by identifier alone.
//! - [`record`] is the mathematical model of a table, with its laws.
//! - [`consign`] is the table that hands out handles.
//! - [`coll`] holds the set and the map keyed by handles.
//! - [`term`] is a small term language built on all of the above.
//!
//! The shared and weak pointers of the standard library are wrapped in the
//! private module `weak`.

pub mod hash;
pub mod shape;
mod weak;
pub mod handle;
pub mod record;
pub mod consign;
pub mod coll;
pub mod term;

pub use coll::HConMap;
pub use coll::HConSet;
pub use consign::HConsign;
pub use handle::HConsed;
pub use record::ConsignView;
pub use shape::Candidate;
pub use shape::HConsable;
pub use shape::HashIntern;
