//! Synchronizes a remote catalog of block-list sources into a local
//! relational database used by a DNS filtering application.
//!
//! The catalog arrives as headerless CSV text; parsing it is `adlists`.
//! Reconciling the parsed entries against the persisted tables (additions,
//! soft deletions, group remapping) is `db`. Both are pure: the surrounding
//! binary performs the HTTP fetch and the SQL traffic and hands plain values
//! in and out.
use vstd::prelude::*;

pub mod adlists;
pub mod db;

verus! {

/// The three failure kinds of a sync run. A network failure or a database
/// failure can only arise at the edges (the HTTP fetch, the SQL traffic);
/// a parse failure arises from malformed catalog text.
#[derive(Clone, Copy, Debug, PartialEq, Eq, Structural)]
pub enum SyncError {
    NetworkError,
    ParseError,
    DatabaseError,
}

} // verus!
