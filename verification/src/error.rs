//! Error types for database operations.

use vstd::prelude::*;

verus! {

/// Errors that can occur during database operations.
#[derive(Debug, Clone, PartialEq, Eq)]
pub enum BarqError {
    /// A filesystem failure when opening, writing, or flushing the log.
    /// The engine itself never raises this; the caller that owns the log
    /// file maps its failures here.
    Io(String),
    /// A log record could not be encoded or decoded.
    Serialization(String),
    /// A read targeted a node that does not exist.
    NodeNotFound(u64),
    /// Reserved for a future strict-insert variant; never raised, since
    /// appending a node with an existing id is last-write-wins.
    NodeAlreadyExists(u64),
    /// A durability-layer failure not covered by the other kinds.
    WalError(String),
    /// An out-of-range input, such as a vector component too large for
    /// the fixed-point representation.
    InvalidOperation(String),
    /// Replay found a malformed line before the last line of the log.
    DatabaseCorrupt(String),
}

impl BarqError {
    /// A short human-readable description: the held message, or an
    /// empty text for the two kinds that carry only a node id.
    pub fn message(&self) -> (r: String)
        ensures
            r@ == (match *self {
                BarqError::Io(m) => m@,
                BarqError::Serialization(m) => m@,
                BarqError::NodeNotFound(_) => Seq::<char>::empty(),
                BarqError::NodeAlreadyExists(_) => Seq::<char>::empty(),
                BarqError::WalError(m) => m@,
                BarqError::InvalidOperation(m) => m@,
                BarqError::DatabaseCorrupt(m) => m@,
            }),
    {
        match self {
            BarqError::Io(m) => m.clone(),
            BarqError::Serialization(m) => m.clone(),
            BarqError::NodeNotFound(_) => String::new(),
            BarqError::NodeAlreadyExists(_) => String::new(),
            BarqError::WalError(m) => m.clone(),
            BarqError::InvalidOperation(m) => m.clone(),
            BarqError::DatabaseCorrupt(m) => m.clone(),
        }
    }
}

/// Result type alias for database operations.
pub type BarqResult<T> = Result<T, BarqError>;

} // verus!
