use vstd::prelude::*;

verus! {

/// Failure kinds surfaced by the store.
#[derive(Clone, Copy, Debug, PartialEq, Eq, Structural)]
pub enum DbError {
    /// Every pool slot is pinned, so no buffer can be claimed or evicted.
    CacheExhausted,
    /// An empty key was passed to an update operation.
    EmptyKey,
    /// The key is longer than `MAX_KEY_LEN`.
    KeyTooLarge,
    /// The value is longer than `MAX_VALUE_LEN`.
    ValueTooLarge,
    /// A positioned read or write fell outside the file image.
    IoFailed,
    /// The opened data file carries an impossible metadata header.
    CorruptedMeta,
    /// A stored page or a buffer violates an internal invariant.
    InvariantViolated,
    /// The operation needs a state the store or transaction is not in.
    WrongState,
}

impl DbError {
    /// A short human-readable name for the error kind.
    pub fn message(&self) -> (r: &'static str) {
        match self {
            DbError::CacheExhausted => "cache exhausted by pinned pages",
            DbError::EmptyKey => "empty key",
            DbError::KeyTooLarge => "key too large",
            DbError::ValueTooLarge => "value too large",
            DbError::IoFailed => "positioned access outside the file",
            DbError::CorruptedMeta => "corrupted metadata header",
            DbError::InvariantViolated => "invariant violated",
            DbError::WrongState => "wrong state",
        }
    }
}

} // verus!
