//! Error taxonomy of the library.  Every failure an operation can report is
//! one of these variants, each carrying a human-readable message.

use vstd::prelude::*;

verus! {

/// The error type shared by all fallible operations of this crate.
#[derive(Debug, Clone)]
pub enum AppError {
    /// The inference runtime refused or garbled a request.
    OllamaError(String),
    /// Fetching or interpreting a wiki page failed.
    WikiError(String),
    /// Producing an embedding failed.
    EmbeddingError(String),
    /// A general database failure.
    DatabaseError(String),
    /// The durable vector store could not be opened, written or read.
    StorageError(String),
    /// A supplied value broke a configuration rule.
    ConfigError(String),
}

impl AppError {
    /// The message carried by this error.
    pub fn message(&self) -> (r: &String)
        ensures
            r@ == self.message_spec(),
    {
        match self {
            AppError::OllamaError(m) => m,
            AppError::WikiError(m) => m,
            AppError::EmbeddingError(m) => m,
            AppError::DatabaseError(m) => m,
            AppError::StorageError(m) => m,
            AppError::ConfigError(m) => m,
        }
    }

    /// What `message` returns, as a sequence of characters.
    pub open spec fn message_spec(self) -> Seq<char> {
        match self {
            AppError::OllamaError(m) => m@,
            AppError::WikiError(m) => m@,
            AppError::EmbeddingError(m) => m@,
            AppError::DatabaseError(m) => m@,
            AppError::StorageError(m) => m@,
            AppError::ConfigError(m) => m@,
        }
    }
}

/// Shorthand for results whose error side is [`AppError`].
pub type AppResult<T> = Result<T, AppError>;

} // verus!
