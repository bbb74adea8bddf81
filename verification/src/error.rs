use vstd::prelude::*;

verus! {

/// Error kinds surfaced by the library. Each variant carries a short
/// human-readable message.
#[derive(Debug, Clone)]
pub enum CoreError {
    Database(String),
    Config(String),
    Io(String),
    Ocr(String),
    Migration(String),
    Hash(String),
    Embedding(String),
    Chat(String),
}

impl CoreError {
    /// The message carried by the error, whatever its kind.
    pub fn message(&self) -> (r: &String)
        ensures
            r@ == self.spec_message(),
    {
        match self {
            CoreError::Database(m) => m,
            CoreError::Config(m) => m,
            CoreError::Io(m) => m,
            CoreError::Ocr(m) => m,
            CoreError::Migration(m) => m,
            CoreError::Hash(m) => m,
            CoreError::Embedding(m) => m,
            CoreError::Chat(m) => m,
        }
    }

    pub open spec fn spec_message(&self) -> Seq<char> {
        match self {
            CoreError::Database(m) => m@,
            CoreError::Config(m) => m@,
            CoreError::Io(m) => m@,
            CoreError::Ocr(m) => m@,
            CoreError::Migration(m) => m@,
            CoreError::Hash(m) => m@,
            CoreError::Embedding(m) => m@,
            CoreError::Chat(m) => m@,
        }
    }
}

} // verus!
