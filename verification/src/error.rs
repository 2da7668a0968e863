//! The error type of the key/value store.

use vstd::prelude::*;

verus! {

/// The ways an operation of the store can fail.
#[derive(Debug)]
pub enum KvsError {
    /// An input/output operation failed; the text describes it.
    Io(String),
    /// A command could not be encoded or decoded; the text describes it.
    Serde(String),
    /// The key is not in the store.
    KeyNotFound,
    /// The log held a command of another kind than the index promised.
    UnexpectedCommandType,
    /// The server reported a failure with this message.
    StringError(String),
}

/// What `KvsError::message` gives for `e`.
pub open spec fn error_message(e: KvsError) -> Seq<char> {
    match e {
        KvsError::Io(m) => m@,
        KvsError::Serde(m) => m@,
        KvsError::KeyNotFound => "Key not found"@,
        KvsError::UnexpectedCommandType => "Unexpected command type"@,
        KvsError::StringError(m) => m@,
    }
}

/// The error that a failure message received from the server stands for:
/// the error whose message it is, where only one kind has that message,
/// and otherwise the message itself.
pub open spec fn error_from_message_spec(m: String) -> KvsError {
    if m@ == "Key not found"@ {
        KvsError::KeyNotFound
    } else if m@ == "Unexpected command type"@ {
        KvsError::UnexpectedCommandType
    } else {
        KvsError::StringError(m)
    }
}

/// Reading a message back gives the error it was made from, for the
/// errors whose message names their kind.
pub proof fn law_message_round_trip()
    ensures
        forall|m: String|
            m@ == error_message(KvsError::KeyNotFound) ==> #[trigger] error_from_message_spec(m)
                == KvsError::KeyNotFound,
        forall|m: String|
            m@ == error_message(KvsError::UnexpectedCommandType) ==> #[trigger] error_from_message_spec(
                m,
            ) == KvsError::UnexpectedCommandType,
{
    reveal_strlit("Key not found");
    reveal_strlit("Unexpected command type");
    assert("Key not found"@.len() != "Unexpected command type"@.len());
}

impl KvsError {
    /// The text that reports this error to a user.
    pub fn message(&self) -> (s: String)
        ensures
            s@ == error_message(*self),
    {
        match self {
            KvsError::Io(m) => m.clone(),
            KvsError::Serde(m) => m.clone(),
            KvsError::KeyNotFound => "Key not found".to_owned(),
            KvsError::UnexpectedCommandType => "Unexpected command type".to_owned(),
            KvsError::StringError(m) => m.clone(),
        }
    }

    /// The error that the failure message `m` from the server stands for.
    pub fn from_message(m: String) -> (e: KvsError)
        ensures
            e == error_from_message_spec(m),
    {
        if m == "Key not found".to_owned() {
            KvsError::KeyNotFound
        } else if m == "Unexpected command type".to_owned() {
            KvsError::UnexpectedCommandType
        } else {
            KvsError::StringError(m)
        }
    }
}

/// The result of an operation of the store.
pub type Result<T> = core::result::Result<T, KvsError>;

} // verus!
