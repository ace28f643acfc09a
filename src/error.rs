use vstd::prelude::*;

verus! {

/// What an operation of the state layer can fail with.
#[derive(Clone, Copy, Debug, PartialEq, Eq, Structural)]
pub enum StateError {
    /// A value could not be turned into bytes, or a byte buffer was malformed.
    Serialization,
    /// Stored bytes could not be decoded into the requested value.
    Deserialization,
    /// The underlying engine or service failed.
    Storage,
    /// An argument that the operation cannot work with (an empty prefix).
    InvalidArgument,
    /// The handle was used before being registered with a backend.
    HandleNotRegistered,
}

impl StateError {
    /// The description of each error.
    pub open spec fn message_spec(&self) -> Seq<char> {
        match self {
            StateError::Serialization => "serialization error"@,
            StateError::Deserialization => "deserialization error"@,
            StateError::Storage => "storage error"@,
            StateError::InvalidArgument => "invalid argument"@,
            StateError::HandleNotRegistered => "handle not registered"@,
        }
    }

    /// A short description of the error.
    pub fn message(&self) -> (r: String)
        ensures
            r@ == self.message_spec(),
    {
        match self {
            StateError::Serialization => "serialization error".to_string(),
            StateError::Deserialization => "deserialization error".to_string(),
            StateError::Storage => "storage error".to_string(),
            StateError::InvalidArgument => "invalid argument".to_string(),
            StateError::HandleNotRegistered => "handle not registered".to_string(),
        }
    }
}

} // verus!
