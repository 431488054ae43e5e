//! The file operations of a session: what they ask of the thing they work
//! on, and the digest by which a change of content is known.

pub mod context;
pub mod hash;

use vstd::prelude::*;

pub use self::context::{
    DecryptionContext, EncryptionContext, GenerationContext, ReadingContext, WritingContext,
};
pub use self::hash::Digest;

verus! {

/// Why a file operation cannot be begun.
#[derive(Clone, Copy, Debug, PartialEq, Eq, Structural)]
pub enum FileError {
    /// There is no key to decrypt with.
    NoIdentity,
}

/// The files that hold the keys to decrypt with; to have none is an error.
pub fn decryption_keys(identities: Vec<String>) -> (keys: Result<Vec<String>, FileError>)
    ensures
        keys == if identities@.len() == 0 {
            Err::<Vec<String>, FileError>(FileError::NoIdentity)
        } else {
            Ok::<Vec<String>, FileError>(identities)
        },
{
    if identities.len() == 0 {
        Err(FileError::NoIdentity)
    } else {
        Ok(identities)
    }
}

} // verus!
