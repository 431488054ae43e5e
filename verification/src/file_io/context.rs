//! What each file operation asks of the thing it works on: where to read,
//! where to write, and what to keep of the outcome.

use vstd::prelude::*;

use super::hash::blake3_digest;
use crate::redact::replace::RedactError;

verus! {

/// The text of a path, where there is one.
pub open spec fn path_text(path: Option<String>) -> Option<Seq<char>> {
    match path {
        Some(p) => Some(p@),
        None => None,
    }
}

/// The texts of a list of paths.
pub open spec fn path_texts(paths: Vec<String>) -> Seq<Seq<char>> {
    Seq::new(paths@.len(), |i: int| paths@[i]@)
}

/// Something whose content is read from a file.
pub trait ReadingContext {
    /// The file to read.
    spec fn read_path(&self) -> Option<Seq<char>>;

    /// The content that is kept.
    spec fn kept(&self) -> Seq<u8>;

    /// The digest that is kept.
    spec fn kept_digest(&self) -> Option<Seq<u8>>;

    /// The path of the file to read.
    fn input(&self) -> (path: Option<String>)
        ensures
            path_text(path) == self.read_path(),
    ;

    /// Keeps what was read, with its digest.
    fn output(&mut self, content: Vec<u8>)
        ensures
            final(self).kept() == content@,
            final(self).kept_digest() == Some(blake3_digest(content@)),
            final(self).read_path() == old(self).read_path(),
    ;
}

/// Something whose content is written to a file.
pub trait WritingContext {
    /// The file to write.
    spec fn write_path(&self) -> Option<Seq<char>>;

    /// The content to write.
    spec fn written(&self) -> Seq<u8>;

    /// The digest that is kept.
    spec fn written_digest(&self) -> Option<Seq<u8>>;

    /// The bytes to write.
    fn input(&self) -> (bytes: &[u8])
        ensures
            bytes@ == self.written(),
    ;

    /// The path of the file to write.
    fn output(&self) -> (path: Option<String>)
        ensures
            path_text(path) == self.write_path(),
    ;

    /// Keeps the digest of what was written.
    fn result(&mut self)
        ensures
            final(self).written() == old(self).written(),
            final(self).written_digest() == Some(blake3_digest(old(self).written())),
            final(self).write_path() == old(self).write_path(),
    ;
}

/// Something whose content is decrypted from one file into another.
pub trait DecryptionContext {
    /// The encrypted file.
    spec fn encrypted_path(&self) -> Option<Seq<char>>;

    /// The file for the plain text.
    spec fn plain_path(&self) -> Option<Seq<char>>;

    /// The files that hold the keys to decrypt with.
    spec fn keys(&self) -> Seq<Seq<char>>;

    /// The content that is kept.
    spec fn plain(&self) -> Seq<u8>;

    /// The digest that is kept.
    spec fn plain_digest(&self) -> Option<Seq<u8>>;

    /// The path of the encrypted file.
    fn input(&self) -> (path: Option<String>)
        ensures
            path_text(path) == self.encrypted_path(),
    ;

    /// The path of the file for the plain text.
    fn output(&self) -> (path: Option<String>)
        ensures
            path_text(path) == self.plain_path(),
    ;

    /// The paths of the files that hold the keys.
    fn identities(&self) -> (paths: Vec<String>)
        ensures
            path_texts(paths) == self.keys(),
    ;

    /// Keeps the plain text, with its digest.
    fn result(&mut self, content: Vec<u8>)
        ensures
            final(self).plain() == content@,
            final(self).plain_digest() == Some(blake3_digest(content@)),
            final(self).encrypted_path() == old(self).encrypted_path(),
            final(self).plain_path() == old(self).plain_path(),
            final(self).keys() == old(self).keys(),
    ;
}

/// Something whose content is encrypted into a file.
pub trait EncryptionContext {
    /// The content to encrypt.
    spec fn secret(&self) -> Seq<u8>;

    /// The file for the encrypted text.
    spec fn sealed_path(&self) -> Option<Seq<char>>;

    /// The files that hold keys; their owners can decrypt.
    spec fn own_keys(&self) -> Seq<Seq<char>>;

    /// Those who can decrypt beside them.
    spec fn others(&self) -> Seq<Seq<char>>;

    /// The files that list more of those.
    spec fn other_lists(&self) -> Seq<Seq<char>>;

    /// The bytes to encrypt.
    fn input(&self) -> (bytes: &[u8])
        ensures
            bytes@ == self.secret(),
    ;

    /// The path of the file for the encrypted text.
    fn output(&self) -> (path: Option<String>)
        ensures
            path_text(path) == self.sealed_path(),
    ;

    /// The paths of the files that hold keys.
    fn identities(&self) -> (paths: Vec<String>)
        ensures
            path_texts(paths) == self.own_keys(),
    ;

    /// The others who can decrypt.
    fn recipients(&self) -> (paths: Vec<String>)
        ensures
            path_texts(paths) == self.others(),
    ;

    /// The paths of the files that list more of them.
    fn recipients_files(&self) -> (paths: Vec<String>)
        ensures
            path_texts(paths) == self.other_lists(),
    ;
}

/// Something that a file without secrets is generated from.
pub trait GenerationContext {
    /// Whether `bytes` may be what is written.
    spec fn generated(&self, bytes: Result<Vec<u8>, RedactError>) -> bool;

    /// Where it is written.
    spec fn target(&self) -> Option<Seq<char>>;

    /// The bytes to write.
    fn input(&self) -> (bytes: Result<Vec<u8>, RedactError>)
        ensures
            self.generated(bytes),
    ;

    /// The path to write them to.
    fn output(&self) -> (path: Option<String>)
        ensures
            path_text(path) == self.target(),
    ;
}

} // verus!
