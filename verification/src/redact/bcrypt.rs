//! Keys hashed with bcrypt.

use vstd::prelude::*;
use vstd::string::StringSliceAdditionalSpecFns;
use vstd::utf8::encode_utf8;

use super::model::{crypt_char, quoted_spec, QuotedString};
use super::nix::Key;
use super::pattern::PatternEntry;
use super::replace::{Range, RedactError, Replace};

verus! {

/// `bcrypt::verify`: whether `hash` is a bcrypt hash of `key`.
pub uninterp spec fn bcrypt_verifies(key: Seq<u8>, hash: Seq<char>) -> bool;

/// The shape of a bcrypt hash at the default cost: `$2b$12$`, then the salt
/// and the hash in 53 characters of the crypt alphabet.
pub open spec fn bcrypt_shaped(hash: Seq<char>) -> bool {
    &&& hash.len() == 60
    &&& hash.subrange(0, 7) == seq!['$', '2', 'b', '$', '1', '2', '$']
    &&& forall|i: int| 7 <= i < 60 ==> crypt_char(#[trigger] hash[i])
}

/// Whether `bytes` hold, between double quotes, a bcrypt hash of `key`.
pub open spec fn is_bcrypt_of(key: Seq<u8>, bytes: Seq<u8>) -> bool {
    exists|hash: Seq<char>|
        bcrypt_shaped(hash) && bcrypt_verifies(key, hash) && bytes == encode_utf8(
            #[trigger] quoted_spec(hash),
        )
}

/// A key of `bcrypt`, and the hash that takes its place.
pub struct Bcrypt {
    hash: QuotedString,
    range: Range,
}

impl Bcrypt {
    /// `bcrypt::hash` at the crate's default cost. The salt is drawn at
    /// random, so the hash is not fixed: it has the shape of a bcrypt hash
    /// at cost 12, and `bcrypt::verify` accepts it for the key. The call
    /// fails where no random bytes can be had.
    #[verifier::external_body]
    fn hash(key: &[u8]) -> (hash: Result<String, RedactError>)
        ensures
            match hash {
                Ok(h) => bcrypt_shaped(h@) && bcrypt_verifies(key@, h@),
                Err(e) => e == RedactError::Derivation,
            },
    {
        ::bcrypt::hash(key, ::bcrypt::DEFAULT_COST).map_err(|_| RedactError::Derivation)
    }

    /// The replacement of `range` by `hash` in quotes.
    pub fn from_hash(hash: &str, range: Range) -> (bcrypt: Bcrypt)
        ensures
            bcrypt.range_spec() == range,
            bcrypt.content_spec() == encode_utf8(quoted_spec(hash@)),
    {
        Bcrypt { hash: QuotedString::from(hash), range }
    }
}

impl Key for Bcrypt {
    open spec fn accepts(text: Seq<u8>) -> bool {
        text == PatternEntry::Bcrypt.name_bytes()
    }

    open spec fn made(
        key: Seq<u8>,
        range: Range,
        result: Result<Option<Self>, RedactError>,
    ) -> bool {
        match result {
            Ok(Some(b)) => b.range_spec() == range && is_bcrypt_of(key, b.content_spec()),
            Ok(None) => false,
            Err(e) => e == RedactError::Derivation,
        }
    }

    fn new(key: &[u8], range: Range) -> (result: Result<Option<Self>, RedactError>) {
        match Self::hash(key) {
            Ok(hash) => Ok(Some(Self::from_hash(hash.as_str(), range))),
            Err(e) => Err(e),
        }
    }

    fn condition(text: &[u8]) -> (yes: bool) {
        PatternEntry::Bcrypt.is_name(text)
    }
}

impl Replace for Bcrypt {
    closed spec fn range_spec(&self) -> Range {
        self.range
    }

    closed spec fn content_spec(&self) -> Seq<u8> {
        encode_utf8(self.hash@)
    }

    fn range(&self) -> (range: Range) {
        self.range.start..self.range.end
    }

    fn content(&self) -> (bytes: &[u8]) {
        self.hash.as_str().as_bytes()
    }
}

} // verus!
