//! Keys hashed with SHA-512 crypt.

use vstd::prelude::*;
use vstd::string::StringSliceAdditionalSpecFns;
use vstd::utf8::{decode_utf8, encode_utf8, encode_utf8_decode_utf8, valid_utf8};

use super::model::{crypt_char, quoted_spec, QuotedString};
use super::nix::{text_of, Key};
use super::pattern::PatternEntry;
use super::replace::{Range, RedactError, Replace};

verus! {

/// `sha_crypt::sha512_check`: whether `hash` is a SHA-512 crypt hash of
/// `key`.
pub uninterp spec fn sha512_checks(key: Seq<char>, hash: Seq<char>) -> bool;

/// The shape of a SHA-512 crypt hash with default parameters: `$6$`, a salt
/// of 16 characters of the crypt alphabet, `$`, and the hash in 86 of them.
pub open spec fn sha512_shaped(hash: Seq<char>) -> bool {
    &&& hash.len() == 106
    &&& hash.subrange(0, 3) == seq!['$', '6', '$']
    &&& forall|i: int| 3 <= i < 19 ==> crypt_char(#[trigger] hash[i])
    &&& hash[19] == '$'
    &&& forall|i: int| 20 <= i < 106 ==> crypt_char(#[trigger] hash[i])
}

/// Whether `bytes` hold, between double quotes, a SHA-512 crypt hash of
/// `key`.
pub open spec fn is_sha512_of(key: Seq<char>, bytes: Seq<u8>) -> bool {
    exists|hash: Seq<char>|
        sha512_shaped(hash) && sha512_checks(key, hash) && bytes == encode_utf8(
            #[trigger] quoted_spec(hash),
        )
}

/// A key of `sha512`, and the hash that takes its place.
pub struct Sha512 {
    hash: QuotedString,
    range: Range,
}

impl Sha512 {
    /// `sha_crypt::sha512_simple` with the crate's default parameters. The
    /// salt is drawn at random, so the hash is not fixed: it has the shape
    /// of a SHA-512 crypt hash, and `sha_crypt::sha512_check` accepts it for
    /// the key. The call fails only on a number of rounds out of range,
    /// which the default is not: it succeeds.
    #[verifier::external_body]
    fn hash(key: &str) -> (hash: Result<String, RedactError>)
        ensures
            hash is Ok,
            hash matches Ok(h) ==> sha512_shaped(h@) && sha512_checks(key@, h@),
    {
        let params = ::sha_crypt::Sha512Params::default();
        ::sha_crypt::sha512_simple(key, &params).map_err(|_| RedactError::Derivation)
    }

    /// The replacement of `range` by `hash` in quotes.
    pub fn from_hash(hash: &str, range: Range) -> (sha: Sha512)
        ensures
            sha.range_spec() == range,
            sha.content_spec() == encode_utf8(quoted_spec(hash@)),
    {
        Sha512 { hash: QuotedString::from(hash), range }
    }
}

impl Key for Sha512 {
    open spec fn accepts(text: Seq<u8>) -> bool {
        text == PatternEntry::Sha512.name_bytes()
    }

    open spec fn made(
        key: Seq<u8>,
        range: Range,
        result: Result<Option<Self>, RedactError>,
    ) -> bool {
        match result {
            Ok(Some(s)) => valid_utf8(key) && s.range_spec() == range && is_sha512_of(
                decode_utf8(key),
                s.content_spec(),
            ),
            Ok(None) => false,
            Err(e) => e == RedactError::Derivation && !valid_utf8(key),
        }
    }

    fn new(key: &[u8], range: Range) -> (result: Result<Option<Self>, RedactError>) {
        let text = match text_of(key) {
            Some(text) => text,
            None => {
                return Err(RedactError::Derivation);
            },
        };
        proof {
            encode_utf8_decode_utf8(text@);
        }
        match Self::hash(text) {
            Ok(hash) => Ok(Some(Self::from_hash(hash.as_str(), range))),
            Err(e) => Err(e),
        }
    }

    fn condition(text: &[u8]) -> (yes: bool) {
        PatternEntry::Sha512.is_name(text)
    }
}

impl Replace for Sha512 {
    closed spec fn range_spec(&self) -> Range {
        self.range
    }

    closed spec fn content_spec(&self) -> Seq<u8> {
        encode_utf8(self.hash@)
    }

    fn range(&self) -> (range: Range) {
        self.range.start..self.range.end
    }

    fn content(&self) -> (bytes: &[u8]) {
        self.hash.as_str().as_bytes()
    }
}

} // verus!
