//! Pre-shared keys derived from a network's name and its passphrase.

use vstd::prelude::*;
use vstd::string::StringSliceAdditionalSpecFns;
use vstd::utf8::encode_utf8;

use super::model::{quoted_spec, QuotedString};
use super::nix::SaltAndKey;
use super::pattern::PatternEntry;
use super::replace::{Range, RedactError, Replace};

verus! {

/// How often the derivation is run.
pub const ROUNDS: u32 = 4096;

/// The length of the derived key in bytes.
pub const KEY_LEN: usize = 32;

/// PBKDF2 with HMAC-SHA1: the key of `len` bytes derived from a password
/// and a salt in `rounds` rounds.
pub uninterp spec fn pbkdf2_hmac_sha1(
    password: Seq<u8>,
    salt: Seq<u8>,
    rounds: u32,
    len: nat,
) -> Seq<u8>;

/// The sixteen digits of lower-case hexadecimal.
pub open spec fn hex_digit(value: int) -> char {
    seq!['0', '1', '2', '3', '4', '5', '6', '7', '8', '9', 'a', 'b', 'c', 'd', 'e', 'f'][value]
}

/// Each byte as two digits of lower-case hexadecimal, the high one first.
pub open spec fn hex_lower(data: Seq<u8>) -> Seq<char> {
    Seq::new(
        2 * data.len(),
        |i: int|
            if i % 2 == 0 {
                hex_digit(data[i / 2] as int / 16)
            } else {
                hex_digit(data[i / 2] as int % 16)
            },
    )
}

/// `pbkdf2::pbkdf2` with HMAC-SHA1 as its function: fills a key of `len`
/// bytes. The call fails only where the function takes no key of the
/// password's length, and HMAC takes a key of any length: it succeeds.
#[verifier::external_body]
fn pbkdf2(password: &[u8], salt: &[u8], rounds: u32, len: usize) -> (key: Result<
    Vec<u8>,
    RedactError,
>)
    ensures
        key is Ok,
        key matches Ok(k) ==> k@ == pbkdf2_hmac_sha1(password@, salt@, rounds, len as nat) && k@.len()
            == len,
{
    let mut key = vec![0u8; len];
    match ::pbkdf2::pbkdf2::<::pbkdf2::hmac::Hmac<::sha1::Sha1>>(password, salt, rounds, &mut key) {
        Ok(()) => Ok(key),
        Err(_) => Err(RedactError::Derivation),
    }
}

/// `hex::encode`: the bytes in lower-case hexadecimal.
#[verifier::external_body]
fn hex(data: &[u8]) -> (text: String)
    ensures
        text@ == hex_lower(data@),
{
    ::hex::encode(data)
}

/// The text that stands for the key derived from `salt` and `key`.
pub open spec fn derived_text(salt: Seq<u8>, key: Seq<u8>) -> Seq<char> {
    hex_lower(pbkdf2_hmac_sha1(key, salt, ROUNDS, KEY_LEN as nat))
}

/// A salt and a key of `psk`, and the derived key that takes their place.
pub struct Psk {
    derivation: QuotedString,
    range: Range,
}

impl Psk {
    /// Derives the pre-shared key of a network from its name and its
    /// passphrase, in hexadecimal. The derivation does not fail.
    pub fn derive(ssid: &[u8], key: &[u8]) -> (text: Result<String, RedactError>)
        ensures
            text matches Ok(t) && t@ == derived_text(ssid@, key@) && t@.len() == 2 * KEY_LEN,
    {
        match pbkdf2(key, ssid, ROUNDS, KEY_LEN) {
            Ok(psk) => Ok(hex(psk.as_slice())),
            Err(e) => Err(e),
        }
    }
}

impl SaltAndKey for Psk {
    open spec fn accepts(text: Seq<u8>) -> bool {
        text == PatternEntry::Psk.name_bytes()
    }

    open spec fn made(
        salt: Seq<u8>,
        key: Seq<u8>,
        range: Range,
        result: Result<Option<Self>, RedactError>,
    ) -> bool {
        match result {
            Ok(Some(p)) => p.range_spec() == range && p.content_spec() == encode_utf8(
                quoted_spec(derived_text(salt, key)),
            ),
            Ok(None) => false,
            Err(_) => false,
        }
    }

    fn new(salt: &[u8], key: &[u8], range: Range) -> (result: Result<Option<Self>, RedactError>) {
        match Self::derive(salt, key) {
            Ok(text) => Ok(Some(Self { derivation: QuotedString::from(text.as_str()), range })),
            Err(e) => Err(e),
        }
    }

    fn condition(text: &[u8]) -> (yes: bool) {
        PatternEntry::Psk.is_name(text)
    }
}

impl Replace for Psk {
    closed spec fn range_spec(&self) -> Range {
        self.range
    }

    closed spec fn content_spec(&self) -> Seq<u8> {
        encode_utf8(self.derivation@)
    }

    fn range(&self) -> (range: Range) {
        self.range.start..self.range.end
    }

    fn content(&self) -> (bytes: &[u8]) {
        self.derivation.as_str().as_bytes()
    }
}

} // verus!
