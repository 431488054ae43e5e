//! The functions whose arguments are secrets, and the entries that name them
//! in a parameter list.

use vstd::prelude::*;
use vstd::string::StringSliceAdditionalSpecFns;
use vstd::utf8::encode_utf8;

use super::nix::Position;
use super::replace::{Range, Replace};

verus! {

/// The functions whose arguments are secrets.
#[derive(Clone, Copy, Debug, PartialEq, Eq, Structural)]
pub enum PatternEntry {
    /// One key, hashed with bcrypt.
    Bcrypt,
    /// One key, hashed with SHA-512 crypt.
    Sha512,
    /// A salt and a key, from which a pre-shared key is derived.
    Psk,
}

/// Whether two byte strings are the same.
pub fn bytes_eq(a: &[u8], b: &[u8]) -> (same: bool)
    ensures
        same == (a@ == b@),
{
    if a.len() != b.len() {
        return false;
    }
    let mut i: usize = 0;
    while i < a.len()
        invariant
            0 <= i <= a.len(),
            a@.len() == b@.len(),
            forall|k: int| 0 <= k < i ==> a@[k] == b@[k],
        decreases a.len() - i,
    {
        if a[i] != b[i] {
            return false;
        }
        i += 1;
    }
    assert(a@ =~= b@);
    true
}

impl PatternEntry {
    /// The name under which the function is written.
    pub open spec fn name(self) -> Seq<char> {
        match self {
            PatternEntry::Bcrypt => "bcrypt"@,
            PatternEntry::Sha512 => "sha512"@,
            PatternEntry::Psk => "psk"@,
        }
    }

    /// The name as bytes of the text.
    pub open spec fn name_bytes(self) -> Seq<u8> {
        encode_utf8(self.name())
    }

    /// The name under which the function is written.
    pub fn as_str(&self) -> (name: &'static str)
        ensures
            name@ == self.name(),
    {
        match self {
            PatternEntry::Bcrypt => "bcrypt",
            PatternEntry::Sha512 => "sha512",
            PatternEntry::Psk => "psk",
        }
    }

    /// Whether `text` is the function's name.
    pub fn is_name(&self, text: &[u8]) -> (yes: bool)
        ensures
            yes == (text@ == self.name_bytes()),
    {
        bytes_eq(text, self.as_str().as_bytes())
    }

    /// The text of an empty module that takes every function as a
    /// parameter.
    pub open spec fn module_text() -> Seq<u8> {
        encode_utf8("{\n  "@) + PatternEntry::Bcrypt.name_bytes() + encode_utf8(",\n  "@)
            + PatternEntry::Sha512.name_bytes() + encode_utf8(",\n  "@) + PatternEntry::Psk.name_bytes()
            + encode_utf8("\n}: {\n  \n}\n"@)
    }

    /// An empty module that takes every function as a parameter: what a new
    /// file starts from.
    pub fn to_module() -> (module: Vec<u8>)
        ensures
            module@ == Self::module_text(),
    {
        let mut module: Vec<u8> = Vec::new();
        let ghost mut text = Seq::<u8>::empty();
        module.extend_from_slice("{\n  ".as_bytes());
        proof {
            text = text + encode_utf8("{\n  "@);
            assert(module@ =~= text);
        }
        module.extend_from_slice(PatternEntry::Bcrypt.as_str().as_bytes());
        proof {
            text = text + PatternEntry::Bcrypt.name_bytes();
            assert(module@ =~= text);
        }
        module.extend_from_slice(",\n  ".as_bytes());
        proof {
            text = text + encode_utf8(",\n  "@);
            assert(module@ =~= text);
        }
        module.extend_from_slice(PatternEntry::Sha512.as_str().as_bytes());
        proof {
            text = text + PatternEntry::Sha512.name_bytes();
            assert(module@ =~= text);
        }
        module.extend_from_slice(",\n  ".as_bytes());
        proof {
            text = text + encode_utf8(",\n  "@);
            assert(module@ =~= text);
        }
        module.extend_from_slice(PatternEntry::Psk.as_str().as_bytes());
        proof {
            text = text + PatternEntry::Psk.name_bytes();
            assert(module@ =~= text);
        }
        module.extend_from_slice("\n}: {\n  \n}\n".as_bytes());
        proof {
            text = text + encode_utf8("\n}: {\n  \n}\n"@);
            assert(module@ =~= text);
        }
        module
    }
}

/// Whether `text` is the name of one of the functions.
pub open spec fn is_entry_name(text: Seq<u8>) -> bool {
    text == PatternEntry::Bcrypt.name_bytes() || text == PatternEntry::Sha512.name_bytes() || text
        == PatternEntry::Psk.name_bytes()
}

/// A part of a parameter list that names one of the functions, or a whole
/// list that names nothing else: it is taken out of the text.
pub struct Pattern {
    range: Range,
}

impl Position for Pattern {
    open spec fn accepts(text: Seq<u8>) -> bool {
        is_entry_name(text)
    }

    open spec fn made(range: Range, result: Option<Self>) -> bool {
        result matches Some(p) && p.range_spec() == range && p.content_spec() == Seq::<u8>::empty()
    }

    fn new(range: Range) -> (result: Option<Self>) {
        Some(Self { range })
    }

    fn condition(text: &[u8]) -> (yes: bool) {
        PatternEntry::Bcrypt.is_name(text) || PatternEntry::Sha512.is_name(text)
            || PatternEntry::Psk.is_name(text)
    }
}

impl Replace for Pattern {
    closed spec fn range_spec(&self) -> Range {
        self.range
    }

    closed spec fn content_spec(&self) -> Seq<u8> {
        Seq::empty()
    }

    fn range(&self) -> (range: Range) {
        self.range.start..self.range.end
    }

    fn content(&self) -> (bytes: &[u8]) {
        let empty: &[u8] = &[];
        assert(empty@ =~= Seq::<u8>::empty());
        empty
    }
}

} // verus!
