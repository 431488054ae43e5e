//! Text in double quotes, as it stands in a Nix file.

use vstd::prelude::*;
use vstd::string::StringExecFns;

verus! {

/// `value` between two double quotes.
pub open spec fn quoted_spec(value: Seq<char>) -> Seq<char> {
    seq!['"'] + value + seq!['"']
}

/// Puts `value` between double quotes. Nothing in it is escaped.
pub fn quoted(value: &str) -> (text: String)
    ensures
        text@ == quoted_spec(value@),
{
    proof {
        reveal_strlit("\"");
    }
    let mut buf = String::from_str("\"");
    buf.append(value);
    buf.append("\"");
    proof {
        assert("\""@ =~= seq!['"']);
    }
    buf
}

/// Whether `c` is a character of the alphabet in which crypt hashes are
/// written: a letter, a digit, a dot or a slash.
pub open spec fn crypt_char(c: char) -> bool {
    let n = c as u32;
    n == 0x2e || n == 0x2f || (0x30 <= n <= 0x39) || (0x41 <= n <= 0x5a) || (0x61 <= n <= 0x7a)
}

/// A string that stands between double quotes.
pub struct QuotedString(String);

impl View for QuotedString {
    type V = Seq<char>;

    closed spec fn view(&self) -> Seq<char> {
        self.0@
    }
}

impl QuotedString {
    /// `value` in quotes.
    pub fn from(value: &str) -> (q: QuotedString)
        ensures
            q@ == quoted_spec(value@),
    {
        QuotedString(quoted(value))
    }

    /// The text, quotes included.
    pub fn as_str(&self) -> (text: &str)
        ensures
            text@ == self@,
    {
        self.0.as_str()
    }
}

} // verus!
