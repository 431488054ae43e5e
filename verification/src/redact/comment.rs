//! Comments: they are taken out of the text whole.

use vstd::prelude::*;

use super::nix::Position;
use super::replace::{Range, Replace};

verus! {

/// A comment, with the blank space before it.
pub struct Comment {
    range: Range,
}

impl Position for Comment {
    open spec fn accepts(text: Seq<u8>) -> bool {
        true
    }

    open spec fn made(range: Range, result: Option<Self>) -> bool {
        result matches Some(c) && c.range_spec() == range && c.content_spec() == Seq::<u8>::empty()
    }

    fn new(range: Range) -> (result: Option<Self>) {
        Some(Self { range })
    }

    fn condition(_text: &[u8]) -> (yes: bool) {
        true
    }
}

impl Replace for Comment {
    closed spec fn range_spec(&self) -> Range {
        self.range
    }

    closed spec fn content_spec(&self) -> Seq<u8> {
        Seq::empty()
    }

    fn range(&self) -> (range: Range) {
        self.range.start..self.range.end
    }

    fn content(&self) -> (bytes: &[u8]) {
        let empty: &[u8] = &[];
        assert(empty@ =~= Seq::<u8>::empty());
        empty
    }
}

} // verus!
