//! Reading a Nix text: the parser behind the syntax tree, and the shapes in
//! the tree that name a secret.

use vstd::prelude::*;
use vstd::slice::slice_subrange;
use vstd::string::StringSliceAdditionalSpecFns;
use vstd::utf8::{is_char_boundary, valid_utf8};

use super::replace::{Range, RedactError};
use super::syntax::{
    lemma_element, lemma_siblings, next_picked, prev_picked, well_formed, Element, Shape, Step,
    SyntaxTree, NODE_APPLY, NODE_ERROR, NODE_IDENT, NODE_PAREN, NODE_PATTERN, NODE_PAT_ENTRY,
    NODE_STRING, TOKEN_COLON, TOKEN_COMMENT, TOKEN_ELLIPSIS, TOKEN_ERROR, TOKEN_R_BRACE,
    TOKEN_STRING_CONTENT, TOKEN_WHITESPACE,
};

verus! {

/// The walk through the syntax tree that the parser makes of a text: every
/// element is entered and left in document order, nodes and tokens alike.
pub uninterp spec fn nix_walk(source: Seq<u8>) -> Seq<Step>;

/// `std::str::from_utf8`: the bytes as text, where they are UTF-8, and
/// nothing where they are not. The text holds the same bytes.
#[verifier::external_body]
pub(crate) fn text_of(content: &[u8]) -> (text: Option<&str>)
    ensures
        text is Some == valid_utf8(content@),
        text matches Some(t) ==> t.spec_bytes() == content@,
{
    std::str::from_utf8(content).ok()
}

/// `rnix::Root::parse` and rowan's `preorder_with_tokens`: parses `text` and
/// walks the tree. Each step holds what the walk hands out: entering or
/// leaving, token or node, the kind by its number, and the byte range. The
/// parser counts bytes in 32 bits. It recurses on nested lists and on chains
/// of operators without a limit of its own, so a text that is nested deeply
/// enough exhausts the stack.
#[verifier::external_body]
fn walk(text: &str) -> (steps: Vec<Step>)
    requires
        text.spec_bytes().len() <= u32::MAX,
    ensures
        steps@ == nix_walk(text.spec_bytes()),
{
    let mut steps = Vec::new();
    for event in rnix::Root::parse(text).syntax().preorder_with_tokens() {
        let (enter, element) = match event {
            rnix::WalkEvent::Enter(element) => (true, element),
            rnix::WalkEvent::Leave(element) => (false, element),
        };
        let leaf = element.as_token().is_some();
        let kind = element.kind() as u16;
        let (start, end) = (element.text_range().start().into(), element.text_range().end().into());
        steps.push(Step { enter, leaf, kind, start, end });
    }
    steps
}

/// Each element begins and ends between two characters of the text.
pub open spec fn on_boundaries(tree: Seq<Element>, content: Seq<u8>) -> bool {
    forall|i: int|
        0 <= i < tree.len() ==> is_char_boundary(content, (#[trigger] tree[i]).start as int)
            && is_char_boundary(content, tree[i].end as int)
}

/// The tree of `source`, where it is UTF-8, of no more bytes than the parser
/// can count, and the parser's walk makes a tree over it of which no element
/// cuts a character in two.
pub open spec fn parsed(source: Seq<u8>) -> Option<Seq<Element>> {
    if valid_utf8(source) && source.len() <= u32::MAX {
        match super::syntax::tree_of(nix_walk(source), source.len() as int) {
            Some(tree) => if on_boundaries(tree, source) {
                Some(tree)
            } else {
                None
            },
            None => None,
        }
    } else {
        None
    }
}

/// Whether each element of the tree begins and ends between two characters
/// of the text.
fn fits_text(text: &str, tree: &SyntaxTree) -> (yes: bool)
    ensures
        yes == on_boundaries(tree@, text.spec_bytes()),
{
    let n = tree.len();
    let mut i: usize = 0;
    while i < n
        invariant
            0 <= i <= n,
            n == tree@.len(),
            forall|k: int|
                0 <= k < i ==> is_char_boundary(text.spec_bytes(), (#[trigger] tree@[k]).start as int)
                    && is_char_boundary(text.spec_bytes(), tree@[k].end as int),
        decreases n - i,
    {
        let e = tree.get(i);
        if !(text.is_char_boundary(e.start) && text.is_char_boundary(e.end)) {
            return false;
        }
        i += 1;
    }
    true
}

/// Parses a Nix text into its syntax tree. A text that is not UTF-8 is
/// refused as such; one that is too long for the parser, or of which the
/// parser makes no tree that fits it, as a text with a syntax error.
pub fn parse(content: &[u8]) -> (tree: Result<SyntaxTree, RedactError>)
    ensures
        match tree {
            Ok(t) => parsed(content@) == Some(t@) && t.wf() && t.text_len() == content@.len(),
            Err(e) => parsed(content@) is None && e == if valid_utf8(content@) {
                RedactError::Syntax
            } else {
                RedactError::Encoding
            },
        },
{
    match text_of(content) {
        None => Err(RedactError::Encoding),
        Some(text) => {
            if content.len() > 0xffff_ffff {
                return Err(RedactError::Syntax);
            }
            let steps = walk(text);
            match SyntaxTree::build(&steps, content.len()) {
                Some(t) => if fits_text(text, &t) {
                    Ok(t)
                } else {
                    Err(RedactError::Syntax)
                },
                None => Err(RedactError::Syntax),
            }
        },
    }
}


/// A secret that one string gives: a function applied to a key.
pub trait Key: Sized {
    /// Whether `text` names the function.
    spec fn accepts(text: Seq<u8>) -> bool;

    /// What `new` may return for a key and the range to replace.
    spec fn made(key: Seq<u8>, range: Range, result: Result<Option<Self>, RedactError>) -> bool;

    /// The replacement of `range` for a key; nothing where the type declines.
    fn new(key: &[u8], range: Range) -> (result: Result<Option<Self>, RedactError>)
        ensures
            Self::made(key@, range, result),
    ;

    /// Whether `text` names the function.
    fn condition(text: &[u8]) -> (yes: bool)
        ensures
            yes == Self::accepts(text@),
    ;
}

/// A secret that two strings give: a function applied to a salt, and the
/// result applied to a key.
pub trait SaltAndKey: Sized {
    /// Whether `text` names the function.
    spec fn accepts(text: Seq<u8>) -> bool;

    /// What `new` may return for a salt, a key and the range to replace.
    spec fn made(
        salt: Seq<u8>,
        key: Seq<u8>,
        range: Range,
        result: Result<Option<Self>, RedactError>,
    ) -> bool;

    /// The replacement of `range` for a salt and a key; nothing where the
    /// type declines.
    fn new(salt: &[u8], key: &[u8], range: Range) -> (result: Result<Option<Self>, RedactError>)
        ensures
            Self::made(salt@, key@, range, result),
    ;

    /// Whether `text` names the function.
    fn condition(text: &[u8]) -> (yes: bool)
        ensures
            yes == Self::accepts(text@),
    ;
}

/// Something that is known by its place in the text alone.
pub trait Position: Sized {
    /// Whether an element with this text is one.
    spec fn accepts(text: Seq<u8>) -> bool;

    /// What `new` may return for a range.
    spec fn made(range: Range, result: Option<Self>) -> bool;

    /// The replacement of `range`; nothing where the type declines.
    fn new(range: Range) -> (result: Option<Self>)
        ensures
            Self::made(range, result),
    ;

    /// Whether an element with this text is one.
    fn condition(text: &[u8]) -> (yes: bool)
        ensures
            yes == Self::accepts(text@),
    ;
}

/// The bytes of an element.
pub open spec fn text_at(content: Seq<u8>, element: Element) -> Seq<u8> {
    content.subrange(element.start as int, element.end as int)
}

/// The range of an element.
pub open spec fn range_at(element: Element) -> Range {
    Range { start: element.start, end: element.end }
}

/// The node that holds element `i`, where that node is of kind `kind`.
pub open spec fn parent_of_kind(tree: Seq<Element>, i: int, kind: u16) -> Option<int> {
    if 0 <= i < tree.len() && tree[i].parent is Some && tree[i].parent->0 < tree.len()
        && tree[tree[i].parent->0 as int].kind == kind {
        Some(tree[i].parent->0 as int)
    } else {
        None
    }
}

/// The first node in `node`.
pub open spec fn first_child_node(tree: Seq<Element>, node: int) -> Option<int> {
    next_picked(tree, node + 1, Some(node as usize), Shape::Node, Seq::empty(), false)
}

/// The application in which node `i` stands as the function: the node that
/// holds it is an application, and `i` is the first node in it.
pub open spec fn applied_in(tree: Seq<Element>, i: int) -> Option<int> {
    match parent_of_kind(tree, i, NODE_APPLY) {
        Some(apply) => if first_child_node(tree, apply) == Some(i) {
            Some(apply)
        } else {
            None
        },
        None => None,
    }
}

/// The string that `apply` holds: the first string node in it.
pub open spec fn string_argument(tree: Seq<Element>, apply: int) -> Option<int> {
    next_picked(tree, apply + 1, Some(apply as usize), Shape::Node, seq![NODE_STRING], true)
}

/// The first token of string content in the string node `string`.
pub open spec fn string_token(tree: Seq<Element>, string: int) -> Option<int> {
    next_picked(tree, string + 1, Some(string as usize), Shape::Token, seq![TOKEN_STRING_CONTENT], true)
}

/// The text of the string node `string`, as it stands between the quotes up
/// to the first interpolation; nothing for an empty string.
pub open spec fn string_text(content: Seq<u8>, tree: Seq<Element>, string: int) -> Seq<u8> {
    match string_token(tree, string) {
        Some(token) => text_at(content, tree[token]),
        None => Seq::empty(),
    }
}

/// The range of `node`, or of the parentheses that hold it.
pub open spec fn lifted_range(tree: Seq<Element>, node: int) -> Range {
    match parent_of_kind(tree, node, NODE_PAREN) {
        Some(paren) => range_at(tree[paren]),
        None => range_at(tree[node]),
    }
}

/// Where a function is applied to a key: the string that holds the key, and
/// the range that the application takes in the text.
pub struct KeySite {
    pub key: int,
    pub range: Range,
}

/// Where a function is applied to a salt and then to a key.
pub struct SaltKeySite {
    pub salt: int,
    pub key: int,
    pub range: Range,
}

/// The application of node `i` to a string, if it stands in one.
pub open spec fn key_site(tree: Seq<Element>, i: int) -> Option<KeySite> {
    match applied_in(tree, i) {
        Some(apply) => match string_argument(tree, apply) {
            Some(key) => Some(KeySite { key, range: lifted_range(tree, apply) }),
            None => None,
        },
        None => None,
    }
}

/// The application of node `i` to two strings, if it stands in one.
pub open spec fn salt_key_site(tree: Seq<Element>, i: int) -> Option<SaltKeySite> {
    match applied_in(tree, i) {
        Some(inner) => match applied_in(tree, inner) {
            Some(outer) => match (string_argument(tree, inner), string_argument(tree, outer)) {
                (Some(salt), Some(key)) => Some(
                    SaltKeySite { salt, key, range: lifted_range(tree, outer) },
                ),
                _ => None,
            },
            None => None,
        },
        None => None,
    }
}

/// The range that goes with the comment token `i`: from the end of the last
/// element before it in the same node that is no whitespace, or from the
/// comment's start where there is none, to the comment's end.
pub open spec fn comment_range(tree: Seq<Element>, i: int) -> Range {
    Range {
        start: match prev_picked(tree, i, tree[i].parent, Shape::Any, seq![TOKEN_WHITESPACE], false) {
            Some(j) => tree[j].end,
            None => tree[i].start,
        },
        end: tree[i].end,
    }
}

/// The parameter list in which node `i` is the name of an entry.
pub open spec fn pattern_of(tree: Seq<Element>, i: int) -> Option<int> {
    match parent_of_kind(tree, i, NODE_PAT_ENTRY) {
        Some(entry) => parent_of_kind(tree, entry, NODE_PATTERN),
        None => None,
    }
}

impl SyntaxTree {
    /// The bytes of element `i` in `content`.
    pub fn text<'a>(&self, content: &'a [u8], i: usize) -> (text: &'a [u8])
        requires
            self.wf(),
            self.text_len() == content@.len(),
            i < self@.len(),
        ensures
            text@ == text_at(content@, self@[i as int]),
    {
        let e = self.get(i);
        proof {
            lemma_element(self@, self.text_len(), i as int);
        }
        slice_subrange(content, e.start, e.end)
    }

    /// The node that holds element `i`, where that node is of kind `kind`.
    pub fn parent_kind(&self, i: usize, kind: u16) -> (parent: Option<usize>)
        requires
            self.wf(),
            i < self@.len(),
        ensures
            match parent {
                Some(p) => parent_of_kind(self@, i as int, kind) == Some(p as int) && p < i,
                None => parent_of_kind(self@, i as int, kind) is None,
            },
    {
        proof {
            lemma_element(self@, self.text_len(), i as int);
        }
        match self.get(i).parent {
            Some(p) => {
                if self.get(p).kind == kind {
                    Some(p)
                } else {
                    None
                }
            },
            None => None,
        }
    }

    /// The application in which node `i` stands as the function.
    fn applied(&self, i: usize) -> (apply: Option<usize>)
        requires
            self.wf(),
            i < self@.len(),
        ensures
            match apply {
                Some(a) => applied_in(self@, i as int) == Some(a as int) && a < i,
                None => applied_in(self@, i as int) is None,
            },
    {
        match self.parent_kind(i, NODE_APPLY) {
            Some(a) => {
                let none: [u16; 0] = [];
                assert(none@ =~= Seq::<u16>::empty());
                match self.find_next(a + 1, Some(a), Shape::Node, none.as_slice(), false) {
                    Some(first) => if first == i {
                        Some(a)
                    } else {
                        None
                    },
                    None => None,
                }
            },
            None => None,
        }
    }

    /// The string that the node `apply` holds.
    fn argument(&self, apply: usize) -> (string: Option<usize>)
        requires
            self.wf(),
            apply < self@.len(),
        ensures
            match string {
                Some(s) => string_argument(self@, apply as int) == Some(s as int) && s < self@.len(),
                None => string_argument(self@, apply as int) is None,
            },
    {
        let _ = self.len();
        let strings = [NODE_STRING];
        assert(strings@ =~= seq![NODE_STRING]);
        self.find_next(apply + 1, Some(apply), Shape::Node, strings.as_slice(), true)
    }

    /// The text of the string node `string` in `content`.
    fn string_bytes<'a>(&self, content: &'a [u8], string: usize) -> (text: &'a [u8])
        requires
            self.wf(),
            self.text_len() == content@.len(),
            string < self@.len(),
        ensures
            text@ == string_text(content@, self@, string as int),
    {
        let _ = self.len();
        let texts = [TOKEN_STRING_CONTENT];
        assert(texts@ =~= seq![TOKEN_STRING_CONTENT]);
        match self.find_next(string + 1, Some(string), Shape::Token, texts.as_slice(), true) {
            Some(token) => self.text(content, token),
            None => {
                let nothing = slice_subrange(content, 0, 0);
                assert(nothing@ =~= Seq::<u8>::empty());
                nothing
            },
        }
    }

    /// The range of `node`, or of the parentheses that hold it.
    fn lifted(&self, node: usize) -> (range: Range)
        requires
            self.wf(),
            node < self@.len(),
        ensures
            range == lifted_range(self@, node as int),
            range.start <= range.end <= self.text_len(),
    {
        let e = match self.parent_kind(node, NODE_PAREN) {
            Some(paren) => {
                proof {
                    lemma_element(self@, self.text_len(), paren as int);
                }
                self.get(paren)
            },
            None => {
                proof {
                    lemma_element(self@, self.text_len(), node as int);
                }
                self.get(node)
            },
        };
        e.start..e.end
    }
}


/// Whether the walker hands an element on: identifiers, comments and error
/// markers are all that the redaction reads.
pub open spec fn relevant(element: Element) -> bool {
    element.kind == NODE_IDENT || element.kind == TOKEN_COMMENT || element.kind == NODE_ERROR
        || element.kind == TOKEN_ERROR
}

/// The places are those that the walker hands on for the tree: the
/// identifiers, comments and error markers, each once, in document order.
pub open spec fn walked(tree: Seq<Element>, places: Seq<usize>) -> bool {
    &&& tree.len() <= usize::MAX
    &&& forall|k: int|
        0 <= k < places.len() ==> (#[trigger] places[k]) < tree.len() && relevant(
            tree[places[k] as int],
        )
    &&& forall|a: int, b: int|
        0 <= a < b < places.len() ==> (#[trigger] places[a]) < (#[trigger] places[b])
    &&& forall|i: int|
        0 <= i < tree.len() && relevant(#[trigger] tree[i]) ==> places.contains(i as usize)
}

/// The walker: the places of the identifiers, comments and error markers of
/// the tree, in document order.
pub fn walk_relevant(tree: &SyntaxTree) -> (places: Vec<usize>)
    ensures
        walked(tree@, places@),
{
    let n = tree.len();
    let mut places: Vec<usize> = Vec::new();
    let mut i: usize = 0;
    while i < n
        invariant
            0 <= i <= n,
            n == tree@.len(),
            forall|k: int|
                0 <= k < places@.len() ==> (#[trigger] places@[k]) < i && relevant(
                    tree@[places@[k] as int],
                ),
            forall|a: int, b: int|
                0 <= a < b < places@.len() ==> (#[trigger] places@[a]) < (#[trigger] places@[b]),
            forall|j: int|
                0 <= j < i && relevant(#[trigger] tree@[j]) ==> places@.contains(j as usize),
        decreases n - i,
    {
        let kind = tree.get(i).kind;
        if kind == NODE_IDENT || kind == TOKEN_COMMENT || kind == NODE_ERROR || kind == TOKEN_ERROR {
            let ghost before = places@;
            places.push(i);
            proof {
                assert forall|j: int|
                    0 <= j < i + 1 && relevant(#[trigger] tree@[j]) implies places@.contains(
                    j as usize,
                ) by {
                    if j < i {
                        let k = choose|k: int| 0 <= k < before.len() && before[k] == j as usize;
                        assert(places@[k] == j as usize);
                    } else {
                        assert(places@[before.len() as int] == j as usize);
                    }
                }
            }
        }
        i += 1;
    }
    places
}

/// Whether element `i` is a node-level error marker.
pub fn is_node_error(tree: &SyntaxTree, i: usize) -> (yes: bool)
    requires
        i < tree@.len(),
    ensures
        yes == (!tree@[i as int].leaf && tree@[i as int].kind == NODE_ERROR),
{
    let e = tree.get(i);
    !e.leaf && e.kind == NODE_ERROR
}

/// Whether element `i` is a token-level error marker.
pub fn is_token_error(tree: &SyntaxTree, i: usize) -> (yes: bool)
    requires
        i < tree@.len(),
    ensures
        yes == (tree@[i as int].leaf && tree@[i as int].kind == TOKEN_ERROR),
{
    let e = tree.get(i);
    e.leaf && e.kind == TOKEN_ERROR
}

/// What `parse_key_for` owes for node `i`: where the node's text names the
/// function and the node is applied to a string, what `K::new` makes of the
/// string's text, empty or not, and the range of the application; else
/// nothing.
pub open spec fn key_found<K: Key>(
    content: Seq<u8>,
    tree: Seq<Element>,
    i: int,
    result: Result<Option<K>, RedactError>,
) -> bool {
    if K::accepts(text_at(content, tree[i])) && key_site(tree, i) is Some {
        K::made(
            string_text(content, tree, key_site(tree, i)->0.key),
            key_site(tree, i)->0.range,
            result,
        )
    } else {
        result matches Ok(None)
    }
}

/// Reads node `i` as a function applied to a key.
pub fn parse_key_for<K: Key>(content: &[u8], tree: &SyntaxTree, node: usize) -> (result: Result<
    Option<K>,
    RedactError,
>)
    requires
        tree.wf(),
        tree.text_len() == content@.len(),
        node < tree@.len(),
    ensures
        key_found::<K>(content@, tree@, node as int, result),
        key_site(tree@, node as int) matches Some(site) ==> site.range.start <= site.range.end
            <= content@.len(),
{
    let apply = tree.applied(node);
    let key = match apply {
        Some(a) => tree.argument(a),
        None => None,
    };
    match (apply, key) {
        (Some(a), Some(k)) => {
            let range = tree.lifted(a);
            if !K::condition(tree.text(content, node)) {
                return Ok(None);
            }
            K::new(tree.string_bytes(content, k), range)
        },
        _ => Ok(None),
    }
}

/// What `parse_salt_and_key_for` owes for node `i`.
pub open spec fn salt_key_found<SK: SaltAndKey>(
    content: Seq<u8>,
    tree: Seq<Element>,
    i: int,
    result: Result<Option<SK>, RedactError>,
) -> bool {
    if SK::accepts(text_at(content, tree[i])) && salt_key_site(tree, i) is Some {
        SK::made(
            string_text(content, tree, salt_key_site(tree, i)->0.salt),
            string_text(content, tree, salt_key_site(tree, i)->0.key),
            salt_key_site(tree, i)->0.range,
            result,
        )
    } else {
        result matches Ok(None)
    }
}

/// Reads node `i` as a function applied to a salt and then to a key.
pub fn parse_salt_and_key_for<SK: SaltAndKey>(
    content: &[u8],
    tree: &SyntaxTree,
    node: usize,
) -> (result: Result<Option<SK>, RedactError>)
    requires
        tree.wf(),
        tree.text_len() == content@.len(),
        node < tree@.len(),
    ensures
        salt_key_found::<SK>(content@, tree@, node as int, result),
        salt_key_site(tree@, node as int) matches Some(site) ==> site.range.start <= site.range.end
            <= content@.len(),
{
    let inner = match tree.applied(node) {
        Some(a) => a,
        None => {
            return Ok(None);
        },
    };
    let outer = match tree.applied(inner) {
        Some(a) => a,
        None => {
            return Ok(None);
        },
    };
    match (tree.argument(inner), tree.argument(outer)) {
        (Some(salt), Some(key)) => {
            let range = tree.lifted(outer);
            if !SK::condition(tree.text(content, node)) {
                return Ok(None);
            }
            SK::new(tree.string_bytes(content, salt), tree.string_bytes(content, key), range)
        },
        _ => Ok(None),
    }
}

/// Whether element `i` is a comment as `P` knows one.
pub open spec fn is_comment<P: Position>(content: Seq<u8>, tree: Seq<Element>, i: int) -> bool {
    tree[i].leaf && tree[i].kind == TOKEN_COMMENT && P::accepts(text_at(content, tree[i]))
}

/// Reads token `i` as a comment.
pub fn parse_comment_for<P: Position>(content: &[u8], tree: &SyntaxTree, token: usize) -> (result:
    Option<P>)
    requires
        tree.wf(),
        tree.text_len() == content@.len(),
        token < tree@.len(),
    ensures
        if is_comment::<P>(content@, tree@, token as int) {
            P::made(comment_range(tree@, token as int), result)
        } else {
            result is None
        },
        comment_range(tree@, token as int).start <= tree@[token as int].start,
        comment_range(tree@, token as int).end <= content@.len(),
{
    let e = tree.get(token);
    let blank = [TOKEN_WHITESPACE];
    assert(blank@ =~= seq![TOKEN_WHITESPACE]);
    proof {
        lemma_element(tree@, tree.text_len(), token as int);
    }
    let start = match tree.find_prev(token, e.parent, Shape::Any, blank.as_slice(), false) {
        Some(j) => {
            proof {
                lemma_siblings(tree@, tree.text_len(), j as int, token as int);
            }
            tree.get(j).end
        },
        None => e.start,
    };
    if !(e.leaf && e.kind == TOKEN_COMMENT && P::condition(tree.text(content, token))) {
        return None;
    }
    P::new(start..e.end)
}

/// The parameter list in which node `i` is the name of an entry.
pub fn parse_pattern(tree: &SyntaxTree, node: usize) -> (pattern: Option<usize>)
    requires
        tree.wf(),
        node < tree@.len(),
    ensures
        match pattern {
            Some(p) => pattern_of(tree@, node as int) == Some(p as int) && p < node,
            None => pattern_of(tree@, node as int) is None,
        },
{
    match tree.parent_kind(node, NODE_PAT_ENTRY) {
        Some(entry) => tree.parent_kind(entry, NODE_PATTERN),
        None => None,
    }
}


/// How many nodes `node` holds among the first `upto` elements.
pub open spec fn child_nodes(tree: Seq<Element>, node: int, upto: int) -> nat
    decreases upto,
{
    if upto <= 0 || upto > tree.len() {
        0
    } else if tree[upto - 1].parent == Some(node as usize) && !tree[upto - 1].leaf {
        child_nodes(tree, node, upto - 1) + 1
    } else {
        child_nodes(tree, node, upto - 1)
    }
}

/// The nodes in `node`, among the first `upto` elements, whose text `P`
/// accepts.
pub open spec fn entries<P: Position>(
    content: Seq<u8>,
    tree: Seq<Element>,
    node: int,
    upto: int,
) -> Seq<int>
    decreases upto,
{
    if upto <= 0 || upto > tree.len() {
        Seq::empty()
    } else if tree[upto - 1].parent == Some(node as usize) && !tree[upto - 1].leaf && P::accepts(
        text_at(content, tree[upto - 1]),
    ) {
        entries::<P>(content, tree, node, upto - 1).push(upto - 1)
    } else {
        entries::<P>(content, tree, node, upto - 1)
    }
}

/// From the start of the parameter list `node` to the next element of the
/// same node that is neither whitespace nor a colon; to the list's end where
/// there is none.
pub open spec fn whole_range(tree: Seq<Element>, node: int) -> Range {
    Range {
        start: tree[node].start,
        end: match next_picked(
            tree,
            node + 1,
            tree[node].parent,
            Shape::Any,
            seq![TOKEN_WHITESPACE, TOKEN_COLON],
            false,
        ) {
            Some(k) => tree[k].start,
            None => tree[node].end,
        },
    }
}

/// From the start of `entry` to the next entry, ellipsis or closing brace of
/// the same list; to the entry's end where there is none.
pub open spec fn entry_range(tree: Seq<Element>, entry: int) -> Range {
    Range {
        start: tree[entry].start,
        end: match next_picked(
            tree,
            entry + 1,
            tree[entry].parent,
            Shape::Any,
            seq![NODE_PAT_ENTRY, TOKEN_ELLIPSIS, TOKEN_R_BRACE],
            true,
        ) {
            Some(k) => tree[k].start,
            None => tree[entry].end,
        },
    }
}

/// Every node in the parameter list `node` has a text that `P` accepts.
pub open spec fn all_accepted<P: Position>(
    content: Seq<u8>,
    tree: Seq<Element>,
    node: int,
) -> bool {
    child_nodes(tree, node, tree.len() as int) == entries::<P>(
        content,
        tree,
        node,
        tree.len() as int,
    ).len()
}

/// The ranges to take out of the parameter list `node`: the whole list with
/// what follows it, where `P` accepts every node in it; else each accepted
/// entry with what follows it.
pub open spec fn pattern_ranges<P: Position>(
    content: Seq<u8>,
    tree: Seq<Element>,
    node: int,
) -> Seq<Range> {
    if all_accepted::<P>(content, tree, node) {
        seq![whole_range(tree, node)]
    } else {
        Seq::new(
            entries::<P>(content, tree, node, tree.len() as int).len(),
            |k: int| entry_range(tree, entries::<P>(content, tree, node, tree.len() as int)[k]),
        )
    }
}

/// What `resolve_pattern_for` owes: one `P` for each range, as `P::new`
/// makes it, or nothing where `P::new` declines one of them.
pub open spec fn pattern_resolved<P: Position>(ranges: Seq<Range>, result: Option<Vec<P>>) -> bool {
    match result {
        Some(v) => v@.len() == ranges.len() && forall|k: int|
            0 <= k < ranges.len() ==> P::made(#[trigger] ranges[k], Some(v@[k])),
        None => exists|k: int| 0 <= k < ranges.len() && P::made(#[trigger] ranges[k], None),
    }
}

/// The range from the start of element `i` to the start of the element that
/// a search from `i` onward in the same node stops at.
fn until_next(tree: &SyntaxTree, i: usize, kinds: &[u16], among: bool) -> (range: Range)
    requires
        tree.wf(),
        i < tree@.len(),
    ensures
        range.start == tree@[i as int].start,
        range.end == match next_picked(
            tree@,
            i + 1,
            tree@[i as int].parent,
            Shape::Any,
            kinds@,
            among,
        ) {
            Some(k) => tree@[k].start,
            None => tree@[i as int].end,
        },
        range.start <= tree@[i as int].end <= range.end <= tree.text_len(),
{
    let _ = tree.len();
    let e = tree.get(i);
    proof {
        lemma_element(tree@, tree.text_len(), i as int);
    }
    let end = match tree.find_next(i + 1, e.parent, Shape::Any, kinds, among) {
        Some(k) => {
            proof {
                lemma_element(tree@, tree.text_len(), k as int);
                lemma_siblings(tree@, tree.text_len(), i as int, k as int);
            }
            tree.get(k).start
        },
        None => e.end,
    };
    e.start..end
}

/// Counts the nodes in `node` and collects those whose text `P` accepts.
fn accepted_entries<P: Position>(content: &[u8], tree: &SyntaxTree, node: usize) -> (found: (
    usize,
    Vec<usize>,
))
    requires
        tree.wf(),
        tree.text_len() == content@.len(),
    ensures
        found.0 == child_nodes(tree@, node as int, tree@.len() as int),
        found.1@.map_values(|x: usize| x as int) == entries::<P>(
            content@,
            tree@,
            node as int,
            tree@.len() as int,
        ),
        forall|k: int| 0 <= k < found.1@.len() ==> (#[trigger] found.1@[k]) < tree@.len(),
{
    let n = tree.len();
    let mut children: usize = 0;
    let mut found: Vec<usize> = Vec::new();
    let mut j: usize = 0;
    while j < n
        invariant
            0 <= j <= n,
            n == tree@.len(),
            tree.wf(),
            tree.text_len() == content@.len(),
            children == child_nodes(tree@, node as int, j as int),
            children <= j,
            found@.map_values(|x: usize| x as int) == entries::<P>(content@, tree@, node as int, j as int),
            forall|k: int| 0 <= k < found@.len() ==> (#[trigger] found@[k]) < n,
        decreases n - j,
    {
        let e = tree.get(j);
        if e.parent == Some(node) && !e.leaf {
            children += 1;
            if P::condition(tree.text(content, j)) {
                found.push(j);
                proof {
                    assert(found@.map_values(|x: usize| x as int) =~= entries::<P>(
                        content@,
                        tree@,
                        node as int,
                        j as int,
                    ).push(j as int));
                }
            }
        }
        j += 1;
    }
    (children, found)
}

/// Makes a `P` for the range of each entry.
fn resolve_entries<P: Position>(tree: &SyntaxTree, found: &Vec<usize>) -> (result: Option<Vec<P>>)
    requires
        tree.wf(),
        forall|k: int| 0 <= k < found@.len() ==> (#[trigger] found@[k]) < tree@.len(),
    ensures
        pattern_resolved::<P>(
            Seq::new(found@.len(), |k: int| entry_range(tree@, found@[k] as int)),
            result,
        ),
{
    let stops = [NODE_PAT_ENTRY, TOKEN_ELLIPSIS, TOKEN_R_BRACE];
    assert(stops@ =~= seq![NODE_PAT_ENTRY, TOKEN_ELLIPSIS, TOKEN_R_BRACE]);
    let ghost ranges = Seq::new(found@.len(), |k: int| entry_range(tree@, found@[k] as int));
    let mut out: Vec<P> = Vec::new();
    let mut k: usize = 0;
    while k < found.len()
        invariant
            0 <= k <= found@.len(),
            tree.wf(),
            stops@ == seq![NODE_PAT_ENTRY, TOKEN_ELLIPSIS, TOKEN_R_BRACE],
            forall|i: int| 0 <= i < found@.len() ==> (#[trigger] found@[i]) < tree@.len(),
            ranges == Seq::new(found@.len(), |k: int| entry_range(tree@, found@[k] as int)),
            out@.len() == k,
            forall|i: int| 0 <= i < k ==> P::made(#[trigger] ranges[i], Some(out@[i])),
        decreases found@.len() - k,
    {
        let range = until_next(tree, found[k], stops.as_slice(), true);
        assert(ranges[k as int] == range);
        match P::new(range) {
            Some(p) => {
                out.push(p);
            },
            None => {
                assert(P::made(ranges[k as int], None));
                return None;
            },
        }
        k += 1;
    }
    Some(out)
}

/// Resolves the parameter list `node` into what is to be taken out of it.
pub fn resolve_pattern_for<P: Position>(content: &[u8], tree: &SyntaxTree, node: usize) -> (result:
    Option<Vec<P>>)
    requires
        tree.wf(),
        tree.text_len() == content@.len(),
        node < tree@.len(),
    ensures
        pattern_resolved::<P>(pattern_ranges::<P>(content@, tree@, node as int), result),
{
    let (children, found) = accepted_entries::<P>(content, tree, node);
    let ghost ranges = pattern_ranges::<P>(content@, tree@, node as int);
    let ghost es = entries::<P>(content@, tree@, node as int, tree@.len() as int);
    assert(found@.len() == es.len());
    if children == found.len() {
        let skipped = [TOKEN_WHITESPACE, TOKEN_COLON];
        assert(skipped@ =~= seq![TOKEN_WHITESPACE, TOKEN_COLON]);
        let range = until_next(tree, node, skipped.as_slice(), false);
        assert(ranges[0] == range);
        match P::new(range) {
            Some(p) => {
                let mut out: Vec<P> = Vec::new();
                out.push(p);
                Some(out)
            },
            None => None,
        }
    } else {
        proof {
            assert forall|k: int| 0 <= k < found@.len() implies es[k] == found@[k] as int by {
                assert(found@.map_values(|x: usize| x as int)[k] == found@[k] as int);
            }
            assert(ranges =~= Seq::new(found@.len(), |k: int| entry_range(tree@, found@[k] as int)));
        }
        resolve_entries::<P>(tree, &found)
    }
}

/// Each range of a parameter list lies in the text.
pub proof fn lemma_pattern_ranges_bounds<P: Position>(
    content: Seq<u8>,
    tree: Seq<Element>,
    node: int,
    k: int,
)
    requires
        super::syntax::well_formed(tree, content.len() as int),
        0 <= node < tree.len(),
        0 <= k < pattern_ranges::<P>(content, tree, node).len(),
    ensures
        pattern_ranges::<P>(content, tree, node)[k].start <= pattern_ranges::<P>(
            content,
            tree,
            node,
        )[k].end <= content.len(),
{
    if all_accepted::<P>(content, tree, node) {
        lemma_until_next(tree, content.len() as int, node, seq![TOKEN_WHITESPACE, TOKEN_COLON], false);
    } else {
        lemma_entries_inside::<P>(content, tree, node, tree.len() as int, k);
        lemma_entry_range_bounds(
            tree,
            content.len() as int,
            entries::<P>(content, tree, node, tree.len() as int)[k],
        );
    }
}

/// The entries are elements of the tree, nodes in `node` that `P` accepts.
pub proof fn lemma_entries_inside<P: Position>(
    content: Seq<u8>,
    tree: Seq<Element>,
    node: int,
    upto: int,
    k: int,
)
    requires
        0 <= k < entries::<P>(content, tree, node, upto).len(),
    ensures
        0 <= entries::<P>(content, tree, node, upto)[k] < upto <= tree.len(),
        tree[entries::<P>(content, tree, node, upto)[k]].parent == Some(node as usize),
        !tree[entries::<P>(content, tree, node, upto)[k]].leaf,
        P::accepts(text_at(content, tree[entries::<P>(content, tree, node, upto)[k]])),
    decreases upto,
{
    if upto <= 0 || upto > tree.len() {
    } else {
        let rest = entries::<P>(content, tree, node, upto - 1);
        if k < rest.len() {
            lemma_entries_inside::<P>(content, tree, node, upto - 1, k);
        }
    }
}

/// An entry's range lies in the text.
proof fn lemma_entry_range_bounds(tree: Seq<Element>, len: int, entry: int)
    requires
        super::syntax::well_formed(tree, len),
        0 <= entry < tree.len(),
    ensures
        entry_range(tree, entry).start <= entry_range(tree, entry).end <= len,
{
    lemma_until_next(tree, len, entry, seq![NODE_PAT_ENTRY, TOKEN_ELLIPSIS, TOKEN_R_BRACE], true);
}

/// The next element of the same node begins where element `i` ends, or
/// later, and in the text.
pub proof fn lemma_until_next(tree: Seq<Element>, len: int, i: int, kinds: Seq<u16>, among: bool)
    requires
        well_formed(tree, len),
        0 <= i < tree.len(),
    ensures
        tree[i].start <= tree[i].end <= len,
        next_picked(tree, i + 1, tree[i].parent, Shape::Any, kinds, among) matches Some(k) ==> i < k
            < tree.len() && tree[i].end <= tree[k].start <= len,
{
    lemma_element(tree, len, i);
    lemma_next_picked(tree, i + 1, tree[i].parent, Shape::Any, kinds, among);
    if let Some(k) = next_picked(tree, i + 1, tree[i].parent, Shape::Any, kinds, among) {
        lemma_element(tree, len, k);
        lemma_siblings(tree, len, i, k);
    }
}

/// What a search finds lies at `from` or behind it, and the search stops at it.
pub proof fn lemma_next_picked(
    tree: Seq<Element>,
    from: int,
    parent: Option<usize>,
    shape: Shape,
    kinds: Seq<u16>,
    among: bool,
)
    ensures
        next_picked(tree, from, parent, shape, kinds, among) matches Some(j) ==> from <= j < tree.len()
            && super::syntax::picked(tree[j], parent, shape, kinds, among),
    decreases tree.len() - from,
{
    if 0 <= from < tree.len() && !super::syntax::picked(tree[from], parent, shape, kinds, among) {
        lemma_next_picked(tree, from + 1, parent, shape, kinds, among);
    }
}


/// What a search backwards finds lies before `below`, and the search stops
/// at it.
pub proof fn lemma_prev_picked(
    tree: Seq<Element>,
    below: int,
    parent: Option<usize>,
    shape: Shape,
    kinds: Seq<u16>,
    among: bool,
)
    ensures
        prev_picked(tree, below, parent, shape, kinds, among) matches Some(j) ==> 0 <= j < below
            <= tree.len() && super::syntax::picked(tree[j], parent, shape, kinds, among),
    decreases below,
{
    if 0 < below <= tree.len() && !super::syntax::picked(tree[below - 1], parent, shape, kinds, among) {
        lemma_prev_picked(tree, below - 1, parent, shape, kinds, among);
    }
}

/// Whether a range begins and ends between two characters of the text.
pub open spec fn range_on_boundaries(range: Range, content: Seq<u8>) -> bool {
    is_char_boundary(content, range.start as int) && is_char_boundary(content, range.end as int)
}

/// The range of a node, or of the parentheses that hold it, cuts no
/// character in two.
pub proof fn lemma_lifted_on_boundaries(tree: Seq<Element>, content: Seq<u8>, node: int)
    requires
        on_boundaries(tree, content),
        0 <= node < tree.len(),
    ensures
        range_on_boundaries(lifted_range(tree, node), content),
{
    if let Some(paren) = parent_of_kind(tree, node, NODE_PAREN) {
        assert(is_char_boundary(content, tree[paren].start as int));
    } else {
        assert(is_char_boundary(content, tree[node].start as int));
    }
}

/// The range that goes with a comment cuts no character in two.
pub proof fn lemma_comment_on_boundaries(tree: Seq<Element>, content: Seq<u8>, i: int)
    requires
        on_boundaries(tree, content),
        0 <= i < tree.len(),
    ensures
        range_on_boundaries(comment_range(tree, i), content),
{
    lemma_prev_picked(tree, i, tree[i].parent, Shape::Any, seq![TOKEN_WHITESPACE], false);
    assert(is_char_boundary(content, tree[i].start as int));
    if let Some(j) = prev_picked(tree, i, tree[i].parent, Shape::Any, seq![TOKEN_WHITESPACE], false) {
        assert(is_char_boundary(content, tree[j].end as int));
    }
}

/// The ranges of a parameter list cut no character in two.
pub proof fn lemma_pattern_ranges_on_boundaries<P: Position>(
    content: Seq<u8>,
    tree: Seq<Element>,
    node: int,
    k: int,
)
    requires
        on_boundaries(tree, content),
        0 <= node < tree.len(),
        0 <= k < pattern_ranges::<P>(content, tree, node).len(),
    ensures
        range_on_boundaries(pattern_ranges::<P>(content, tree, node)[k], content),
{
    if all_accepted::<P>(content, tree, node) {
        let kinds = seq![TOKEN_WHITESPACE, TOKEN_COLON];
        lemma_next_picked(tree, node + 1, tree[node].parent, Shape::Any, kinds, false);
        assert(is_char_boundary(content, tree[node].start as int));
        if let Some(next) = next_picked(tree, node + 1, tree[node].parent, Shape::Any, kinds, false) {
            assert(is_char_boundary(content, tree[next].start as int));
        }
    } else {
        lemma_entries_inside::<P>(content, tree, node, tree.len() as int, k);
        let entry = entries::<P>(content, tree, node, tree.len() as int)[k];
        let kinds = seq![NODE_PAT_ENTRY, TOKEN_ELLIPSIS, TOKEN_R_BRACE];
        lemma_next_picked(tree, entry + 1, tree[entry].parent, Shape::Any, kinds, true);
        assert(is_char_boundary(content, tree[entry].start as int));
        if let Some(next) = next_picked(tree, entry + 1, tree[entry].parent, Shape::Any, kinds, true) {
            assert(is_char_boundary(content, tree[next].start as int));
        }
    }
}

} // verus!
