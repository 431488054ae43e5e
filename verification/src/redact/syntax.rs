//! The syntax tree of a Nix text as the redaction rules read it: the elements
//! in document order, each with its kind, its byte range and its parent.

use vstd::prelude::*;

verus! {

/// A comment. The kinds of elements are known by the numbers that the
/// parser gives them; these are the kinds that the redaction reads.
pub const TOKEN_COMMENT: u16 = 0;

/// Text that the tokenizer could not read.
pub const TOKEN_ERROR: u16 = 1;

/// Blank space.
pub const TOKEN_WHITESPACE: u16 = 2;

/// A closing brace.
pub const TOKEN_R_BRACE: u16 = 14;

/// A colon.
pub const TOKEN_COLON: u16 = 19;

/// The ellipsis of a parameter list.
pub const TOKEN_ELLIPSIS: u16 = 22;

/// The text of a string, between its quotes.
pub const TOKEN_STRING_CONTENT: u16 = 50;

/// A function applied to an argument.
pub const NODE_APPLY: u16 = 53;

/// What the parser could not read.
pub const NODE_ERROR: u16 = 57;

/// An identifier.
pub const NODE_IDENT: u16 = 58;

/// A string.
pub const NODE_STRING: u16 = 63;

/// An expression in parentheses.
pub const NODE_PAREN: u16 = 71;

/// The parameter list of a function: names between braces.
pub const NODE_PATTERN: u16 = 72;

/// An entry of a parameter list.
pub const NODE_PAT_ENTRY: u16 = 74;

/// One step of a walk through a syntax tree in document order: the walk
/// enters an element, or leaves it when all that it holds has been walked.
#[derive(Clone, Copy, Debug, PartialEq, Eq, Structural)]
pub struct Step {
    /// Entering, as opposed to leaving.
    pub enter: bool,
    /// The element is a token: it holds text and no other element.
    pub leaf: bool,
    pub kind: u16,
    /// Where the element's text begins, in bytes from the start of the text.
    pub start: usize,
    /// Where it ends.
    pub end: usize,
}

/// An element of a syntax tree: a node, or a token.
#[derive(Clone, Copy, Debug, PartialEq, Eq, Structural)]
pub struct Element {
    pub kind: u16,
    pub leaf: bool,
    pub start: usize,
    pub end: usize,
    /// The node that holds the element, by its place in the tree; the root
    /// has none.
    pub parent: Option<usize>,
}

/// Whether a search looks at nodes, at tokens, or at both.
#[derive(Clone, Copy, Debug, PartialEq, Eq, Structural)]
pub enum Shape {
    Any,
    Node,
    Token,
}

/// Whether a search stops at `element`: it lies in `parent`, has the shape
/// asked for, and its kind is one of `kinds` (or none of them, where `among`
/// is false).
pub open spec fn picked(
    element: Element,
    parent: Option<usize>,
    shape: Shape,
    kinds: Seq<u16>,
    among: bool,
) -> bool {
    &&& element.parent == parent
    &&& match shape {
        Shape::Any => true,
        Shape::Node => !element.leaf,
        Shape::Token => element.leaf,
    }
    &&& kinds.contains(element.kind) == among
}

/// The first element at `from` or behind it at which a search stops.
pub open spec fn next_picked(
    elements: Seq<Element>,
    from: int,
    parent: Option<usize>,
    shape: Shape,
    kinds: Seq<u16>,
    among: bool,
) -> Option<int>
    decreases elements.len() - from,
{
    if from < 0 || from >= elements.len() {
        None
    } else if picked(elements[from], parent, shape, kinds, among) {
        Some(from)
    } else {
        next_picked(elements, from + 1, parent, shape, kinds, among)
    }
}

/// The last element before `below` at which a search stops.
pub open spec fn prev_picked(
    elements: Seq<Element>,
    below: int,
    parent: Option<usize>,
    shape: Shape,
    kinds: Seq<u16>,
    among: bool,
) -> Option<int>
    decreases below,
{
    if below <= 0 || below > elements.len() {
        None
    } else if picked(elements[below - 1], parent, shape, kinds, among) {
        Some(below - 1)
    } else {
        prev_picked(elements, below - 1, parent, shape, kinds, among)
    }
}

/// A walk in progress: the elements entered so far, those not yet left, the
/// innermost last, and how far into the text the walk has come.
pub struct Walk {
    pub elements: Seq<Element>,
    pub open: Seq<usize>,
    pub pos: int,
}

/// The element that `step` speaks of, as a part of `parent`.
pub open spec fn element_of(step: Step, parent: Option<usize>) -> Element {
    Element { kind: step.kind, leaf: step.leaf, start: step.start, end: step.end, parent }
}

/// Whether a walk that has come to `walk` may enter the element of `step`:
/// it begins where the walk stands, and lies in the text and in the innermost
/// open element, which is a node. Without an open element it is the root,
/// the first element of all. The elements can be counted in a `usize`.
pub open spec fn may_enter(walk: Walk, step: Step, len: int) -> bool {
    &&& step.start == walk.pos
    &&& step.start <= step.end <= len
    &&& walk.elements.len() < usize::MAX
    &&& if walk.open.len() == 0 {
        walk.elements.len() == 0
    } else {
        &&& walk.open.last() < walk.elements.len()
        &&& !walk.elements[walk.open.last() as int].leaf
        &&& step.end <= walk.elements[walk.open.last() as int].end
    }
}

/// Whether a walk that has come to `walk` may leave the element of `step`:
/// it is the innermost open element, and the walk has come to its end (to its
/// start, for a token: the walk passes a token's text on leaving it).
pub open spec fn may_leave(walk: Walk, step: Step) -> bool {
    &&& walk.open.len() > 0
    &&& walk.open.last() < walk.elements.len()
    &&& element_of(step, walk.elements[walk.open.last() as int].parent)
        == walk.elements[walk.open.last() as int]
    &&& walk.pos == if step.leaf {
        step.start as int
    } else {
        step.end as int
    }
}

/// The walk after one more step, if the step fits.
pub open spec fn advance(walk: Walk, step: Step, len: int) -> Option<Walk> {
    if step.enter {
        if may_enter(walk, step, len) {
            let parent = if walk.open.len() == 0 {
                None
            } else {
                Some(walk.open.last())
            };
            Some(
                Walk {
                    elements: walk.elements.push(element_of(step, parent)),
                    open: walk.open.push(walk.elements.len() as usize),
                    pos: walk.pos,
                },
            )
        } else {
            None
        }
    } else {
        if may_leave(walk, step) {
            Some(Walk { elements: walk.elements, open: walk.open.drop_last(), pos: step.end as int })
        } else {
            None
        }
    }
}

/// The walk after `steps`, if each step fits.
pub open spec fn replay(steps: Seq<Step>, len: int) -> Option<Walk>
    decreases steps.len(),
{
    if steps.len() == 0 {
        Some(Walk { elements: Seq::empty(), open: Seq::empty(), pos: 0 })
    } else {
        match replay(steps.drop_last(), len) {
            Some(walk) => advance(walk, steps.last(), len),
            None => None,
        }
    }
}

/// The elements of the tree that `steps` walks through, for a text of `len`
/// bytes: each step fits, every element is left again, and the walk ends at
/// the end of the text.
pub open spec fn tree_of(steps: Seq<Step>, len: int) -> Option<Seq<Element>> {
    match replay(steps, len) {
        Some(walk) => if walk.open.len() == 0 && walk.pos == len && walk.elements.len() > 0 {
            Some(walk.elements)
        } else {
            None
        },
        None => None,
    }
}

/// The elements make a tree over a text of `len` bytes: they can be counted
/// in a `usize`, the first is the root, every other lies in a node that
/// comes before it and within that node's range, and elements of one node
/// follow one another in the text.
#[verifier::opaque]
pub open spec fn well_formed(elements: Seq<Element>, len: int) -> bool {
    &&& 0 < elements.len() <= usize::MAX
    &&& elements[0].parent is None
    &&& forall|i: int| 0 <= i < elements.len() ==> (#[trigger] elements[i]).start <= elements[i].end <= len
    &&& forall|i: int|
        0 < i < elements.len() ==> {
            &&& (#[trigger] elements[i]).parent is Some
            &&& elements[i].parent->0 < i
            &&& !elements[elements[i].parent->0 as int].leaf
            &&& elements[elements[i].parent->0 as int].start <= elements[i].start
            &&& elements[i].end <= elements[elements[i].parent->0 as int].end
        }
    &&& forall|i: int, j: int|
        0 <= i < j < elements.len() && (#[trigger] elements[i]).parent == (#[trigger] elements[j]).parent
            ==> elements[i].end <= elements[j].start
}

/// What holds of each element of a well-formed tree: its range lies in the
/// text, and in the node that holds it, which comes before it.
pub proof fn lemma_element(elements: Seq<Element>, len: int, i: int)
    requires
        well_formed(elements, len),
        0 <= i < elements.len(),
    ensures
        elements.len() <= usize::MAX,
        elements[i].start <= elements[i].end <= len,
        elements[0].parent is None,
        i > 0 ==> elements[i].parent is Some,
        elements[i].parent matches Some(p) ==> p < i && !elements[p as int].leaf && elements[p as int].start
            <= elements[i].start && elements[i].end <= elements[p as int].end,
{
    reveal(well_formed);
}

/// Of two elements of one node, the first ends before the second begins.
pub proof fn lemma_siblings(elements: Seq<Element>, len: int, i: int, j: int)
    requires
        well_formed(elements, len),
        0 <= i < j < elements.len(),
        elements[i].parent == elements[j].parent,
    ensures
        elements[i].end <= elements[j].start,
{
    reveal(well_formed);
}

/// A syntax tree over a text.
pub struct SyntaxTree {
    elements: Vec<Element>,
    len: usize,
}

impl View for SyntaxTree {
    type V = Seq<Element>;

    closed spec fn view(&self) -> Seq<Element> {
        self.elements@
    }
}

impl SyntaxTree {
    /// The number of bytes of the text that the tree stands over.
    pub closed spec fn text_len(&self) -> int {
        self.len as int
    }

    /// The tree is well formed over its text.
    pub open spec fn wf(&self) -> bool {
        well_formed(self@, self.text_len())
    }

    /// Builds the tree from a walk through it in document order. There is no
    /// tree where a step does not fit the steps before it, where an element
    /// is never left, or where the walk does not end at `len`.
    pub fn build(steps: &Vec<Step>, len: usize) -> (tree: Option<SyntaxTree>)
        ensures
            match tree {
                Some(t) => tree_of(steps@, len as int) == Some(t@) && t.text_len() == len && t.wf(),
                None => tree_of(steps@, len as int) is None,
            },
    {
        let mut elements: Vec<Element> = Vec::new();
        let mut open: Vec<usize> = Vec::new();
        let mut pos: usize = 0;
        let mut k: usize = 0;
        proof {
            assert(steps@.take(0) =~= Seq::<Step>::empty());
            lemma_replay_walking(steps@.take(0), len as int);
        }
        while k < steps.len()
            invariant
                0 <= k <= steps.len(),
                replay(steps@.take(k as int), len as int) == Some(
                    Walk { elements: elements@, open: open@, pos: pos as int },
                ),
                walking(Walk { elements: elements@, open: open@, pos: pos as int }, len as int),
            decreases steps.len() - k,
        {
            let step = steps[k];
            let ghost walk = Walk { elements: elements@, open: open@, pos: pos as int };
            proof {
                lemma_walking_facts(walk, len as int);
                assert(steps@.take(k + 1).drop_last() =~= steps@.take(k as int));
                assert(steps@.take(k + 1).last() == step);
                if advance(walk, step, len as int) is None {
                    lemma_replay_stuck(steps@, len as int, k + 1);
                } else {
                    lemma_advance_walking(walk, step, len as int);
                }
            }
            if step.enter {
                if !(step.start == pos && step.start <= step.end && step.end <= len && elements.len()
                    < usize::MAX) {
                    return None;
                }
                let parent = if open.len() == 0 {
                    if elements.len() != 0 {
                        return None;
                    }
                    None
                } else {
                    let top = open[open.len() - 1];
                    if elements[top].leaf || step.end > elements[top].end {
                        return None;
                    }
                    Some(top)
                };
                open.push(elements.len());
                elements.push(
                    Element { kind: step.kind, leaf: step.leaf, start: step.start, end: step.end, parent },
                );
            } else {
                if open.len() == 0 {
                    return None;
                }
                let top = open[open.len() - 1];
                let e = elements[top];
                let at = if step.leaf {
                    step.start
                } else {
                    step.end
                };
                if !(step.kind == e.kind && step.leaf == e.leaf && step.start == e.start && step.end
                    == e.end && pos == at) {
                    return None;
                }
                open.pop();
                pos = step.end;
                proof {
                    assert(open@ =~= walk.open.drop_last());
                }
            }
            k += 1;
        }
        proof {
            assert(steps@.take(k as int) =~= steps@);
            lemma_walking_facts(Walk { elements: elements@, open: open@, pos: pos as int }, len as int);
        }
        if open.len() == 0 && pos == len && elements.len() > 0 {
            Some(SyntaxTree { elements, len })
        } else {
            None
        }
    }

    /// The number of elements.
    pub fn len(&self) -> (n: usize)
        ensures
            n == self@.len(),
    {
        self.elements.len()
    }

    /// Whether a search stops at the element at place `i`.
    fn picks(&self, i: usize, parent: Option<usize>, shape: Shape, kinds: &[u16], among: bool) -> (yes:
        bool)
        requires
            i < self@.len(),
        ensures
            yes == picked(self@[i as int], parent, shape, kinds@, among),
    {
        let e = self.elements[i];
        let fits = match shape {
            Shape::Any => true,
            Shape::Node => !e.leaf,
            Shape::Token => e.leaf,
        };
        if !fits || e.parent != parent {
            return false;
        }
        let mut found = false;
        let mut k: usize = 0;
        while k < kinds.len()
            invariant
                0 <= k <= kinds.len(),
                found == kinds@.take(k as int).contains(e.kind),
            decreases kinds.len() - k,
        {
            proof {
                let upto = kinds@.take(k as int);
                let next = kinds@.take(k + 1);
                assert(next =~= upto.push(kinds@[k as int]));
                if upto.contains(e.kind) {
                    let w = choose|w: int| 0 <= w < upto.len() && upto[w] == e.kind;
                    assert(next[w] == e.kind);
                }
                if kinds@[k as int] == e.kind {
                    assert(next[k as int] == e.kind);
                }
            }
            if kinds[k] == e.kind {
                found = true;
            }
            k += 1;
        }
        proof {
            assert(kinds@.take(k as int) =~= kinds@);
        }
        found == among
    }

    /// The first element at `from` or behind it that lies in `parent`, has
    /// the shape asked for, and a kind among `kinds` (or not among them,
    /// where `among` is false).
    pub fn find_next(
        &self,
        from: usize,
        parent: Option<usize>,
        shape: Shape,
        kinds: &[u16],
        among: bool,
    ) -> (found: Option<usize>)
        ensures
            match found {
                Some(j) => next_picked(self@, from as int, parent, shape, kinds@, among) == Some(
                    j as int,
                ) && from <= j < self@.len() && picked(self@[j as int], parent, shape, kinds@, among),
                None => next_picked(self@, from as int, parent, shape, kinds@, among) is None,
            },
    {
        let mut j = from;
        while j < self.elements.len()
            invariant
                from <= j,
                next_picked(self@, from as int, parent, shape, kinds@, among) == next_picked(
                    self@,
                    j as int,
                    parent,
                    shape,
                    kinds@,
                    among,
                ),
            decreases self.elements.len() - j,
        {
            if self.picks(j, parent, shape, kinds, among) {
                return Some(j);
            }
            j += 1;
        }
        None
    }

    /// The last element before `below` that lies in `parent`, has the shape
    /// asked for, and a kind among `kinds` (or not among them, where `among`
    /// is false).
    pub fn find_prev(
        &self,
        below: usize,
        parent: Option<usize>,
        shape: Shape,
        kinds: &[u16],
        among: bool,
    ) -> (found: Option<usize>)
        ensures
            match found {
                Some(j) => prev_picked(self@, below as int, parent, shape, kinds@, among) == Some(
                    j as int,
                ) && j < below && j < self@.len() && picked(
                    self@[j as int],
                    parent,
                    shape,
                    kinds@,
                    among,
                ),
                None => prev_picked(self@, below as int, parent, shape, kinds@, among) is None,
            },
    {
        if below > self.elements.len() {
            return None;
        }
        let mut j = below;
        while j > 0
            invariant
                j <= below <= self@.len(),
                prev_picked(self@, below as int, parent, shape, kinds@, among) == prev_picked(
                    self@,
                    j as int,
                    parent,
                    shape,
                    kinds@,
                    among,
                ),
            decreases j,
        {
            if self.picks(j - 1, parent, shape, kinds, among) {
                return Some(j - 1);
            }
            j -= 1;
        }
        None
    }

    /// The element at place `i` in document order.
    pub fn get(&self, i: usize) -> (element: Element)
        requires
            i < self@.len(),
        ensures
            element == self@[i as int],
    {
        self.elements[i]
    }
}

/// Once a step does not fit, no walk goes on.
proof fn lemma_replay_stuck(steps: Seq<Step>, len: int, k: int)
    requires
        0 <= k <= steps.len(),
        replay(steps.take(k), len) is None,
    ensures
        replay(steps, len) is None,
    decreases steps.len() - k,
{
    if k < steps.len() {
        assert(steps.take(k + 1).drop_last() =~= steps.take(k));
        lemma_replay_stuck(steps, len, k + 1);
    } else {
        assert(steps.take(k) =~= steps);
    }
}

/// What holds of a walk in progress, beside what `replay` says.
#[verifier::opaque]
spec fn walking(walk: Walk, len: int) -> bool {
    let elements = walk.elements;
    let open = walk.open;
    &&& 0 <= walk.pos <= len
    &&& elements.len() <= usize::MAX
    &&& elements.len() > 0 ==> elements[0].parent is None
    &&& open.len() > 0 ==> elements.len() > 0 && open[0] == 0
    &&& forall|k: int| 0 <= k < open.len() ==> (#[trigger] open[k]) < elements.len()
    &&& forall|k: int|
        0 < k < open.len() ==> open[k - 1] < (#[trigger] open[k]) && elements[open[k] as int].parent
            == Some(open[k - 1])
    &&& forall|k: int|
        0 <= k < open.len() ==> elements[(#[trigger] open[k]) as int].start <= walk.pos
            <= elements[open[k] as int].end
    &&& forall|i: int| 0 <= i < elements.len() ==> (#[trigger] elements[i]).start <= elements[i].end <= len
    &&& forall|i: int|
        0 <= i < elements.len() ==> (#[trigger] elements[i]).end <= walk.pos || open.contains(i as usize)
    &&& forall|i: int|
        0 < i < elements.len() ==> {
            &&& (#[trigger] elements[i]).parent is Some
            &&& elements[i].parent->0 < i
            &&& !elements[elements[i].parent->0 as int].leaf
            &&& elements[elements[i].parent->0 as int].start <= elements[i].start
            &&& elements[i].end <= elements[elements[i].parent->0 as int].end
        }
    &&& forall|i: int, j: int|
        0 <= i < j < elements.len() && (#[trigger] elements[i]).parent == (#[trigger] elements[j]).parent
            ==> elements[i].end <= elements[j].start
}

proof fn lemma_enter_walking(walk: Walk, step: Step, len: int)
    requires
        walking(walk, len),
        step.enter,
        advance(walk, step, len) is Some,
    ensures
        walking(advance(walk, step, len)->0, len),
{
    reveal(walking);
    let next = advance(walk, step, len)->0;
    let elements = walk.elements;
    let open = walk.open;
    let n = elements.len() as int;
    assert(next.open.len() == open.len() + 1);
    assert(next.open[open.len() as int] == n as usize);
    assert forall|k: int| 0 <= k < open.len() implies next.open[k] == open[k] by {}
    assert forall|i: int| 0 <= i < n implies next.elements[i] == elements[i] by {}
    assert forall|k: int| 0 <= k < next.open.len() implies (#[trigger] next.open[k])
        < next.elements.len() by {
        if k < open.len() {
            assert(open[k] < elements.len());
        }
    }
    assert forall|k: int| 0 < k < next.open.len() implies next.open[k - 1] < (#[trigger] next.open[k])
        && next.elements[next.open[k] as int].parent == Some(next.open[k - 1]) by {
        if k < open.len() {
            assert(open[k - 1] < open[k]);
        } else {
            assert(open[k - 1] < elements.len());
        }
    }
    assert forall|k: int| 0 <= k < next.open.len() implies next.elements[(
    #[trigger] next.open[k]) as int].start <= next.pos <= next.elements[next.open[k] as int].end by {
        if k < open.len() {
            assert(elements[open[k] as int].start <= walk.pos);
        }
    }
    assert forall|i: int| 0 <= i < next.elements.len() implies (#[trigger] next.elements[i]).end
        <= next.pos || next.open.contains(i as usize) by {
        if i < n {
            if open.contains(i as usize) {
                let k = choose|k: int| 0 <= k < open.len() && open[k] == i as usize;
                assert(next.open[k] == i as usize);
            } else {
                assert(elements[i].end <= walk.pos);
            }
        }
    }
    assert forall|i: int| 0 < i < next.elements.len() implies {
        &&& (#[trigger] next.elements[i]).parent is Some
        &&& next.elements[i].parent->0 < i
        &&& !next.elements[next.elements[i].parent->0 as int].leaf
        &&& next.elements[next.elements[i].parent->0 as int].start <= next.elements[i].start
        &&& next.elements[i].end <= next.elements[next.elements[i].parent->0 as int].end
    } by {
        if i < n {
            assert(elements[i].parent is Some);
        } else {
            assert(open.len() > 0);
            assert(open[open.len() - 1] < elements.len());
            assert(elements[open[open.len() - 1] as int].start <= walk.pos);
        }
    }
    assert forall|i: int, j: int|
        0 <= i < j < next.elements.len() && (#[trigger] next.elements[i]).parent == (
        #[trigger] next.elements[j]).parent implies next.elements[i].end <= next.elements[j].start by {
        if j < n {
            assert(elements[i].parent == elements[j].parent);
        } else {
            // an element of the same node has been left before this one is entered
            if open.contains(i as usize) {
                let k = choose|k: int| 0 <= k < open.len() && open[k] == i as usize;
                if k == 0 {
                    assert(elements[0].parent is None);
                } else {
                    assert(elements[open[k] as int].parent == Some(open[k - 1]));
                    lemma_open_increasing(walk, len, k - 1, open.len() - 1);
                }
            } else {
                assert(elements[i].end <= walk.pos);
            }
        }
    }
}

proof fn lemma_leave_walking(walk: Walk, step: Step, len: int)
    requires
        walking(walk, len),
        !step.enter,
        advance(walk, step, len) is Some,
    ensures
        walking(advance(walk, step, len)->0, len),
{
    reveal(walking);
    let next = advance(walk, step, len)->0;
    let elements = walk.elements;
    let open = walk.open;
    let last = open.len() - 1;
    let top = open[last];
    assert(next.open.len() == last);
    assert forall|k: int| 0 <= k < last implies next.open[k] == open[k] by {}
    assert(elements[top as int].start <= walk.pos);
    assert forall|k: int| 0 <= k < next.open.len() implies (#[trigger] next.open[k])
        < next.elements.len() by {
        assert(open[k] < elements.len());
    }
    assert forall|k: int| 0 <= k < next.open.len() implies next.elements[(
    #[trigger] next.open[k]) as int].start <= next.pos <= next.elements[next.open[k] as int].end by {
        assert(elements[open[k] as int].start <= walk.pos);
        lemma_open_nested(walk, len, k, last);
    }
    assert forall|k: int| 0 < k < next.open.len() implies next.open[k - 1] < (#[trigger] next.open[k])
        && next.elements[next.open[k] as int].parent == Some(next.open[k - 1]) by {
        assert(open[k - 1] < open[k]);
    }
    assert forall|i: int| 0 <= i < next.elements.len() implies (#[trigger] next.elements[i]).end
        <= next.pos || next.open.contains(i as usize) by {
        if i != top {
            if open.contains(i as usize) {
                let k = choose|k: int| 0 <= k < open.len() && open[k] == i as usize;
                assert(k != last);
                assert(next.open[k] == i as usize);
            } else {
                assert(elements[i].end <= walk.pos);
            }
        }
    }
    if next.open.len() > 0 {
        assert(next.open[0] == open[0]);
    }
}

proof fn lemma_advance_walking(walk: Walk, step: Step, len: int)
    requires
        walking(walk, len),
        advance(walk, step, len) is Some,
    ensures
        walking(advance(walk, step, len)->0, len),
{
    if step.enter {
        lemma_enter_walking(walk, step, len);
    } else {
        lemma_leave_walking(walk, step, len);
    }
}

/// The open elements come in the order of the tree.
proof fn lemma_open_increasing(walk: Walk, len: int, a: int, b: int)
    requires
        walking(walk, len),
        0 <= a <= b < walk.open.len(),
    ensures
        walk.open[a] <= walk.open[b],
        a < b ==> walk.open[a] < walk.open[b],
    decreases b - a,
{
    reveal(walking);
    if a < b {
        lemma_open_increasing(walk, len, a, b - 1);
        assert(walk.open[b - 1] < walk.open[b]);
    }
}

/// An open element ends where an element open within it ends, or later.
proof fn lemma_open_nested(walk: Walk, len: int, a: int, b: int)
    requires
        walking(walk, len),
        0 <= a <= b < walk.open.len(),
    ensures
        walk.elements[walk.open[b] as int].end <= walk.elements[walk.open[a] as int].end,
    decreases b - a,
{
    reveal(walking);
    if a < b {
        lemma_open_nested(walk, len, a, b - 1);
        assert(walk.open[b - 1] < walk.open[b]);
        assert(walk.elements[walk.open[b] as int].parent == Some(walk.open[b - 1]));
        assert(walk.open[b] < walk.elements.len());
        lemma_open_increasing(walk, len, 0, b);
    }
}

/// Every walk that `replay` accepts keeps the elements in tree shape.
proof fn lemma_replay_walking(steps: Seq<Step>, len: int)
    requires
        0 <= len,
        replay(steps, len) is Some,
    ensures
        walking(replay(steps, len)->0, len),
    decreases steps.len(),
{
    if steps.len() > 0 {
        lemma_replay_walking(steps.drop_last(), len);
        lemma_advance_walking(replay(steps.drop_last(), len)->0, steps.last(), len);
    } else {
        reveal(walking);
    }
}

/// What the builder reads of a walk in progress.
proof fn lemma_walking_facts(walk: Walk, len: int)
    requires
        walking(walk, len),
    ensures
        0 <= walk.pos <= len,
        walk.elements.len() <= usize::MAX,
        walk.open.len() > 0 ==> walk.open.last() < walk.elements.len(),
        walk.open.len() == 0 && walk.elements.len() > 0 ==> well_formed(walk.elements, len),
{
    reveal(walking);
    reveal(well_formed);
}

/// The tree that a walk gives is well formed.
pub proof fn lemma_tree_well_formed(steps: Seq<Step>, len: int)
    requires
        0 <= len,
        tree_of(steps, len) is Some,
    ensures
        well_formed(tree_of(steps, len)->0, len),
{
    lemma_replay_walking(steps, len);
    lemma_walking_facts(replay(steps, len)->0, len);
}

} // verus!
