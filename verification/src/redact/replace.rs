//! Replacements: byte ranges of a text with what stands in their place, and
//! the planner that carries them out.

use vstd::prelude::*;
use vstd::slice::slice_to_vec;
use vstd::utf8::{
    is_char_boundary, is_char_boundary_iff_not_is_continuation_byte,
    is_char_boundary_start_end_of_seq, valid_utf8, valid_utf8_concat, valid_utf8_split,
};

verus! {

/// A half-open range of bytes in a text.
pub type Range = std::ops::Range<usize>;

/// Why a text could not be redacted.
#[derive(Clone, Copy, Debug, PartialEq, Eq, Structural)]
pub enum RedactError {
    /// The text is not UTF-8.
    Encoding,
    /// The syntax tree holds an error marker, or the parser makes no tree of
    /// the text.
    Syntax,
    /// Two replacements touch the same bytes.
    Overlap,
    /// A hash or a key could not be derived.
    Derivation,
}

/// Something that stands for a range of the text and knows what to put there.
pub trait Replace {
    /// The range that is replaced.
    spec fn range_spec(&self) -> Range;

    /// The bytes that take its place.
    spec fn content_spec(&self) -> Seq<u8>;

    /// The range that is replaced.
    fn range(&self) -> (range: Range)
        ensures
            range == self.range_spec(),
    ;

    /// The bytes that take its place.
    fn content(&self) -> (bytes: &[u8])
        ensures
            bytes@ == self.content_spec(),
    ;
}

/// A half-open byte range of the text and the bytes that replace it.
pub struct Redaction {
    pub range: Range,
    pub bytes: Vec<u8>,
}

impl Redaction {
    /// The redaction that `item` asks for.
    pub fn of<R: Replace>(item: &R) -> (redaction: Redaction)
        ensures
            redaction.range == item.range_spec(),
            redaction.bytes@ == item.content_spec(),
    {
        Redaction { range: item.range(), bytes: slice_to_vec(item.content()) }
    }
}

/// The range of `r` lies in a text of `len` bytes.
pub open spec fn in_bounds(r: Redaction, len: int) -> bool {
    r.range.start <= r.range.end <= len
}

pub open spec fn all_in_bounds(reds: Seq<Redaction>, len: int) -> bool {
    forall|i: int| 0 <= i < reds.len() ==> in_bounds(#[trigger] reds[i], len)
}

/// Range `a` starts before `b` and ends where `b` starts, or earlier.
pub open spec fn range_before(a: Range, b: Range) -> bool {
    a.end <= b.start && a.start < b.start
}

/// One of the two ranges lies before the other: they share no byte and no
/// start.
pub open spec fn ranges_apart(a: Range, b: Range) -> bool {
    range_before(a, b) || range_before(b, a)
}

/// The range of `a` lies before that of `b`.
pub open spec fn before(a: Redaction, b: Redaction) -> bool {
    range_before(a.range, b.range)
}

/// One of the two lies before the other.
pub open spec fn apart(a: Redaction, b: Redaction) -> bool {
    ranges_apart(a.range, b.range)
}

/// No two redactions share a byte or a start.
pub open spec fn separate(reds: Seq<Redaction>) -> bool {
    forall|i: int, j: int| 0 <= i < j < reds.len() ==> apart(#[trigger] reds[i], #[trigger] reds[j])
}

/// `r` is apart from each of `reds`.
pub open spec fn clear_of(reds: Seq<Redaction>, r: Redaction) -> bool {
    forall|i: int| 0 <= i < reds.len() ==> apart(#[trigger] reds[i], r)
}

/// Each redaction lies before the one that precedes it.
pub open spec fn chained(reds: Seq<Redaction>) -> bool {
    forall|i: int| 0 < i < reds.len() ==> before(#[trigger] reds[i], reds[i - 1])
}

/// `r` put into `reds`, behind the last redaction that does not start before it.
pub open spec fn insert_descending(reds: Seq<Redaction>, r: Redaction) -> Seq<Redaction>
    decreases reds.len(),
{
    if reds.len() == 0 {
        seq![r]
    } else if reds.last().range.start >= r.range.start {
        reds.push(r)
    } else {
        insert_descending(reds.drop_last(), r).push(reds.last())
    }
}

/// The redactions ordered by start, the greatest first.
pub open spec fn descending(reds: Seq<Redaction>) -> Seq<Redaction>
    decreases reds.len(),
{
    if reds.len() == 0 {
        reds
    } else {
        insert_descending(descending(reds.drop_last()), reds.last())
    }
}

/// The text with each range replaced, for redactions in descending order:
/// what precedes the first range, redacted by the others, then the
/// replacement, then the text behind the range.
pub open spec fn spliced(content: Seq<u8>, reds: Seq<Redaction>) -> Seq<u8>
    decreases reds.len(),
{
    if reds.len() == 0 {
        content
    } else {
        spliced(content.subrange(0, reds[0].range.start as int), reds.skip(1)) + reds[0].bytes@
            + content.subrange(reds[0].range.end as int, content.len() as int)
    }
}

proof fn lemma_insert_at(reds: Seq<Redaction>, r: Redaction, k: int)
    requires
        0 <= k <= reds.len(),
        forall|i: int| k <= i < reds.len() ==> (#[trigger] reds[i]).range.start < r.range.start,
        k > 0 ==> reds[k - 1].range.start >= r.range.start,
    ensures
        insert_descending(reds, r) == reds.insert(k, r),
    decreases reds.len(),
{
    if reds.len() == 0 {
        assert(reds.insert(k, r) =~= seq![r]);
    } else if k == reds.len() {
        assert(reds.insert(k, r) =~= reds.push(r));
    } else {
        lemma_insert_at(reds.drop_last(), r, k);
        assert(reds.drop_last().insert(k, r).push(reds.last()) =~= reds.insert(k, r));
    }
}

/// Orders redactions by start, the greatest first.
pub fn sort_descending(redactions: Vec<Redaction>) -> (sorted: Vec<Redaction>)
    ensures
        sorted@ == descending(redactions@),
{
    let mut rest = redactions;
    let mut sorted: Vec<Redaction> = Vec::new();
    let ghost all = rest@;
    let ghost mut done: int = 0;
    while rest.len() > 0
        invariant
            0 <= done <= all.len(),
            rest@ == all.skip(done),
            sorted@ == descending(all.take(done)),
        decreases rest.len(),
    {
        let r = rest.remove(0);
        let mut k: usize = sorted.len();
        while k > 0 && sorted[k - 1].range.start < r.range.start
            invariant
                0 <= k <= sorted.len(),
                forall|i: int| k <= i < sorted.len() ==> (#[trigger] sorted@[i]).range.start < r.range.start,
            decreases k,
        {
            k -= 1;
        }
        proof {
            lemma_insert_at(sorted@, r, k as int);
            assert(all.take(done + 1).drop_last() =~= all.take(done));
            assert(all.take(done + 1).last() == r);
            assert(rest@ =~= all.skip(done + 1));
            done = done + 1;
        }
        sorted.insert(k, r);
    }
    proof {
        assert(all.take(done) =~= all);
    }
    sorted
}


/// In a chain each redaction lies before the first one.
pub proof fn lemma_chained_below(reds: Seq<Redaction>, len: int, i: int)
    requires
        chained(reds),
        all_in_bounds(reds, len),
        0 < i < reds.len(),
    ensures
        before(reds[i], reds[0]),
{
    lemma_chained_between(reds, len, 0, i);
}


/// What follows the first redaction of a chain is a chain in the text
/// before the first range.
pub proof fn lemma_rest(reds: Seq<Redaction>, len: int)
    requires
        reds.len() > 0,
        chained(reds),
        all_in_bounds(reds, len),
    ensures
        chained(reds.skip(1)),
        all_in_bounds(reds.skip(1), reds[0].range.start as int),
        in_bounds(reds[0], len),
{
    let rest = reds.skip(1);
    assert forall|i: int| 0 < i < rest.len() implies before(#[trigger] rest[i], rest[i - 1]) by {
        assert(before(reds[i + 1], reds[i]));
    }
    assert forall|i: int| 0 <= i < rest.len() implies in_bounds(
        #[trigger] rest[i],
        reds[0].range.start as int,
    ) by {
        lemma_chained_below(reds, len, i + 1);
        assert(in_bounds(reds[i + 1], len));
    }
}

/// A chain with one more redaction at its end is a chain without it.
proof fn lemma_init(reds: Seq<Redaction>, r: Redaction, len: int)
    requires
        chained(reds.push(r)),
        all_in_bounds(reds.push(r), len),
    ensures
        chained(reds),
        all_in_bounds(reds, len),
        in_bounds(r, len),
        reds.len() > 0 ==> before(r, reds.last()),
{
    let all = reds.push(r);
    assert(all[reds.len() as int] == r);
    assert(in_bounds(all[reds.len() as int], len));
    assert forall|i: int| 0 < i < reds.len() implies before(#[trigger] reds[i], reds[i - 1]) by {
        assert(before(all[i], all[i - 1]));
    }
    assert forall|i: int| 0 <= i < reds.len() implies in_bounds(#[trigger] reds[i], len) by {
        assert(in_bounds(all[i], len));
    }
    if reds.len() > 0 {
        assert(before(all[reds.len() as int], all[reds.len() - 1]));
    }
}

proof fn lemma_spliced_push(content: Seq<u8>, reds: Seq<Redaction>, r: Redaction)
    requires
        chained(reds.push(r)),
        all_in_bounds(reds.push(r), content.len() as int),
    ensures
        r.range.end <= spliced(content, reds).len(),
        spliced(content, reds.push(r)) == spliced(content, reds).subrange(0, r.range.start as int)
            + r.bytes@ + spliced(content, reds).subrange(
            r.range.end as int,
            spliced(content, reds).len() as int,
        ),
    decreases reds.len(),
{
    let all = reds.push(r);
    let len = content.len() as int;
    lemma_init(reds, r, len);
    if reds.len() == 0 {
        assert(all[0] == r);
        assert(all.skip(1) =~= Seq::<Redaction>::empty());
        assert(spliced(content.subrange(0, r.range.start as int), all.skip(1))
            == content.subrange(0, r.range.start as int));
        assert(spliced(content, reds) == content);
    } else {
        let first = reds[0];
        let head = content.subrange(0, first.range.start as int);
        let rest = reds.skip(1);
        assert(all[0] == first);
        assert(all.skip(1) =~= rest.push(r));
        lemma_rest(all, len);
        lemma_spliced_push(head, rest, r);
        let inner = spliced(head, rest);
        let tail = first.bytes@ + content.subrange(first.range.end as int, len);
        let whole = spliced(content, reds);
        assert(whole == inner + first.bytes@ + content.subrange(first.range.end as int, len));
        assert(whole =~= inner + tail);
        let pushed = spliced(head, rest.push(r));
        assert(spliced(content, all) == pushed + first.bytes@ + content.subrange(
            first.range.end as int,
            len,
        ));
        let a = r.range.start as int;
        let b = r.range.end as int;
        assert(pushed == inner.subrange(0, a) + r.bytes@ + inner.subrange(b, inner.len() as int));
        assert(whole.subrange(0, a) =~= inner.subrange(0, a));
        assert(whole.subrange(b, whole.len() as int) =~= inner.subrange(b, inner.len() as int) + tail);
        assert(spliced(content, all) =~= whole.subrange(0, a) + r.bytes@ + whole.subrange(
            b,
            whole.len() as int,
        ));
    }
}

/// The first redactions of a chain are a chain.
proof fn lemma_take(reds: Seq<Redaction>, len: int, k: int)
    requires
        chained(reds),
        all_in_bounds(reds, len),
        0 <= k <= reds.len(),
    ensures
        chained(reds.take(k)),
        all_in_bounds(reds.take(k), len),
{
    let next = reds.take(k);
    assert forall|i: int| 0 < i < next.len() implies before(#[trigger] next[i], next[i - 1]) by {
        assert(before(reds[i], reds[i - 1]));
    }
    assert forall|i: int| 0 <= i < next.len() implies in_bounds(#[trigger] next[i], len) by {
        assert(in_bounds(reds[i], len));
    }
}

/// Replaces each range of `content`, from the last range of the text to the
/// first, so that the ranges still to come keep their place.
pub fn splice_all(content: &[u8], sorted: &Vec<Redaction>) -> (output: Vec<u8>)
    requires
        chained(sorted@),
        all_in_bounds(sorted@, content@.len() as int),
    ensures
        output@ == spliced(content@, sorted@),
{
    let mut output = slice_to_vec(content);
    let mut k: usize = 0;
    proof {
        assert(sorted@.take(0) =~= Seq::<Redaction>::empty());
    }
    while k < sorted.len()
        invariant
            0 <= k <= sorted.len(),
            chained(sorted@),
            all_in_bounds(sorted@, content@.len() as int),
            output@ == spliced(content@, sorted@.take(k as int)),
        decreases sorted.len() - k,
    {
        let r = &sorted[k];
        proof {
            let done = sorted@.take(k as int);
            let next = sorted@.take(k + 1);
            assert(next =~= done.push(*r));
            lemma_take(sorted@, content@.len() as int, k + 1);
            lemma_spliced_push(content@, done, *r);
        }
        let mut tail = output.split_off(r.range.end);
        output.truncate(r.range.start);
        let mut bytes = r.bytes.clone();
        output.append(&mut bytes);
        output.append(&mut tail);
        k += 1;
    }
    proof {
        assert(sorted@.take(k as int) =~= sorted@);
    }
    output
}


/// Whether the redaction keeps a text what it is: its range begins and ends
/// between two characters of the text, and its bytes are UTF-8.
pub open spec fn keeps_text(r: Redaction, content: Seq<u8>) -> bool {
    &&& is_char_boundary(content, r.range.start as int)
    &&& is_char_boundary(content, r.range.end as int)
    &&& valid_utf8(r.bytes@)
}

/// Each of the redactions keeps the text what it is.
pub open spec fn all_keep_text(reds: Seq<Redaction>, content: Seq<u8>) -> bool {
    forall|i: int| 0 <= i < reds.len() ==> keeps_text(#[trigger] reds[i], content)
}

/// What lies between two characters of a text lies between two characters of
/// its start, up to a place between two characters.
proof fn lemma_boundary_in_prefix(content: Seq<u8>, cut: int, at: int)
    requires
        valid_utf8(content),
        is_char_boundary(content, cut),
        is_char_boundary(content, at),
        0 <= at <= cut <= content.len(),
    ensures
        valid_utf8(content.subrange(0, cut)),
        is_char_boundary(content.subrange(0, cut), at),
{
    let head = content.subrange(0, cut);
    valid_utf8_split(content, cut);
    if at == cut {
        is_char_boundary_start_end_of_seq(head);
    } else {
        is_char_boundary_iff_not_is_continuation_byte(content, at);
        is_char_boundary_iff_not_is_continuation_byte(head, at);
    }
}

/// A text stays UTF-8 where each redaction keeps it so.
pub proof fn lemma_spliced_text(content: Seq<u8>, reds: Seq<Redaction>)
    requires
        valid_utf8(content),
        chained(reds),
        all_in_bounds(reds, content.len() as int),
        all_keep_text(reds, content),
    ensures
        valid_utf8(spliced(content, reds)),
    decreases reds.len(),
{
    if reds.len() > 0 {
        let len = content.len() as int;
        let first = reds[0];
        let rest = reds.skip(1);
        let head = content.subrange(0, first.range.start as int);
        let tail = content.subrange(first.range.end as int, len);
        lemma_rest(reds, len);
        assert(keeps_text(reds[0], content));
        valid_utf8_split(content, first.range.start as int);
        valid_utf8_split(content, first.range.end as int);
        assert forall|i: int| 0 <= i < rest.len() implies keeps_text(#[trigger] rest[i], head) by {
            assert(keeps_text(reds[i + 1], content));
            assert(in_bounds(rest[i], head.len() as int));
            lemma_boundary_in_prefix(content, first.range.start as int, rest[i].range.start as int);
            lemma_boundary_in_prefix(content, first.range.start as int, rest[i].range.end as int);
        }
        lemma_spliced_text(head, rest);
        valid_utf8_concat(spliced(head, rest), first.bytes@);
        valid_utf8_concat(spliced(head, rest) + first.bytes@, tail);
    }
}

/// Ordered redactions keep the text what it is where the given ones do.
pub proof fn lemma_descending_keeps_text(reds: Seq<Redaction>, content: Seq<u8>)
    requires
        all_keep_text(reds, content),
    ensures
        all_keep_text(descending(reds), content),
{
    assert forall|j: int| 0 <= j < descending(reds).len() implies keeps_text(
        #[trigger] descending(reds)[j],
        content,
    ) by {
        lemma_descending_held(reds, j);
        let k = choose|k: int| 0 <= k < reds.len() && #[trigger] reds[k] == descending(reds)[j];
        assert(keeps_text(reds[k], content));
    }
}

/// No redaction starts before one that comes behind it.
pub open spec fn ordered(reds: Seq<Redaction>) -> bool {
    forall|i: int, j: int|
        0 <= i < j < reds.len() ==> (#[trigger] reds[i]).range.start >= (#[trigger] reds[j]).range.start
}

proof fn lemma_insert_props(reds: Seq<Redaction>, r: Redaction, x: Redaction, len: int)
    ensures
        ordered(reds) ==> ordered(insert_descending(reds, r)),
        clear_of(insert_descending(reds, r), x) <==> clear_of(reds, x) && apart(r, x),
        separate(insert_descending(reds, r)) <==> separate(reds) && clear_of(reds, r),
        all_in_bounds(insert_descending(reds, r), len) <==> all_in_bounds(reds, len) && in_bounds(r, len),
        insert_descending(reds, r).len() == reds.len() + 1,
    decreases reds.len(),
{
    let out = insert_descending(reds, r);
    if reds.len() == 0 {
        assert(out[0] == r);
    } else if reds.last().range.start >= r.range.start {
        lemma_push_props(reds, r, x, len);
        if ordered(reds) {
            assert forall|i: int, j: int| 0 <= i < j < out.len() implies (#[trigger] out[i]).range.start >= (
            #[trigger] out[j]).range.start by {
                if j == reds.len() && i < reds.len() - 1 {
                    assert(reds[i].range.start >= reds[reds.len() - 1].range.start);
                }
            }
        }
    } else {
        let init = reds.drop_last();
        let last = reds.last();
        let mid = insert_descending(init, r);
        lemma_insert_props(init, r, x, len);
        lemma_insert_props(init, r, last, len);
        lemma_push_props(mid, last, x, len);
        lemma_push_props(init, last, x, len);
        lemma_push_props(init, last, r, len);
        assert(reds =~= init.push(last));
        if ordered(reds) {
            assert forall|i: int, j: int| 0 <= i < j < init.len() implies (#[trigger] init[i]).range.start >= (
            #[trigger] init[j]).range.start by {
                assert(reds[i].range.start >= reds[j].range.start);
            }
            lemma_insert_members(init, r);
            assert forall|i: int, j: int| 0 <= i < j < out.len() implies (#[trigger] out[i]).range.start >= (
            #[trigger] out[j]).range.start by {
                if j == mid.len() {
                    if mid[i] != r {
                        let k = choose|k: int| 0 <= k < init.len() && init[k] == mid[i];
                        assert(reds[k].range.start >= reds[reds.len() - 1].range.start);
                    }
                } else {
                    assert(mid[i].range.start >= mid[j].range.start);
                }
            }
        }
    }
}

/// What `insert_descending` returns holds `r` and the redactions of `reds`.
proof fn lemma_insert_members(reds: Seq<Redaction>, r: Redaction)
    ensures
        forall|i: int|
            0 <= i < insert_descending(reds, r).len() ==> #[trigger] insert_descending(reds, r)[i] == r
                || exists|k: int| 0 <= k < reds.len() && reds[k] == insert_descending(reds, r)[i],
    decreases reds.len(),
{
    let out = insert_descending(reds, r);
    if reds.len() == 0 {
    } else if reds.last().range.start >= r.range.start {
        assert forall|i: int| 0 <= i < out.len() implies #[trigger] out[i] == r || exists|k: int|
            0 <= k < reds.len() && reds[k] == out[i] by {
            if i < reds.len() {
                assert(reds[i] == out[i]);
            }
        }
    } else {
        let init = reds.drop_last();
        let mid = insert_descending(init, r);
        lemma_insert_members(init, r);
        lemma_insert_props(init, r, r, 0);
        assert forall|i: int| 0 <= i < out.len() implies #[trigger] out[i] == r || exists|k: int|
            0 <= k < reds.len() && reds[k] == out[i] by {
            if i < mid.len() {
                if mid[i] != r {
                    let k = choose|k: int| 0 <= k < init.len() && init[k] == mid[i];
                    assert(reds[k] == out[i]);
                }
            } else {
                assert(reds[reds.len() - 1] == out[i]);
            }
        }
    }
}

proof fn lemma_push_props(reds: Seq<Redaction>, r: Redaction, x: Redaction, len: int)
    ensures
        clear_of(reds.push(r), x) <==> clear_of(reds, x) && apart(r, x),
        separate(reds.push(r)) <==> separate(reds) && clear_of(reds, r),
        all_in_bounds(reds.push(r), len) <==> all_in_bounds(reds, len) && in_bounds(r, len),
{
    let out = reds.push(r);
    assert(out[reds.len() as int] == r);
    assert forall|i: int| 0 <= i < reds.len() implies out[i] == reds[i] by {}
    if clear_of(out, x) {
        assert forall|i: int| 0 <= i < reds.len() implies apart(#[trigger] reds[i], x) by {
            assert(apart(out[i], x));
        }
        assert(apart(out[reds.len() as int], x));
    }
    if separate(out) {
        assert forall|i: int, j: int| 0 <= i < j < reds.len() implies apart(
            #[trigger] reds[i],
            #[trigger] reds[j],
        ) by {
            assert(apart(out[i], out[j]));
        }
        assert forall|i: int| 0 <= i < reds.len() implies apart(#[trigger] reds[i], r) by {
            assert(apart(out[i], out[reds.len() as int]));
        }
    }
    if separate(reds) && clear_of(reds, r) {
        assert forall|i: int, j: int| 0 <= i < j < out.len() implies apart(
            #[trigger] out[i],
            #[trigger] out[j],
        ) by {
            if j < reds.len() {
                assert(apart(reds[i], reds[j]));
            } else {
                assert(apart(reds[i], r));
            }
        }
    }
    if all_in_bounds(out, len) {
        assert forall|i: int| 0 <= i < reds.len() implies in_bounds(#[trigger] reds[i], len) by {
            assert(in_bounds(out[i], len));
        }
        assert(in_bounds(out[reds.len() as int], len));
    }
}

/// What is put into a sequence is in it afterwards.
proof fn lemma_insert_has_new(reds: Seq<Redaction>, r: Redaction)
    ensures
        exists|j: int|
            0 <= j < insert_descending(reds, r).len() && #[trigger] insert_descending(reds, r)[j] == r,
    decreases reds.len(),
{
    let out = insert_descending(reds, r);
    if reds.len() == 0 {
        assert(out[0] == r);
    } else if reds.last().range.start >= r.range.start {
        assert(out[reds.len() as int] == r);
    } else {
        lemma_insert_has_new(reds.drop_last(), r);
        let mid = insert_descending(reds.drop_last(), r);
        let j = choose|j: int| 0 <= j < mid.len() && #[trigger] mid[j] == r;
        assert(out[j] == r);
    }
}

/// What was in a sequence is still in it when something is put into it.
proof fn lemma_insert_has_old(reds: Seq<Redaction>, r: Redaction, i: int)
    requires
        0 <= i < reds.len(),
    ensures
        exists|j: int|
            0 <= j < insert_descending(reds, r).len() && #[trigger] insert_descending(reds, r)[j]
                == reds[i],
    decreases reds.len(),
{
    let out = insert_descending(reds, r);
    if reds.last().range.start >= r.range.start {
        assert(out[i] == reds[i]);
    } else {
        let mid = insert_descending(reds.drop_last(), r);
        if i == reds.len() - 1 {
            assert(out[mid.len() as int] == reds[i]);
        } else {
            lemma_insert_has_old(reds.drop_last(), r, i);
            let j = choose|j: int| 0 <= j < mid.len() && #[trigger] mid[j] == reds.drop_last()[i];
            assert(out[j] == reds[i]);
        }
    }
}

/// Each redaction is among the ordered ones.
pub proof fn lemma_descending_holds(reds: Seq<Redaction>, k: int)
    requires
        0 <= k < reds.len(),
    ensures
        exists|j: int| 0 <= j < descending(reds).len() && #[trigger] descending(reds)[j] == reds[k],
    decreases reds.len(),
{
    let init = descending(reds.drop_last());
    let out = insert_descending(init, reds.last());
    assert(descending(reds) == out);
    if k == reds.len() - 1 {
        lemma_insert_has_new(init, reds.last());
        let j = choose|j: int| 0 <= j < out.len() && #[trigger] out[j] == reds.last();
        assert(descending(reds)[j] == reds[k]);
    } else {
        lemma_descending_holds(reds.drop_last(), k);
        let i = choose|i: int| 0 <= i < init.len() && #[trigger] init[i] == reds.drop_last()[k];
        lemma_insert_has_old(init, reds.last(), i);
        let j = choose|j: int| 0 <= j < out.len() && #[trigger] out[j] == init[i];
        assert(descending(reds)[j] == reds[k]);
    }
}

/// Each of the ordered redactions is one of those that were given.
pub proof fn lemma_descending_held(reds: Seq<Redaction>, j: int)
    requires
        0 <= j < descending(reds).len(),
    ensures
        exists|k: int| 0 <= k < reds.len() && #[trigger] reds[k] == descending(reds)[j],
    decreases reds.len(),
{
    if reds.len() > 0 {
        let init = descending(reds.drop_last());
        lemma_insert_members(init, reds.last());
        let out = descending(reds);
        if out[j] == reds.last() {
            assert(reds[reds.len() - 1] == out[j]);
        } else {
            let i = choose|i: int| 0 <= i < init.len() && init[i] == out[j];
            lemma_descending_held(reds.drop_last(), i);
            let k = choose|k: int|
                0 <= k < reds.drop_last().len() && #[trigger] reds.drop_last()[k] == init[i];
            assert(reds[k] == out[j]);
        }
    }
}

/// Ordering keeps the redactions: the same are apart, and in bounds, before
/// and after.
pub proof fn lemma_descending_props(reds: Seq<Redaction>, x: Redaction, len: int)
    ensures
        ordered(descending(reds)),
        descending(reds).len() == reds.len(),
        clear_of(descending(reds), x) <==> clear_of(reds, x),
        separate(descending(reds)) <==> separate(reds),
        all_in_bounds(descending(reds), len) <==> all_in_bounds(reds, len),
    decreases reds.len(),
{
    if reds.len() > 0 {
        let init = reds.drop_last();
        let last = reds.last();
        lemma_descending_props(init, x, len);
        lemma_descending_props(init, last, len);
        lemma_insert_props(descending(init), last, x, len);
        lemma_push_props(init, last, x, len);
        assert(reds =~= init.push(last));
    }
}

/// In a sequence ordered by start, the redactions are apart from one another
/// when each lies before the one that precedes it.
pub proof fn lemma_chained_separate(reds: Seq<Redaction>, len: int)
    requires
        ordered(reds),
        all_in_bounds(reds, len),
    ensures
        chained(reds) <==> separate(reds),
{
    if chained(reds) {
        assert forall|i: int, j: int| 0 <= i < j < reds.len() implies apart(
            #[trigger] reds[i],
            #[trigger] reds[j],
        ) by {
            lemma_chained_between(reds, len, i, j);
        }
    }
    if separate(reds) {
        assert forall|i: int| 0 < i < reds.len() implies before(#[trigger] reds[i], reds[i - 1]) by {
            assert(apart(reds[i - 1], reds[i]));
            assert(reds[i - 1].range.start >= reds[i].range.start);
        }
    }
}

proof fn lemma_chained_between(reds: Seq<Redaction>, len: int, i: int, j: int)
    requires
        chained(reds),
        all_in_bounds(reds, len),
        0 <= i < j < reds.len(),
    ensures
        before(reds[j], reds[i]),
    decreases j - i,
{
    assert(before(reds[j], reds[j - 1]));
    if i < j - 1 {
        lemma_chained_between(reds, len, i, j - 1);
        assert(in_bounds(reds[j - 1], len));
    }
}

/// Whether each redaction lies before the one that precedes it.
fn is_chained(sorted: &Vec<Redaction>) -> (yes: bool)
    ensures
        yes == chained(sorted@),
{
    let mut k: usize = 1;
    while k < sorted.len()
        invariant
            1 <= k,
            forall|i: int| 0 < i < k && i < sorted.len() ==> before(#[trigger] sorted@[i], sorted@[i - 1]),
        decreases sorted.len() - k,
    {
        if !(sorted[k].range.end <= sorted[k - 1].range.start && sorted[k].range.start < sorted[k
            - 1].range.start) {
            assert(!before(sorted@[k as int], sorted@[k - 1]));
            return false;
        }
        k += 1;
    }
    true
}

/// The planner: orders the redactions by start, the greatest first, and
/// replaces each range of `content`. Redactions that share a byte or a start
/// are refused. A text that is UTF-8 stays so where each redaction begins
/// and ends between two characters and puts UTF-8 in.
pub fn apply(content: &[u8], redactions: Vec<Redaction>) -> (result: Result<Vec<u8>, RedactError>)
    requires
        all_in_bounds(redactions@, content@.len() as int),
    ensures
        match result {
            Ok(output) => separate(redactions@) && output@ == spliced(
                content@,
                descending(redactions@),
            ) && (valid_utf8(content@) && all_keep_text(redactions@, content@) ==> valid_utf8(
                output@,
            )),
            Err(e) => e == RedactError::Overlap && !separate(redactions@),
        },
{
    let ghost given = redactions@;
    let sorted = sort_descending(redactions);
    proof {
        lemma_descending_props(given, arbitrary(), content@.len() as int);
        lemma_chained_separate(sorted@, content@.len() as int);
        if chained(sorted@) && valid_utf8(content@) && all_keep_text(given, content@) {
            lemma_descending_keeps_text(given, content@);
            lemma_spliced_text(content@, sorted@);
        }
    }
    if !is_chained(&sorted) {
        return Err(RedactError::Overlap);
    }
    Ok(splice_all(content, &sorted))
}

} // verus!
