//! What holds of every redaction: the places that are taken out of the text
//! cover the secrets, and the text that comes out is made of the bytes
//! outside those places and of the replacements.

use vstd::prelude::*;

use super::comment::Comment;
use super::nix::{
    all_accepted, comment_range, is_comment, key_site, lemma_next_picked, pattern_of,
    pattern_ranges, salt_key_site, string_argument, whole_range,
};
use super::pattern::Pattern;
use super::replace::{all_in_bounds, chained, in_bounds, spliced, Range, Redaction};
use super::syntax::{
    lemma_element, lemma_siblings, well_formed, Element, Shape, NODE_STRING, TOKEN_COLON,
    TOKEN_WHITESPACE,
};
use super::{
    all_fit, carried, derivation_may_fail, fits, found_sites, has_error, is_ident, named_patterns,
    pattern_sites, redacted, site_at, sites, sites_of_pattern, sites_separate, Secret, Site,
};

verus! {

/// The range holds the whole of the element.
pub open spec fn covers(range: Range, element: Element) -> bool {
    range.start <= element.start && element.end <= range.end
}

/// One of the places has the range `range` and the secret `secret`.
pub open spec fn listed(places: Seq<Site>, range: Range, secret: Secret) -> bool {
    exists|k: int| 0 <= k < places.len() && #[trigger] places[k] == (Site { range, secret })
}

/// What an element gives is among the places found up to it.
proof fn lemma_found_listed(content: Seq<u8>, tree: Seq<Element>, upto: int, i: int)
    requires
        0 <= i < upto <= tree.len(),
        site_at(content, tree, i) is Some,
    ensures
        exists|k: int|
            0 <= k < found_sites(content, tree, upto).len() && #[trigger] found_sites(
                content,
                tree,
                upto,
            )[k] == site_at(content, tree, i)->0,
    decreases upto,
{
    let all = found_sites(content, tree, upto);
    if i == upto - 1 {
        assert(all[all.len() - 1] == site_at(content, tree, i)->0);
    } else {
        lemma_found_listed(content, tree, upto - 1, i);
        let before = found_sites(content, tree, upto - 1);
        let k = choose|k: int| 0 <= k < before.len() && #[trigger] before[k] == site_at(content, tree, i)->0;
        assert(all[k] == before[k]);
    }
}

/// A parameter list with an entry named by an identifier is among the lists
/// named up to it.
proof fn lemma_pattern_named(tree: Seq<Element>, upto: int, i: int)
    requires
        0 <= i < upto <= tree.len(),
        is_ident(tree[i]),
        pattern_of(tree, i) is Some,
    ensures
        named_patterns(tree, upto).contains(pattern_of(tree, i)->0 as usize),
    decreases upto,
{
    let all = named_patterns(tree, upto);
    let before = named_patterns(tree, upto - 1);
    let p = pattern_of(tree, i)->0 as usize;
    if i < upto - 1 {
        lemma_pattern_named(tree, upto - 1, i);
        let k = choose|k: int| 0 <= k < before.len() && before[k] == p;
        assert(all[k] == p);
    } else if before.contains(p) {
    } else {
        assert(all[all.len() - 1] == p);
    }
}

/// The places of a parameter list are among those of the lists that hold it.
proof fn lemma_pattern_sites_listed(
    content: Seq<u8>,
    tree: Seq<Element>,
    patterns: Seq<usize>,
    m: int,
    k: int,
)
    requires
        0 <= m < patterns.len(),
        0 <= k < sites_of_pattern(content, tree, patterns[m] as int).len(),
    ensures
        exists|j: int|
            0 <= j < pattern_sites(content, tree, patterns).len() && #[trigger] pattern_sites(
                content,
                tree,
                patterns,
            )[j] == sites_of_pattern(content, tree, patterns[m] as int)[k],
    decreases patterns.len(),
{
    let all = pattern_sites(content, tree, patterns);
    let before = pattern_sites(content, tree, patterns.drop_last());
    let last = sites_of_pattern(content, tree, patterns.last() as int);
    if m == patterns.len() - 1 {
        assert(all[before.len() + k] == last[k]);
    } else {
        lemma_pattern_sites_listed(content, tree, patterns.drop_last(), m, k);
        let j = choose|j: int|
            0 <= j < before.len() && #[trigger] before[j] == sites_of_pattern(
                content,
                tree,
                patterns[m] as int,
            )[k];
        assert(all[j] == before[j]);
    }
}

/// Every comment is taken out whole: one of the places covers it, and
/// nothing takes its place.
pub proof fn lemma_comment_covered(content: Seq<u8>, tree: Seq<Element>, i: int)
    requires
        well_formed(tree, content.len() as int),
        0 <= i < tree.len(),
        is_comment::<Comment>(content, tree, i),
    ensures
        covers(comment_range(tree, i), tree[i]),
        listed(sites(content, tree), comment_range(tree, i), Secret::Comment),
{
    super::nix::lemma_prev_picked(tree, i, tree[i].parent, Shape::Any, seq![TOKEN_WHITESPACE], false);
    lemma_element(tree, content.len() as int, i);
    if let Some(j) = super::syntax::prev_picked(
        tree,
        i,
        tree[i].parent,
        Shape::Any,
        seq![TOKEN_WHITESPACE],
        false,
    ) {
        lemma_siblings(tree, content.len() as int, j, i);
    }
    lemma_found_listed(content, tree, tree.len() as int, i);
    let found = found_sites(content, tree, tree.len() as int);
    let k = choose|k: int| 0 <= k < found.len() && #[trigger] found[k] == site_at(content, tree, i)->0;
    assert(sites(content, tree)[k] == found[k]);
}

/// An element lies in the node that holds it.
proof fn lemma_child_inside(tree: Seq<Element>, len: int, child: int, node: int)
    requires
        well_formed(tree, len),
        0 <= child < tree.len(),
        tree[child].parent == Some(node as usize),
        0 <= node <= usize::MAX,
    ensures
        node < child,
        covers(super::nix::range_at(tree[node]), tree[child]),
{
    lemma_element(tree, len, child);
}

/// The string of an application lies in the application.
proof fn lemma_argument_inside(tree: Seq<Element>, len: int, apply: int)
    requires
        well_formed(tree, len),
        0 <= apply < tree.len(),
        string_argument(tree, apply) is Some,
    ensures
        0 <= string_argument(tree, apply)->0 < tree.len(),
        covers(super::nix::range_at(tree[apply]), tree[string_argument(tree, apply)->0]),
{
    lemma_element(tree, len, apply);
    lemma_next_picked(tree, apply + 1, Some(apply as usize), Shape::Node, seq![NODE_STRING], true);
    lemma_child_inside(tree, len, string_argument(tree, apply)->0, apply);
}

/// The range of a node, or of parentheses around it, holds the node.
proof fn lemma_lifted_covers(tree: Seq<Element>, len: int, node: int)
    requires
        well_formed(tree, len),
        0 <= node < tree.len(),
    ensures
        covers(super::nix::lifted_range(tree, node), tree[node]),
{
    lemma_element(tree, len, node);
}

/// Every key of a function with one string is taken out: the place that the
/// function's name gives covers the string that holds the key, quotes and
/// all, and is among the places.
pub proof fn lemma_key_covered(content: Seq<u8>, tree: Seq<Element>, i: int)
    requires
        well_formed(tree, content.len() as int),
        0 <= i < tree.len(),
        site_at(content, tree, i) matches Some(site) && (site.secret is Bcrypt || site.secret is Sha512),
    ensures
        key_site(tree, i) is Some,
        0 <= key_site(tree, i)->0.key < tree.len(),
        covers(site_at(content, tree, i)->0.range, tree[key_site(tree, i)->0.key]),
        listed(sites(content, tree), site_at(content, tree, i)->0.range, site_at(content, tree, i)->0.secret),
{
    let len = content.len() as int;
    let apply = super::nix::applied_in(tree, i)->0;
    lemma_argument_inside(tree, len, apply);
    lemma_lifted_covers(tree, len, apply);
    lemma_found_listed(content, tree, tree.len() as int, i);
    let found = found_sites(content, tree, tree.len() as int);
    let k = choose|k: int| 0 <= k < found.len() && #[trigger] found[k] == site_at(content, tree, i)->0;
    assert(sites(content, tree)[k] == found[k]);
}

/// Every salt and key of a function with two strings is taken out: the
/// place that the function's name gives covers both strings, quotes and all,
/// and is among the places.
pub proof fn lemma_salt_and_key_covered(content: Seq<u8>, tree: Seq<Element>, i: int)
    requires
        well_formed(tree, content.len() as int),
        0 <= i < tree.len(),
        site_at(content, tree, i) matches Some(site) && site.secret is Psk,
    ensures
        salt_key_site(tree, i) is Some,
        0 <= salt_key_site(tree, i)->0.salt < tree.len(),
        0 <= salt_key_site(tree, i)->0.key < tree.len(),
        covers(site_at(content, tree, i)->0.range, tree[salt_key_site(tree, i)->0.salt]),
        covers(site_at(content, tree, i)->0.range, tree[salt_key_site(tree, i)->0.key]),
        listed(sites(content, tree), site_at(content, tree, i)->0.range, site_at(content, tree, i)->0.secret),
{
    let len = content.len() as int;
    let inner = super::nix::applied_in(tree, i)->0;
    let outer = super::nix::applied_in(tree, inner)->0;
    lemma_argument_inside(tree, len, inner);
    lemma_argument_inside(tree, len, outer);
    lemma_element(tree, len, inner);
    lemma_child_inside(tree, len, inner, outer);
    lemma_lifted_covers(tree, len, outer);
    lemma_found_listed(content, tree, tree.len() as int, i);
    let found = found_sites(content, tree, tree.len() as int);
    let k = choose|k: int| 0 <= k < found.len() && #[trigger] found[k] == site_at(content, tree, i)->0;
    assert(sites(content, tree)[k] == found[k]);
}

/// A parameter list that holds nothing but names of the functions is taken
/// out whole: where an identifier names an entry of such a list, one of the
/// places covers the list, and nothing takes its place.
pub proof fn lemma_pattern_covered(content: Seq<u8>, tree: Seq<Element>, i: int)
    requires
        well_formed(tree, content.len() as int),
        0 <= i < tree.len(),
        is_ident(tree[i]),
        pattern_of(tree, i) is Some,
        all_accepted::<Pattern>(content, tree, pattern_of(tree, i)->0),
    ensures
        covers(whole_range(tree, pattern_of(tree, i)->0), tree[pattern_of(tree, i)->0]),
        covers(whole_range(tree, pattern_of(tree, i)->0), tree[i]),
        listed(sites(content, tree), whole_range(tree, pattern_of(tree, i)->0), Secret::Pattern),
{
    let p = pattern_of(tree, i)->0;
    let len = content.len() as int;
    lemma_element(tree, len, i);
    let entry = tree[i].parent->0 as int;
    lemma_element(tree, len, entry);
    lemma_element(tree, len, p);
    super::nix::lemma_until_next(tree, len, p, seq![TOKEN_WHITESPACE, TOKEN_COLON], false);
    lemma_pattern_named(tree, tree.len() as int, i);
    let patterns = named_patterns(tree, tree.len() as int);
    let m = choose|m: int| 0 <= m < patterns.len() && patterns[m] == p as usize;
    assert(pattern_ranges::<Pattern>(content, tree, p)[0] == whole_range(tree, p));
    lemma_pattern_sites_listed(content, tree, patterns, m, 0);
    let second = pattern_sites(content, tree, patterns);
    let first = found_sites(content, tree, tree.len() as int);
    let j = choose|j: int|
        0 <= j < second.len() && #[trigger] second[j] == sites_of_pattern(content, tree, patterns[m] as int)[0];
    assert(sites(content, tree)[first.len() + j] == second[j]);
}


/// The redaction succeeds where nothing stands in its way: the tree holds no
/// error marker, no derivation can fail, and no two places share a byte or a
/// start.
pub proof fn lemma_redaction_succeeds(
    content: Seq<u8>,
    tree: Seq<Element>,
    result: Result<Vec<u8>, super::replace::RedactError>,
)
    requires
        redacted(content, tree, result),
        !has_error(tree),
        !derivation_may_fail(content, tree),
        sites_separate(sites(content, tree)),
    ensures
        result is Ok,
{
}

/// A text in which nothing is found comes out as it went in.
pub proof fn lemma_nothing_to_redact(content: Seq<u8>, tree: Seq<Element>, output: Vec<u8>)
    requires
        redacted(content, tree, Ok(output)),
        sites(content, tree).len() == 0,
    ensures
        output@ == content,
{
    let redactions = choose|redactions: Seq<Redaction>| #[trigger]
        carried(content, tree, output@, redactions);
    assert(redactions =~= Seq::<Redaction>::empty());
}

/// Where a byte of the redacted text comes from.
pub enum Origin {
    /// From the text, at this place.
    Text(int),
    /// From the replacement of this redaction, at this place in it.
    Replacement(int, int),
}

/// The length of a text of `len` bytes after the redactions.
pub open spec fn spliced_len(len: int, redactions: Seq<Redaction>) -> int
    decreases redactions.len(),
{
    if redactions.len() == 0 {
        len
    } else {
        spliced_len(redactions[0].range.start as int, redactions.skip(1)) + redactions[0].bytes@.len() + (
        len - redactions[0].range.end)
    }
}

/// Where the byte at place `q` of the redacted text comes from, for
/// redactions in descending order.
pub open spec fn origin(len: int, redactions: Seq<Redaction>, q: int) -> Origin
    decreases redactions.len(),
{
    if redactions.len() == 0 {
        Origin::Text(q)
    } else {
        let first = redactions[0];
        let inner = spliced_len(first.range.start as int, redactions.skip(1));
        if q < inner {
            match origin(first.range.start as int, redactions.skip(1), q) {
                Origin::Text(p) => Origin::Text(p),
                Origin::Replacement(k, at) => Origin::Replacement(k + 1, at),
            }
        } else if q < inner + first.bytes@.len() {
            Origin::Replacement(0, q - inner)
        } else {
            Origin::Text(first.range.end + (q - inner - first.bytes@.len()))
        }
    }
}

/// The place `p` of the text lies in none of the ranges.
pub open spec fn outside(redactions: Seq<Redaction>, p: int) -> bool {
    forall|k: int|
        0 <= k < redactions.len() ==> !((#[trigger] redactions[k]).range.start <= p < redactions[k].range.end)
}

/// The redacted text is made of the text outside the ranges and of the
/// replacements: each of its bytes is a byte of the text at a place that
/// lies in no range, or a byte of a replacement.
pub proof fn lemma_output_origin(content: Seq<u8>, redactions: Seq<Redaction>, q: int)
    requires
        chained(redactions),
        all_in_bounds(redactions, content.len() as int),
        0 <= q < spliced(content, redactions).len(),
    ensures
        spliced(content, redactions).len() == spliced_len(content.len() as int, redactions),
        match origin(content.len() as int, redactions, q) {
            Origin::Text(p) => 0 <= p < content.len() && outside(redactions, p) && spliced(
                content,
                redactions,
            )[q] == content[p],
            Origin::Replacement(k, at) => 0 <= k < redactions.len() && 0 <= at < redactions[k].bytes@.len()
                && spliced(content, redactions)[q] == redactions[k].bytes@[at],
        },
    decreases redactions.len(),
{
    let len = content.len() as int;
    lemma_spliced_len(content, redactions);
    if redactions.len() > 0 {
        let first = redactions[0];
        let rest = redactions.skip(1);
        let head = content.subrange(0, first.range.start as int);
        let inner = spliced(head, rest);
        assert(in_bounds(redactions[0], len));
        super::replace::lemma_rest(redactions, len);
        lemma_spliced_len(head, rest);
        if q < inner.len() {
            lemma_output_origin(head, rest, q);
            match origin(head.len() as int, rest, q) {
                Origin::Text(p) => {
                    assert forall|k: int| 0 <= k < redactions.len() implies !((
                    #[trigger] redactions[k]).range.start <= p < redactions[k].range.end) by {
                        if k > 0 {
                            assert(rest[k - 1] == redactions[k]);
                        }
                    }
                },
                Origin::Replacement(k, at) => {
                    assert(rest[k] == redactions[k + 1]);
                },
            }
        } else if q < inner.len() + first.bytes@.len() {
        } else {
            let p = first.range.end + (q - inner.len() - first.bytes@.len());
            assert forall|k: int| 0 <= k < redactions.len() implies !((
            #[trigger] redactions[k]).range.start <= p < redactions[k].range.end) by {
                if k > 0 {
                    super::replace::lemma_chained_below(redactions, len, k);
                }
            }
        }
    }
}

/// The length of the redacted text.
proof fn lemma_spliced_len(content: Seq<u8>, redactions: Seq<Redaction>)
    requires
        chained(redactions),
        all_in_bounds(redactions, content.len() as int),
    ensures
        spliced(content, redactions).len() == spliced_len(content.len() as int, redactions),
    decreases redactions.len(),
{
    if redactions.len() > 0 {
        assert(in_bounds(redactions[0], content.len() as int));
        super::replace::lemma_rest(redactions, content.len() as int);
        lemma_spliced_len(content.subrange(0, redactions[0].range.start as int), redactions.skip(1));
    }
}

/// The redactions that gave `output`, in the order in which they were
/// carried out.
pub open spec fn carried_out(content: Seq<u8>, tree: Seq<Element>, output: Seq<u8>) -> Seq<Redaction> {
    super::replace::descending(
        choose|redactions: Seq<Redaction>| #[trigger] carried(content, tree, output, redactions),
    )
}

/// Of every text that a redaction gives: each place lies in the text; the
/// text is the splice of one redaction for each place, each apart from the
/// others; and each of its bytes is either a byte of the text from outside
/// place `k`, whichever place that is, or a byte of a replacement that fits
/// one of the places.
pub proof fn lemma_output_clear_of_place(
    content: Seq<u8>,
    tree: Seq<Element>,
    output: Vec<u8>,
    k: int,
    q: int,
)
    requires
        redacted(content, tree, Ok(output)),
        0 <= k < sites(content, tree).len(),
        0 <= q < output@.len(),
    ensures
        sites(content, tree)[k].range.start <= sites(content, tree)[k].range.end <= content.len(),
        chained(carried_out(content, tree, output@)),
        all_in_bounds(carried_out(content, tree, output@), content.len() as int),
        output@ == spliced(content, carried_out(content, tree, output@)),
        match origin(content.len() as int, carried_out(content, tree, output@), q) {
            Origin::Text(p) => {
                &&& 0 <= p < content.len()
                &&& output@[q] == content[p]
                &&& !(sites(content, tree)[k].range.start <= p < sites(content, tree)[k].range.end)
            },
            Origin::Replacement(j, at) => {
                &&& 0 <= j < carried_out(content, tree, output@).len()
                &&& 0 <= at < carried_out(content, tree, output@)[j].bytes@.len()
                &&& output@[q] == carried_out(content, tree, output@)[j].bytes@[at]
                &&& exists|m: int|
                    0 <= m < sites(content, tree).len() && fits(
                        content,
                        tree,
                        #[trigger] sites(content, tree)[m],
                        carried_out(content, tree, output@)[j],
                    )
            },
        },
{
    let len = content.len() as int;
    let places = sites(content, tree);
    let given = choose|redactions: Seq<Redaction>| #[trigger]
        carried(content, tree, output@, redactions);
    let sorted = super::replace::descending(given);
    assert(fits(content, tree, places[k], given[k]));
    assert(in_bounds(given[k], len));
    super::lemma_fit_separate(content, tree, places, given);
    super::replace::lemma_descending_props(given, given[k], len);
    super::replace::lemma_chained_separate(sorted, len);
    lemma_output_origin(content, sorted, q);
    match origin(len, sorted, q) {
        Origin::Text(p) => {
            super::replace::lemma_descending_holds(given, k);
            let j = choose|j: int| 0 <= j < sorted.len() && #[trigger] sorted[j] == given[k];
            assert(!(sorted[j].range.start <= p < sorted[j].range.end));
        },
        Origin::Replacement(j, at) => {
            super::replace::lemma_descending_held(given, j);
            let m = choose|m: int| 0 <= m < given.len() && #[trigger] given[m] == sorted[j];
            assert(fits(content, tree, places[m], sorted[j]));
        },
    }
}

/// No byte of the text that a redaction gives comes from an element that one
/// of the places covers.
pub proof fn lemma_covered_absent(
    content: Seq<u8>,
    tree: Seq<Element>,
    output: Vec<u8>,
    range: Range,
    secret: Secret,
    element: Element,
    q: int,
)
    requires
        redacted(content, tree, Ok(output)),
        listed(sites(content, tree), range, secret),
        covers(range, element),
        0 <= q < output@.len(),
    ensures
        origin(content.len() as int, carried_out(content, tree, output@), q) matches Origin::Text(p)
            ==> !(element.start <= p < element.end),
{
    let places = sites(content, tree);
    let k = choose|k: int| 0 <= k < places.len() && #[trigger] places[k] == (Site { range, secret });
    lemma_output_clear_of_place(content, tree, output, k, q);
}

/// No byte of the text that a redaction gives comes from a comment.
pub proof fn lemma_comment_absent(
    content: Seq<u8>,
    tree: Seq<Element>,
    output: Vec<u8>,
    i: int,
    q: int,
)
    requires
        well_formed(tree, content.len() as int),
        redacted(content, tree, Ok(output)),
        0 <= i < tree.len(),
        is_comment::<Comment>(content, tree, i),
        0 <= q < output@.len(),
    ensures
        origin(content.len() as int, carried_out(content, tree, output@), q) matches Origin::Text(p)
            ==> !(tree[i].start <= p < tree[i].end),
{
    lemma_comment_covered(content, tree, i);
    lemma_covered_absent(content, tree, output, comment_range(tree, i), Secret::Comment, tree[i], q);
}

/// No byte of the text that a redaction gives comes from the string that
/// holds a key of `bcrypt` or `sha512`.
pub proof fn lemma_key_absent(content: Seq<u8>, tree: Seq<Element>, output: Vec<u8>, i: int, q: int)
    requires
        well_formed(tree, content.len() as int),
        redacted(content, tree, Ok(output)),
        0 <= i < tree.len(),
        site_at(content, tree, i) matches Some(site) && (site.secret is Bcrypt || site.secret is Sha512),
        0 <= q < output@.len(),
    ensures
        key_site(tree, i) is Some,
        origin(content.len() as int, carried_out(content, tree, output@), q) matches Origin::Text(p)
            ==> !(tree[key_site(tree, i)->0.key].start <= p < tree[key_site(tree, i)->0.key].end),
{
    lemma_key_covered(content, tree, i);
    let site = site_at(content, tree, i)->0;
    lemma_covered_absent(
        content,
        tree,
        output,
        site.range,
        site.secret,
        tree[key_site(tree, i)->0.key],
        q,
    );
}

/// No byte of the text that a redaction gives comes from the strings that
/// hold a salt and a key of `psk`.
pub proof fn lemma_salt_and_key_absent(
    content: Seq<u8>,
    tree: Seq<Element>,
    output: Vec<u8>,
    i: int,
    q: int,
)
    requires
        well_formed(tree, content.len() as int),
        redacted(content, tree, Ok(output)),
        0 <= i < tree.len(),
        site_at(content, tree, i) matches Some(site) && site.secret is Psk,
        0 <= q < output@.len(),
    ensures
        salt_key_site(tree, i) is Some,
        origin(content.len() as int, carried_out(content, tree, output@), q) matches Origin::Text(p)
            ==> !(tree[salt_key_site(tree, i)->0.salt].start <= p < tree[salt_key_site(
            tree,
            i,
        )->0.salt].end) && !(tree[salt_key_site(tree, i)->0.key].start <= p < tree[salt_key_site(
            tree,
            i,
        )->0.key].end),
{
    lemma_salt_and_key_covered(content, tree, i);
    let site = site_at(content, tree, i)->0;
    lemma_covered_absent(
        content,
        tree,
        output,
        site.range,
        site.secret,
        tree[salt_key_site(tree, i)->0.salt],
        q,
    );
    lemma_covered_absent(
        content,
        tree,
        output,
        site.range,
        site.secret,
        tree[salt_key_site(tree, i)->0.key],
        q,
    );
}

/// No byte of the text that a redaction gives comes from a parameter list
/// that holds nothing but names of the functions.
pub proof fn lemma_pattern_absent(
    content: Seq<u8>,
    tree: Seq<Element>,
    output: Vec<u8>,
    i: int,
    q: int,
)
    requires
        well_formed(tree, content.len() as int),
        redacted(content, tree, Ok(output)),
        0 <= i < tree.len(),
        is_ident(tree[i]),
        pattern_of(tree, i) is Some,
        all_accepted::<Pattern>(content, tree, pattern_of(tree, i)->0),
        0 <= q < output@.len(),
    ensures
        origin(content.len() as int, carried_out(content, tree, output@), q) matches Origin::Text(p)
            ==> !(tree[pattern_of(tree, i)->0].start <= p < tree[pattern_of(tree, i)->0].end),
{
    lemma_pattern_covered(content, tree, i);
    lemma_covered_absent(
        content,
        tree,
        output,
        whole_range(tree, pattern_of(tree, i)->0),
        Secret::Pattern,
        tree[pattern_of(tree, i)->0],
        q,
    );
}

/// Whatever `process` gives is UTF-8.
pub proof fn lemma_process_gives_text(content: Seq<u8>, output: Vec<u8>)
    requires
        super::processed(content, Ok(output)),
    ensures
        vstd::utf8::valid_utf8(output@),
{
}

} // verus!
