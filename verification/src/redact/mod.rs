//! The redact engine: finds the secrets of a Nix text and writes the text
//! again without them.

pub mod bcrypt;
pub mod comment;
pub mod laws;
pub mod model;
pub mod nix;
pub mod pattern;
pub mod psk;
pub mod replace;
pub mod sha;
pub mod syntax;

use std::collections::HashSet;
use vstd::prelude::*;
use vstd::utf8::{decode_utf8, encode_utf8, encode_utf8_valid_utf8, valid_utf8};

use self::bcrypt::{is_bcrypt_of, Bcrypt};
use self::comment::Comment;
use self::model::quoted_spec;
use self::nix::{
    comment_range, is_comment, key_site, on_boundaries, parsed, pattern_of, pattern_ranges,
    range_on_boundaries, salt_key_site, string_text, text_at, Key, Position, SaltAndKey,
};
use self::pattern::Pattern;
use self::psk::{derived_text, Psk};
use self::replace::{
    all_in_bounds, all_keep_text, descending, in_bounds, keeps_text, ranges_apart, separate,
    spliced, Range, RedactError, Redaction, Replace,
};
use self::sha::{is_sha512_of, Sha512};
use self::syntax::{Element, SyntaxTree, NODE_ERROR, NODE_IDENT, TOKEN_ERROR};

verus! {

/// What stands at a place that is taken out of the text.
pub enum Secret {
    /// A key of `bcrypt`, in the string node `key`.
    Bcrypt { key: int },
    /// A key of `sha512`, in the string node `key`.
    Sha512 { key: int },
    /// A salt and a key of `psk`, in the string nodes `salt` and `key`.
    Psk { salt: int, key: int },
    /// A comment.
    Comment,
    /// A parameter list, or an entry of one.
    Pattern,
}

/// A place that is taken out of the text.
pub struct Site {
    pub range: Range,
    pub secret: Secret,
}

/// An error marker of the parser, node or token.
pub open spec fn is_error(element: Element) -> bool {
    (!element.leaf && element.kind == NODE_ERROR) || (element.leaf && element.kind == TOKEN_ERROR)
}

/// The tree holds an error marker.
pub open spec fn has_error(tree: Seq<Element>) -> bool {
    exists|i: int| 0 <= i < tree.len() && is_error(#[trigger] tree[i])
}

/// An identifier node.
pub open spec fn is_ident(element: Element) -> bool {
    !element.leaf && element.kind == NODE_IDENT
}

/// The place that element `i` gives, if any: an identifier that names one of
/// the functions, applied to its strings, or a comment. An identifier that
/// names an entry of a parameter list gives none; its list does.
pub open spec fn site_at(content: Seq<u8>, tree: Seq<Element>, i: int) -> Option<Site> {
    let text = text_at(content, tree[i]);
    if is_ident(tree[i]) {
        if pattern_of(tree, i) is Some {
            None
        } else if <Bcrypt as Key>::accepts(text) && key_site(tree, i) is Some {
            Some(
                Site {
                    range: key_site(tree, i)->0.range,
                    secret: Secret::Bcrypt { key: key_site(tree, i)->0.key },
                },
            )
        } else if <Sha512 as Key>::accepts(text) && key_site(tree, i) is Some {
            Some(
                Site {
                    range: key_site(tree, i)->0.range,
                    secret: Secret::Sha512 { key: key_site(tree, i)->0.key },
                },
            )
        } else if <Psk as SaltAndKey>::accepts(text) && salt_key_site(tree, i) is Some {
            Some(
                Site {
                    range: salt_key_site(tree, i)->0.range,
                    secret: Secret::Psk {
                        salt: salt_key_site(tree, i)->0.salt,
                        key: salt_key_site(tree, i)->0.key,
                    },
                },
            )
        } else {
            None
        }
    } else if is_comment::<Comment>(content, tree, i) {
        Some(Site { range: comment_range(tree, i), secret: Secret::Comment })
    } else {
        None
    }
}

/// The places that the first `upto` elements give, in document order.
pub open spec fn found_sites(content: Seq<u8>, tree: Seq<Element>, upto: int) -> Seq<Site>
    decreases upto,
{
    if upto <= 0 || upto > tree.len() {
        Seq::empty()
    } else {
        match site_at(content, tree, upto - 1) {
            Some(site) => found_sites(content, tree, upto - 1).push(site),
            None => found_sites(content, tree, upto - 1),
        }
    }
}

/// The parameter lists with an entry named among the first `upto` elements,
/// each once, in the order in which their first name comes.
pub open spec fn named_patterns(tree: Seq<Element>, upto: int) -> Seq<usize>
    decreases upto,
{
    if upto <= 0 || upto > tree.len() {
        Seq::empty()
    } else if is_ident(tree[upto - 1]) && pattern_of(tree, upto - 1) is Some && !named_patterns(
        tree,
        upto - 1,
    ).contains(pattern_of(tree, upto - 1)->0 as usize) {
        named_patterns(tree, upto - 1).push(pattern_of(tree, upto - 1)->0 as usize)
    } else {
        named_patterns(tree, upto - 1)
    }
}

/// The places that the parameter list `node` gives.
pub open spec fn sites_of_pattern(content: Seq<u8>, tree: Seq<Element>, node: int) -> Seq<Site> {
    Seq::new(
        pattern_ranges::<Pattern>(content, tree, node).len(),
        |k: int|
            Site { range: pattern_ranges::<Pattern>(content, tree, node)[k], secret: Secret::Pattern },
    )
}

/// The places that the parameter lists `patterns` give, list by list.
pub open spec fn pattern_sites(content: Seq<u8>, tree: Seq<Element>, patterns: Seq<usize>) -> Seq<
    Site,
>
    decreases patterns.len(),
{
    if patterns.len() == 0 {
        Seq::empty()
    } else {
        pattern_sites(content, tree, patterns.drop_last()) + sites_of_pattern(
            content,
            tree,
            patterns.last() as int,
        )
    }
}

/// Every place that is taken out of the text: those that the elements give,
/// then those of the parameter lists.
pub open spec fn sites(content: Seq<u8>, tree: Seq<Element>) -> Seq<Site> {
    found_sites(content, tree, tree.len() as int) + pattern_sites(
        content,
        tree,
        named_patterns(tree, tree.len() as int),
    )
}

/// Whether the derivation for the place can fail: a bcrypt hash needs
/// random bytes, which may not be had, and a key of `sha512` has to be
/// UTF-8. A derived key never fails, and nothing else is derived.
pub open spec fn may_fail(content: Seq<u8>, tree: Seq<Element>, secret: Secret) -> bool {
    match secret {
        Secret::Bcrypt { .. } => true,
        Secret::Sha512 { key } => !valid_utf8(string_text(content, tree, key)),
        _ => false,
    }
}

/// Some element gives a place for which the derivation can fail.
pub open spec fn derivation_may_fail(content: Seq<u8>, tree: Seq<Element>) -> bool {
    exists|i: int|
        0 <= i < tree.len() && (#[trigger] site_at(content, tree, i)) is Some && may_fail(
            content,
            tree,
            site_at(content, tree, i)->0.secret,
        )
}

/// No two places share a byte or a start.
pub open spec fn sites_separate(sites: Seq<Site>) -> bool {
    forall|i: int, j: int|
        0 <= i < j < sites.len() ==> ranges_apart((#[trigger] sites[i]).range, (#[trigger] sites[j]).range)
}

/// Whether `redaction` is one that the place admits: it has the place's
/// range. For a hash it holds, in quotes, a hash that has its shape and
/// that checks against the key; for a derived key the key's text in quotes;
/// and for a comment or a parameter list nothing.
pub open spec fn fits(
    content: Seq<u8>,
    tree: Seq<Element>,
    site: Site,
    redaction: Redaction,
) -> bool {
    &&& redaction.range == site.range
    &&& match site.secret {
        Secret::Bcrypt { key } => is_bcrypt_of(string_text(content, tree, key), redaction.bytes@),
        Secret::Sha512 { key } => is_sha512_of(
            decode_utf8(string_text(content, tree, key)),
            redaction.bytes@,
        ),
        Secret::Psk { salt, key } => redaction.bytes@ == encode_utf8(
            quoted_spec(
                derived_text(string_text(content, tree, salt), string_text(content, tree, key)),
            ),
        ),
        Secret::Comment => redaction.bytes@ == Seq::<u8>::empty(),
        Secret::Pattern => redaction.bytes@ == Seq::<u8>::empty(),
    }
}

/// There is one redaction for each place, in the same order, and it fits.
pub open spec fn all_fit(
    content: Seq<u8>,
    tree: Seq<Element>,
    sites: Seq<Site>,
    redactions: Seq<Redaction>,
) -> bool {
    &&& redactions.len() == sites.len()
    &&& forall|k: int|
        0 <= k < sites.len() ==> fits(content, tree, #[trigger] sites[k], redactions[k])
}

/// The text is UTF-8, and no element of the tree cuts a character in two.
pub open spec fn is_text(content: Seq<u8>, tree: Seq<Element>) -> bool {
    valid_utf8(content) && on_boundaries(tree, content)
}

/// Where the text is UTF-8 and the tree fits it, each redaction keeps it so.
pub open spec fn text_kept(content: Seq<u8>, tree: Seq<Element>, redactions: Seq<Redaction>) -> bool {
    is_text(content, tree) ==> all_keep_text(redactions, content)
}

/// What takes the place of a secret is UTF-8.
pub proof fn lemma_fits_text(content: Seq<u8>, tree: Seq<Element>, site: Site, redaction: Redaction)
    requires
        fits(content, tree, site, redaction),
    ensures
        valid_utf8(redaction.bytes@),
{
    match site.secret {
        Secret::Bcrypt { key } => {
            let hash = choose|hash: Seq<char>|
                self::bcrypt::bcrypt_shaped(hash) && self::bcrypt::bcrypt_verifies(
                    string_text(content, tree, key),
                    hash,
                ) && redaction.bytes@ == encode_utf8(#[trigger] quoted_spec(hash));
            encode_utf8_valid_utf8(quoted_spec(hash));
        },
        Secret::Sha512 { key } => {
            let hash = choose|hash: Seq<char>|
                self::sha::sha512_shaped(hash) && self::sha::sha512_checks(
                    decode_utf8(string_text(content, tree, key)),
                    hash,
                ) && redaction.bytes@ == encode_utf8(#[trigger] quoted_spec(hash));
            encode_utf8_valid_utf8(quoted_spec(hash));
        },
        Secret::Psk { salt, key } => {
            encode_utf8_valid_utf8(
                quoted_spec(
                    derived_text(string_text(content, tree, salt), string_text(content, tree, key)),
                ),
            );
        },
        Secret::Comment => {},
        Secret::Pattern => {},
    }
}

/// The place that an element gives cuts no character in two.
pub proof fn lemma_site_on_boundaries(content: Seq<u8>, tree: Seq<Element>, i: int)
    requires
        on_boundaries(tree, content),
        0 <= i < tree.len(),
        site_at(content, tree, i) is Some,
    ensures
        range_on_boundaries(site_at(content, tree, i)->0.range, content),
{
    match site_at(content, tree, i)->0.secret {
        Secret::Bcrypt { .. } => {
            nix::lemma_lifted_on_boundaries(tree, content, nix::applied_in(tree, i)->0);
        },
        Secret::Sha512 { .. } => {
            nix::lemma_lifted_on_boundaries(tree, content, nix::applied_in(tree, i)->0);
        },
        Secret::Psk { .. } => {
            let inner = nix::applied_in(tree, i)->0;
            nix::lemma_lifted_on_boundaries(tree, content, nix::applied_in(tree, inner)->0);
        },
        Secret::Comment => {
            nix::lemma_comment_on_boundaries(tree, content, i);
        },
        Secret::Pattern => {},
    }
}

/// One more redaction that keeps the text what it is.
proof fn lemma_push_text(
    content: Seq<u8>,
    tree: Seq<Element>,
    redactions: Seq<Redaction>,
    r: Redaction,
)
    requires
        text_kept(content, tree, redactions),
        is_text(content, tree) ==> keeps_text(r, content),
    ensures
        text_kept(content, tree, redactions.push(r)),
{
    if is_text(content, tree) {
        let all = redactions.push(r);
        assert forall|i: int| 0 <= i < all.len() implies keeps_text(#[trigger] all[i], content) by {
            if i < redactions.len() {
                assert(keeps_text(redactions[i], content));
            }
        }
    }
}

/// What one element gives.
pub enum Finding {
    /// Nothing.
    Nothing,
    /// It names an entry of this parameter list.
    Listed(usize),
    /// A redaction.
    Replaced(Redaction),
}

/// Whether the tree holds an error marker, among what the walker hands on.
pub fn find_error(tree: &SyntaxTree, places: &Vec<usize>) -> (found: bool)
    requires
        nix::walked(tree@, places@),
    ensures
        found == has_error(tree@),
{
    let mut k: usize = 0;
    while k < places.len()
        invariant
            0 <= k <= places@.len(),
            nix::walked(tree@, places@),
            forall|j: int| 0 <= j < k ==> !is_error(tree@[(#[trigger] places@[j]) as int]),
        decreases places@.len() - k,
    {
        if nix::is_node_error(tree, places[k]) || nix::is_token_error(tree, places[k]) {
            assert(is_error(tree@[places@[k as int] as int]));
            return true;
        }
        k += 1;
    }
    proof {
        assert forall|i: int| 0 <= i < tree@.len() implies !is_error(#[trigger] tree@[i]) by {
            if is_error(tree@[i]) {
                assert(nix::relevant(tree@[i]));
                let j = choose|j: int| 0 <= j < places@.len() && places@[j] == i as usize;
                assert(!is_error(tree@[places@[j] as int]));
            }
        }
    }
    false
}

/// Elements that the walker passes over give no place, and name no
/// parameter list.
proof fn lemma_gap(content: Seq<u8>, tree: Seq<Element>, from: int, upto: int)
    requires
        0 <= from <= upto <= tree.len(),
        forall|i: int| from <= i < upto ==> !nix::relevant(#[trigger] tree[i]),
    ensures
        found_sites(content, tree, upto) == found_sites(content, tree, from),
        named_patterns(tree, upto) == named_patterns(tree, from),
    decreases upto - from,
{
    if from < upto {
        lemma_gap(content, tree, from, upto - 1);
        assert(!nix::relevant(tree[upto - 1]));
    }
}

/// Between two places that follow one another in the walk, and after the
/// last, the walker passes over every element.
proof fn lemma_between(tree: Seq<Element>, places: Seq<usize>, k: int, from: int, upto: int)
    requires
        nix::walked(tree, places),
        0 <= k <= places.len(),
        from == if k == 0 {
            0
        } else {
            places[k - 1] + 1
        },
        upto == if k == places.len() {
            tree.len() as int
        } else {
            places[k] as int
        },
    ensures
        forall|i: int| from <= i < upto ==> !nix::relevant(#[trigger] tree[i]),
        0 <= from,
        k < places.len() ==> from <= upto,
{
    assert forall|i: int| from <= i < upto implies !nix::relevant(#[trigger] tree[i]) by {
        if nix::relevant(tree[i]) {
            let j = choose|j: int| 0 <= j < places.len() && places[j] == i as usize;
            if j < k {
                if j < k - 1 {
                    assert(places[j] < places[k - 1]);
                }
            } else if j > k {
                assert(places[k] < places[j]);
            }
        }
    }
    if 0 < k < places.len() {
        assert(places[k - 1] < places[k]);
    }
}

/// Reads element `i`: what it names, and the redaction for it, with
/// whatever has to be derived.
pub fn classify(content: &[u8], tree: &SyntaxTree, i: usize) -> (result: Result<
    Finding,
    RedactError,
>)
    requires
        tree.wf(),
        tree.text_len() == content@.len(),
        i < tree@.len(),
    ensures
        match result {
            Ok(Finding::Nothing) => site_at(content@, tree@, i as int) is None && !(is_ident(
                tree@[i as int],
            ) && pattern_of(tree@, i as int) is Some),
            Ok(Finding::Listed(p)) => is_ident(tree@[i as int]) && pattern_of(tree@, i as int) == Some(
                p as int,
            ) && p < i,
            Ok(Finding::Replaced(r)) => site_at(content@, tree@, i as int) is Some && fits(
                content@,
                tree@,
                site_at(content@, tree@, i as int)->0,
                r,
            ) && in_bounds(r, content@.len() as int) && (is_text(content@, tree@) ==> keeps_text(
                r,
                content@,
            )),
            Err(e) => e == RedactError::Derivation && site_at(content@, tree@, i as int) is Some
                && may_fail(content@, tree@, site_at(content@, tree@, i as int)->0.secret),
        },
{
    let e = tree.get(i);
    proof {
        syntax::lemma_element(tree@, tree.text_len(), i as int);
        if site_at(content@, tree@, i as int) is Some && is_text(content@, tree@) {
            lemma_site_on_boundaries(content@, tree@, i as int);
        }
    }
    if !e.leaf && e.kind == NODE_IDENT {
        if let Some(p) = nix::parse_pattern(tree, i) {
            return Ok(Finding::Listed(p));
        }
        if let Some(bcrypt) = nix::parse_key_for::<Bcrypt>(content, tree, i)? {
            let r = Redaction::of(&bcrypt);
            proof {
                lemma_fits_text(content@, tree@, site_at(content@, tree@, i as int)->0, r);
            }
            return Ok(Finding::Replaced(r));
        }
        if let Some(sha512) = nix::parse_key_for::<Sha512>(content, tree, i)? {
            let r = Redaction::of(&sha512);
            proof {
                lemma_fits_text(content@, tree@, site_at(content@, tree@, i as int)->0, r);
            }
            return Ok(Finding::Replaced(r));
        }
        if let Some(psk) = nix::parse_salt_and_key_for::<Psk>(content, tree, i)? {
            let r = Redaction::of(&psk);
            proof {
                lemma_fits_text(content@, tree@, site_at(content@, tree@, i as int)->0, r);
            }
            return Ok(Finding::Replaced(r));
        }
        Ok(Finding::Nothing)
    } else {
        match nix::parse_comment_for::<Comment>(content, tree, i) {
            Some(comment) => Ok(Finding::Replaced(Redaction::of(&comment))),
            None => Ok(Finding::Nothing),
        }
    }
}


/// The set holds what the list holds.
pub open spec fn seen_all(seen: Set<usize>, list: Seq<usize>) -> bool {
    forall|x: usize| seen.contains(x) <==> list.contains(x)
}

/// The result of going through the elements: the redactions that they give,
/// and the parameter lists that they name.
pub struct Found {
    pub redactions: Vec<Redaction>,
    pub patterns: Vec<usize>,
}

/// Takes in what element `i` gives: its redaction, or the parameter list
/// that it names.
fn take_in(
    content: &[u8],
    tree: &SyntaxTree,
    i: usize,
    redactions: &mut Vec<Redaction>,
    patterns: &mut Vec<usize>,
    seen: &mut HashSet<usize>,
) -> (result: Result<(), RedactError>)
    requires
        seen_all(old(seen)@, old(patterns)@),
        tree.wf(),
        tree.text_len() == content@.len(),
        i < tree@.len(),
        all_fit(content@, tree@, found_sites(content@, tree@, i as int), old(redactions)@),
        all_in_bounds(old(redactions)@, content@.len() as int),
        text_kept(content@, tree@, old(redactions)@),
        old(patterns)@ == named_patterns(tree@, i as int),
        forall|j: int| 0 <= j < old(patterns)@.len() ==> (#[trigger] old(patterns)@[j]) < tree@.len(),
    ensures
        match result {
            Ok(()) => {
                &&& all_fit(content@, tree@, found_sites(content@, tree@, i + 1), final(redactions)@)
                &&& all_in_bounds(final(redactions)@, content@.len() as int)
                &&& text_kept(content@, tree@, final(redactions)@)
                &&& final(patterns)@ == named_patterns(tree@, i + 1)
                &&& seen_all(final(seen)@, final(patterns)@)
                &&& forall|j: int|
                    0 <= j < final(patterns)@.len() ==> (#[trigger] final(patterns)@[j]) < tree@.len()
            },
            Err(e) => e == RedactError::Derivation && derivation_may_fail(content@, tree@),
        },
{
    broadcast use vstd::std_specs::hash::group_hash_axioms;

    let ghost before = redactions@;
    let ghost sites_before = found_sites(content@, tree@, i as int);
    match classify(content, tree, i) {
        Ok(Finding::Nothing) => Ok(()),
        Ok(Finding::Listed(p)) => {
            let ghost listed = patterns@;
            if seen.insert(p) {
                patterns.push(p);
                proof {
                    assert forall|x: usize| seen@.contains(x) <==> patterns@.contains(x) by {
                        if listed.contains(x) {
                            let k = choose|k: int| 0 <= k < listed.len() && listed[k] == x;
                            assert(patterns@[k] == x);
                        }
                        if x == p {
                            assert(patterns@[listed.len() as int] == x);
                        }
                    }
                }
            }
            Ok(())
        },
        Ok(Finding::Replaced(r)) => {
            let ghost added = r;
            redactions.push(r);
            proof {
                assert(redactions@ == before.push(added));
                lemma_push_text(content@, tree@, before, added);
                let site = site_at(content@, tree@, i as int)->0;
                let sites_after = found_sites(content@, tree@, i + 1);
                assert(sites_after == sites_before.push(site));
                assert forall|j: int| 0 <= j < sites_after.len() implies fits(
                    content@,
                    tree@,
                    #[trigger] sites_after[j],
                    redactions@[j],
                ) by {
                    if j < sites_before.len() {
                        assert(fits(content@, tree@, sites_before[j], before[j]));
                    }
                }
                assert forall|j: int| 0 <= j < redactions@.len() implies in_bounds(
                    #[trigger] redactions@[j],
                    content@.len() as int,
                ) by {
                    if j < before.len() {
                        assert(in_bounds(before[j], content@.len() as int));
                    }
                }
            }
            Ok(())
        },
        Err(e) => Err(e),
    }
}

/// Goes through what the walker hands on, in document order.
pub fn collect(content: &[u8], tree: &SyntaxTree, places: &Vec<usize>) -> (result: Result<
    Found,
    RedactError,
>)
    requires
        tree.wf(),
        tree.text_len() == content@.len(),
        nix::walked(tree@, places@),
    ensures
        match result {
            Ok(found) => {
                &&& all_fit(
                    content@,
                    tree@,
                    found_sites(content@, tree@, tree@.len() as int),
                    found.redactions@,
                )
                &&& all_in_bounds(found.redactions@, content@.len() as int)
                &&& text_kept(content@, tree@, found.redactions@)
                &&& found.patterns@ == named_patterns(tree@, tree@.len() as int)
                &&& forall|k: int|
                    0 <= k < found.patterns@.len() ==> (#[trigger] found.patterns@[k]) < tree@.len()
            },
            Err(e) => e == RedactError::Derivation && derivation_may_fail(content@, tree@),
        },
{
    let mut redactions: Vec<Redaction> = Vec::new();
    let mut patterns: Vec<usize> = Vec::new();
    let mut seen: HashSet<usize> = HashSet::new();
    let mut k: usize = 0;
    let ghost mut done: int = 0;
    while k < places.len()
        invariant
            0 <= k <= places@.len(),
            tree.wf(),
            tree.text_len() == content@.len(),
            nix::walked(tree@, places@),
            done == if k == 0 {
                0
            } else {
                places@[k - 1] + 1
            },
            0 <= done <= tree@.len(),
            all_fit(content@, tree@, found_sites(content@, tree@, done), redactions@),
            all_in_bounds(redactions@, content@.len() as int),
            text_kept(content@, tree@, redactions@),
            patterns@ == named_patterns(tree@, done),
            seen_all(seen@, patterns@),
            forall|j: int| 0 <= j < patterns@.len() ==> (#[trigger] patterns@[j]) < tree@.len(),
        decreases places@.len() - k,
    {
        let i = places[k];
        proof {
            lemma_between(tree@, places@, k as int, done, i as int);
            lemma_gap(content@, tree@, done, i as int);
        }
        take_in(content, tree, i, &mut redactions, &mut patterns, &mut seen)?;
        proof {
            done = i + 1;
        }
        k += 1;
    }
    proof {
        lemma_between(tree@, places@, k as int, done, tree@.len() as int);
        lemma_gap(content@, tree@, done, tree@.len() as int);
    }
    Ok(Found { redactions, patterns })
}

/// Adds to `redactions` what the parameter list `node` gives.
fn resolve_into(content: &[u8], tree: &SyntaxTree, node: usize, redactions: &mut Vec<Redaction>)
    requires
        tree.wf(),
        tree.text_len() == content@.len(),
        node < tree@.len(),
        all_in_bounds(old(redactions)@, content@.len() as int),
        text_kept(content@, tree@, old(redactions)@),
    ensures
        all_in_bounds(final(redactions)@, content@.len() as int),
        text_kept(content@, tree@, final(redactions)@),
        final(redactions)@.len() == old(redactions)@.len() + sites_of_pattern(
            content@,
            tree@,
            node as int,
        ).len(),
        final(redactions)@.subrange(0, old(redactions)@.len() as int) == old(redactions)@,
        forall|k: int|
            0 <= k < sites_of_pattern(content@, tree@, node as int).len() ==> fits(
                content@,
                tree@,
                #[trigger] sites_of_pattern(content@, tree@, node as int)[k],
                final(redactions)@[old(redactions)@.len() + k],
            ),
{
    let ghost given = redactions@;
    let ghost ranges = pattern_ranges::<Pattern>(content@, tree@, node as int);
    let ghost places = sites_of_pattern(content@, tree@, node as int);
    let resolved = nix::resolve_pattern_for::<Pattern>(content, tree, node);
    match resolved {
        Some(list) => {
            let mut k: usize = 0;
            while k < list.len()
                invariant
                    0 <= k <= list@.len(),
                    list@.len() == ranges.len(),
                    ranges == pattern_ranges::<Pattern>(content@, tree@, node as int),
                    places == sites_of_pattern(content@, tree@, node as int),
                    node < tree@.len(),
                    tree.wf(),
                    tree.text_len() == content@.len(),
                    forall|j: int|
                        0 <= j < ranges.len() ==> <Pattern as Position>::made(
                            #[trigger] ranges[j],
                            Some(list@[j]),
                        ),
                    all_in_bounds(redactions@, content@.len() as int),
                    text_kept(content@, tree@, redactions@),
                    redactions@.len() == given.len() + k,
                    redactions@.subrange(0, given.len() as int) == given,
                    forall|j: int|
                        0 <= j < k ==> fits(
                            content@,
                            tree@,
                            #[trigger] places[j],
                            redactions@[given.len() + j],
                        ),
                decreases list@.len() - k,
            {
                let ghost before = redactions@;
                let r = Redaction::of(&list[k]);
                proof {
                    assert(<Pattern as Position>::made(ranges[k as int], Some(list@[k as int])));
                    nix::lemma_pattern_ranges_bounds::<Pattern>(content@, tree@, node as int, k as int);
                    assert(places[k as int].range == ranges[k as int]);
                    if is_text(content@, tree@) {
                        nix::lemma_pattern_ranges_on_boundaries::<Pattern>(
                            content@,
                            tree@,
                            node as int,
                            k as int,
                        );
                    }
                }
                let ghost added = r;
                redactions.push(r);
                proof {
                    assert(redactions@ == before.push(added));
                    lemma_push_text(content@, tree@, before, added);
                    assert(redactions@.subrange(0, given.len() as int) =~= before.subrange(
                        0,
                        given.len() as int,
                    ));
                    assert forall|j: int| 0 <= j < redactions@.len() implies in_bounds(
                        #[trigger] redactions@[j],
                        content@.len() as int,
                    ) by {
                        if j < before.len() {
                            assert(in_bounds(before[j], content@.len() as int));
                        }
                    }
                    assert forall|j: int| 0 <= j < k + 1 implies fits(
                        content@,
                        tree@,
                        #[trigger] places[j],
                        redactions@[given.len() + j],
                    ) by {
                        if j < k {
                            assert(fits(content@, tree@, places[j], before[given.len() + j]));
                        }
                    }
                }
                k += 1;
            }
        },
        None => {
            // does not happen: a `Pattern` is made of every range
            proof {
                let k = choose|k: int|
                    0 <= k < ranges.len() && <Pattern as Position>::made(#[trigger] ranges[k], None);
                assert(!<Pattern as Position>::made(ranges[k], None));
            }
        },
    }
    proof {
        assert(redactions@.subrange(0, given.len() as int) =~= given);
    }
}

/// Adds to `redactions` what the parameter lists give, list by list.
fn resolve_all(
    content: &[u8],
    tree: &SyntaxTree,
    patterns: &Vec<usize>,
    redactions: &mut Vec<Redaction>,
)
    requires
        tree.wf(),
        tree.text_len() == content@.len(),
        forall|k: int| 0 <= k < patterns@.len() ==> (#[trigger] patterns@[k]) < tree@.len(),
        all_in_bounds(old(redactions)@, content@.len() as int),
        text_kept(content@, tree@, old(redactions)@),
    ensures
        all_in_bounds(final(redactions)@, content@.len() as int),
        text_kept(content@, tree@, final(redactions)@),
        final(redactions)@.len() == old(redactions)@.len() + pattern_sites(
            content@,
            tree@,
            patterns@,
        ).len(),
        final(redactions)@.subrange(0, old(redactions)@.len() as int) == old(redactions)@,
        forall|k: int|
            0 <= k < pattern_sites(content@, tree@, patterns@).len() ==> fits(
                content@,
                tree@,
                #[trigger] pattern_sites(content@, tree@, patterns@)[k],
                final(redactions)@[old(redactions)@.len() + k],
            ),
{
    let ghost given = redactions@;
    let mut m: usize = 0;
    proof {
        assert(patterns@.take(0) =~= Seq::<usize>::empty());
        assert(redactions@.subrange(0, given.len() as int) =~= given);
    }
    while m < patterns.len()
        invariant
            0 <= m <= patterns@.len(),
            tree.wf(),
            tree.text_len() == content@.len(),
            forall|k: int| 0 <= k < patterns@.len() ==> (#[trigger] patterns@[k]) < tree@.len(),
            all_in_bounds(redactions@, content@.len() as int),
            text_kept(content@, tree@, redactions@),
            redactions@.len() == given.len() + pattern_sites(
                content@,
                tree@,
                patterns@.take(m as int),
            ).len(),
            redactions@.subrange(0, given.len() as int) == given,
            forall|k: int|
                0 <= k < pattern_sites(content@, tree@, patterns@.take(m as int)).len() ==> fits(
                    content@,
                    tree@,
                    #[trigger] pattern_sites(content@, tree@, patterns@.take(m as int))[k],
                    redactions@[given.len() + k],
                ),
        decreases patterns@.len() - m,
    {
        let ghost before = redactions@;
        let ghost done = pattern_sites(content@, tree@, patterns@.take(m as int));
        let ghost more = sites_of_pattern(content@, tree@, patterns@[m as int] as int);
        resolve_into(content, tree, patterns[m], redactions);
        proof {
            assert(patterns@.take(m + 1).drop_last() =~= patterns@.take(m as int));
            assert(patterns@.take(m + 1).last() == patterns@[m as int]);
            let next = pattern_sites(content@, tree@, patterns@.take(m + 1));
            assert(next == done + more);
            assert(redactions@.subrange(0, given.len() as int) =~= before.subrange(
                0,
                given.len() as int,
            )) by {
                assert(redactions@.subrange(0, before.len() as int) == before);
                assert forall|j: int| 0 <= j < given.len() implies redactions@[j] == before[j] by {
                    assert(redactions@.subrange(0, before.len() as int)[j] == redactions@[j]);
                }
            }
            assert forall|k: int| 0 <= k < next.len() implies fits(
                content@,
                tree@,
                #[trigger] next[k],
                redactions@[given.len() + k],
            ) by {
                if k < done.len() {
                    assert(fits(content@, tree@, done[k], before[given.len() + k]));
                    assert(redactions@.subrange(0, before.len() as int)[given.len() + k]
                        == redactions@[given.len() + k]);
                } else {
                    assert(fits(content@, tree@, more[k - done.len()], redactions@[before.len() + (k
                        - done.len())]));
                }
            }
        }
        m += 1;
    }
    proof {
        assert(patterns@.take(m as int) =~= patterns@);
    }
}


/// The redactions are those that give `output`: there is one for each place,
/// it fits the place and lies in the text, and `output` is the text with
/// each of them carried out.
pub open spec fn carried(
    content: Seq<u8>,
    tree: Seq<Element>,
    output: Seq<u8>,
    redactions: Seq<Redaction>,
) -> bool {
    &&& all_fit(content, tree, sites(content, tree), redactions)
    &&& all_in_bounds(redactions, content.len() as int)
    &&& output == spliced(content, descending(redactions))
}

/// What `redact` owes for a text and its tree.
pub open spec fn redacted(
    content: Seq<u8>,
    tree: Seq<Element>,
    result: Result<Vec<u8>, RedactError>,
) -> bool {
    match result {
        Ok(output) => {
            &&& !has_error(tree)
            &&& sites_separate(sites(content, tree))
            &&& exists|redactions: Seq<Redaction>| #[trigger]
                carried(content, tree, output@, redactions)
            &&& is_text(content, tree) ==> valid_utf8(output@)
        },
        Err(RedactError::Encoding) => false,
        Err(RedactError::Syntax) => has_error(tree),
        Err(RedactError::Derivation) => !has_error(tree) && derivation_may_fail(content, tree),
        Err(RedactError::Overlap) => !has_error(tree) && !sites_separate(sites(content, tree)),
    }
}

/// Redactions that fit the places are apart when the places are.
pub proof fn lemma_fit_separate(
    content: Seq<u8>,
    tree: Seq<Element>,
    places: Seq<Site>,
    redactions: Seq<Redaction>,
)
    requires
        all_fit(content, tree, places, redactions),
    ensures
        separate(redactions) == sites_separate(places),
{
    if separate(redactions) {
        assert forall|i: int, j: int| 0 <= i < j < places.len() implies ranges_apart(
            (#[trigger] places[i]).range,
            (#[trigger] places[j]).range,
        ) by {
            assert(fits(content, tree, places[i], redactions[i]));
            assert(fits(content, tree, places[j], redactions[j]));
            assert(replace::apart(redactions[i], redactions[j]));
        }
    }
    if sites_separate(places) {
        assert forall|i: int, j: int| 0 <= i < j < redactions.len() implies replace::apart(
            #[trigger] redactions[i],
            #[trigger] redactions[j],
        ) by {
            assert(fits(content, tree, places[i], redactions[i]));
            assert(fits(content, tree, places[j], redactions[j]));
        }
    }
}

/// Writes `content` again without its secrets, going by its syntax tree.
///
/// A tree with an error marker is refused. Each function applied to its
/// strings is replaced by what is derived from them, in quotes; each comment
/// goes, with the blank space before it; and each parameter list loses the
/// entries that name a function, or goes whole where it holds nothing else.
/// Replacements that share a byte are refused.
pub fn redact(content: &[u8], tree: &SyntaxTree) -> (result: Result<Vec<u8>, RedactError>)
    requires
        tree.wf(),
        tree.text_len() == content@.len(),
    ensures
        redacted(content@, tree@, result),
{
    let places = nix::walk_relevant(tree);
    if find_error(tree, &places) {
        return Err(RedactError::Syntax);
    }
    let found = collect(content, tree, &places)?;
    let mut redactions = found.redactions;
    let ghost first = redactions@;
    let ghost first_sites = found_sites(content@, tree@, tree@.len() as int);
    let ghost second_sites = pattern_sites(content@, tree@, found.patterns@);
    resolve_all(content, tree, &found.patterns, &mut redactions);
    let ghost all = redactions@;
    proof {
        let places = sites(content@, tree@);
        assert(places == first_sites + second_sites);
        assert forall|k: int| 0 <= k < places.len() implies fits(
            content@,
            tree@,
            #[trigger] places[k],
            all[k],
        ) by {
            if k < first_sites.len() {
                assert(fits(content@, tree@, first_sites[k], first[k]));
                assert(all.subrange(0, first.len() as int)[k] == all[k]);
            } else {
                assert(fits(content@, tree@, second_sites[k - first_sites.len()], all[first.len() + (k
                    - first_sites.len())]));
            }
        }
        assert(all_fit(content@, tree@, places, all));
        lemma_fit_separate(content@, tree@, places, all);
    }
    let result = replace::apply(content, redactions);
    proof {
        if result is Ok {
            assert(carried(content@, tree@, result->Ok_0@, all));
        }
    }
    result
}

/// What `process` owes for a text.
pub open spec fn processed(content: Seq<u8>, result: Result<Vec<u8>, RedactError>) -> bool {
    match parsed(content) {
        Some(tree) => redacted(content, tree, result),
        None => result matches Err(e) && e == if valid_utf8(content) {
            RedactError::Syntax
        } else {
            RedactError::Encoding
        },
    }
}

/// Writes a Nix text again without its secrets.
///
/// The text has to be UTF-8, and to parse without an error. What is then
/// done to it `redact` says.
pub fn process(content: &[u8]) -> (result: Result<Vec<u8>, RedactError>)
    ensures
        processed(content@, result),
{
    let tree = nix::parse(content)?;
    redact(content, &tree)
}

} // verus!
