use boxednix::redact::bcrypt::Bcrypt;
use boxednix::redact::comment::Comment;
use boxednix::redact::nix::{
    is_node_error, is_token_error, parse, parse_comment_for, parse_key_for, parse_pattern,
    parse_salt_and_key_for, resolve_pattern_for, walk_relevant,
};
use boxednix::redact::pattern::Pattern;
use boxednix::redact::psk::Psk;
use boxednix::redact::replace::{RedactError, Replace};
use boxednix::redact::sha::Sha512;
use boxednix::redact::syntax::{self, SyntaxTree};
use boxednix::redact::{classify, find_error, redact, Finding};

fn tree_of(text: &str) -> SyntaxTree {
    parse(text.as_bytes()).expect("a tree")
}

/// The place of the first element of this kind whose text is `text`.
fn place(tree: &SyntaxTree, content: &str, kind: u16, text: &str) -> usize {
    (0..tree.len())
        .find(|&i| tree.get(i).kind == kind && tree.text(content.as_bytes(), i) == text.as_bytes())
        .expect("an element")
}

#[test]
fn parse_covers_the_text() {
    let text = "{ a = 1; }";
    let tree = tree_of(text);
    let root = tree.get(0);
    assert_eq!((root.start, root.end, root.parent), (0, text.len(), None));
    assert_eq!(tree.text(text.as_bytes(), 0), text.as_bytes());
}

#[test]
fn parse_refuses_bytes_that_are_no_text() {
    assert!(matches!(parse(&[0xc3, 0x28]), Err(RedactError::Encoding)));
}

#[test]
fn error_markers_are_found() {
    let text = "{ a = bcrypt }";
    let tree = tree_of(text);
    assert!(find_error(&tree, &walk_relevant(&tree)));
    assert!((0..tree.len()).any(|i| is_node_error(&tree, i) || is_token_error(&tree, i)));
    assert_eq!(redact(text.as_bytes(), &tree), Err(RedactError::Syntax));
    let fine = tree_of("{ a = 1; }");
    assert!(!find_error(&fine, &walk_relevant(&fine)));
}

#[test]
fn key_of_an_application() {
    let text = "{ a = bcrypt \"secret\"; }";
    let tree = tree_of(text);
    let name = place(&tree, text, syntax::NODE_IDENT, "bcrypt");
    let found = parse_key_for::<Bcrypt>(text.as_bytes(), &tree, name)
        .expect("a hash")
        .expect("a match");
    assert_eq!(found.range(), 6..21);
    let content = std::str::from_utf8(found.content()).expect("text");
    assert!(content.starts_with('"') && content.ends_with('"'));
    assert!(bcrypt::verify("secret", &content[1..content.len() - 1]).expect("a hash"));
    assert!(parse_key_for::<Sha512>(text.as_bytes(), &tree, name)
        .expect("no hash")
        .is_none());
}

#[test]
fn key_in_parentheses() {
    let text = "[ (sha512 \"x\") ]";
    let tree = tree_of(text);
    let name = place(&tree, text, syntax::NODE_IDENT, "sha512");
    let found = parse_key_for::<Sha512>(text.as_bytes(), &tree, name)
        .expect("a hash")
        .expect("a match");
    assert_eq!(found.range(), 2..14);
}

#[test]
fn name_that_is_not_applied() {
    let text = "{ a = bcrypt; b = f bcrypt; }";
    let tree = tree_of(text);
    for i in 0..tree.len() {
        assert!(parse_key_for::<Bcrypt>(text.as_bytes(), &tree, i)
            .expect("no hash")
            .is_none());
    }
}

#[test]
fn salt_and_key_of_an_application() {
    let text = "{ a = psk \"IEEE\" \"password\"; }";
    let tree = tree_of(text);
    let name = place(&tree, text, syntax::NODE_IDENT, "psk");
    let found = parse_salt_and_key_for::<Psk>(text.as_bytes(), &tree, name)
        .expect("a key")
        .expect("a match");
    assert_eq!(found.range(), 6..27);
    assert_eq!(
        found.content(),
        b"\"f42c6fc52df0ebef9ebb4b90b38a5f902e83fe1b135a70e23aed762e9710a12e\""
    );
}

#[test]
fn comment_with_the_blank_before_it() {
    let text = "{ x = 1; # note\n}";
    let tree = tree_of(text);
    let token = place(&tree, text, syntax::TOKEN_COMMENT, "# note");
    let found = parse_comment_for::<Comment>(text.as_bytes(), &tree, token).expect("a comment");
    assert_eq!(found.range(), 8..15);
    assert_eq!(found.content(), b"");
    let other = place(&tree, text, syntax::NODE_IDENT, "x");
    assert!(parse_comment_for::<Comment>(text.as_bytes(), &tree, other).is_none());
}

#[test]
fn comment_at_the_start_of_its_node() {
    let text = "# first\n1";
    let tree = tree_of(text);
    let token = place(&tree, text, syntax::TOKEN_COMMENT, "# first");
    let found = parse_comment_for::<Comment>(text.as_bytes(), &tree, token).expect("a comment");
    assert_eq!(found.range(), 0..7);
}

#[test]
fn pattern_of_an_entry() {
    let text = "{ psk, foo }: psk";
    let tree = tree_of(text);
    let list = (0..tree.len())
        .find(|&i| tree.get(i).kind == syntax::NODE_PATTERN)
        .expect("a list");
    let entry = place(&tree, text, syntax::NODE_IDENT, "psk");
    assert_eq!(parse_pattern(&tree, entry), Some(list));
    let other = place(&tree, text, syntax::NODE_IDENT, "foo");
    assert_eq!(parse_pattern(&tree, other), Some(list));
    let body = (0..tree.len())
        .rev()
        .find(|&i| tree.get(i).kind == syntax::NODE_IDENT)
        .expect("the body");
    assert_eq!(parse_pattern(&tree, body), None);
    assert!(matches!(
        classify(text.as_bytes(), &tree, entry),
        Ok(Finding::Listed(p)) if p == list
    ));
    assert!(matches!(
        classify(text.as_bytes(), &tree, body),
        Ok(Finding::Nothing)
    ));
}

fn ranges(list: Vec<Pattern>) -> Vec<std::ops::Range<usize>> {
    list.iter().map(|p| p.range()).collect()
}

#[test]
fn pattern_with_other_entries_resolves_entry_by_entry() {
    let text = "{ bcrypt, foo, psk, ... }: 1";
    let tree = tree_of(text);
    let list = (0..tree.len())
        .find(|&i| tree.get(i).kind == syntax::NODE_PATTERN)
        .expect("a list");
    let found = resolve_pattern_for::<Pattern>(text.as_bytes(), &tree, list).expect("ranges");
    assert_eq!(ranges(found), vec![2..10, 15..20]);
}

#[test]
fn pattern_of_secret_names_resolves_whole() {
    let text = "{ bcrypt, psk }:  1";
    let tree = tree_of(text);
    let list = (0..tree.len())
        .find(|&i| tree.get(i).kind == syntax::NODE_PATTERN)
        .expect("a list");
    let found = resolve_pattern_for::<Pattern>(text.as_bytes(), &tree, list).expect("ranges");
    assert_eq!(ranges(found), vec![0..18]);
}

#[test]
fn walker_hands_on_identifiers_comments_and_errors() {
    let text = "{ a = b; # c\n}";
    let tree = tree_of(text);
    let places = walk_relevant(&tree);
    let texts: Vec<&[u8]> = places.iter().map(|&i| tree.text(text.as_bytes(), i)).collect();
    assert_eq!(texts, vec![b"a".as_slice(), b"b".as_slice(), b"# c".as_slice()]);
    let kinds: Vec<u16> = places.iter().map(|&i| tree.get(i).kind).collect();
    assert_eq!(
        kinds,
        vec![syntax::NODE_IDENT, syntax::NODE_IDENT, syntax::TOKEN_COMMENT]
    );
}
