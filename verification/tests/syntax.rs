use boxednix::redact::syntax::{self, Element, Shape, Step, SyntaxTree};
use rnix::SyntaxKind;

#[test]
fn kinds_are_the_parsers() {
    assert_eq!(syntax::TOKEN_COMMENT, SyntaxKind::TOKEN_COMMENT as u16);
    assert_eq!(syntax::TOKEN_ERROR, SyntaxKind::TOKEN_ERROR as u16);
    assert_eq!(syntax::TOKEN_WHITESPACE, SyntaxKind::TOKEN_WHITESPACE as u16);
    assert_eq!(syntax::TOKEN_R_BRACE, SyntaxKind::TOKEN_R_BRACE as u16);
    assert_eq!(syntax::TOKEN_COLON, SyntaxKind::TOKEN_COLON as u16);
    assert_eq!(syntax::TOKEN_ELLIPSIS, SyntaxKind::TOKEN_ELLIPSIS as u16);
    assert_eq!(syntax::TOKEN_STRING_CONTENT, SyntaxKind::TOKEN_STRING_CONTENT as u16);
    assert_eq!(syntax::NODE_APPLY, SyntaxKind::NODE_APPLY as u16);
    assert_eq!(syntax::NODE_ERROR, SyntaxKind::NODE_ERROR as u16);
    assert_eq!(syntax::NODE_IDENT, SyntaxKind::NODE_IDENT as u16);
    assert_eq!(syntax::NODE_STRING, SyntaxKind::NODE_STRING as u16);
    assert_eq!(syntax::NODE_PAREN, SyntaxKind::NODE_PAREN as u16);
    assert_eq!(syntax::NODE_PATTERN, SyntaxKind::NODE_PATTERN as u16);
    assert_eq!(syntax::NODE_PAT_ENTRY, SyntaxKind::NODE_PAT_ENTRY as u16);
}

fn enter(leaf: bool, kind: u16, start: usize, end: usize) -> Step {
    Step {
        enter: true,
        leaf,
        kind,
        start,
        end,
    }
}

fn leave(leaf: bool, kind: u16, start: usize, end: usize) -> Step {
    Step {
        enter: false,
        leaf,
        kind,
        start,
        end,
    }
}

/// A root over `ab cd`: a node over `ab`, a blank, a token `cd`.
fn small_walk() -> Vec<Step> {
    vec![
        enter(false, 75, 0, 5),
        enter(false, 58, 0, 2),
        enter(true, 44, 0, 2),
        leave(true, 44, 0, 2),
        leave(false, 58, 0, 2),
        enter(true, 2, 2, 3),
        leave(true, 2, 2, 3),
        enter(true, 44, 3, 5),
        leave(true, 44, 3, 5),
        leave(false, 75, 0, 5),
    ]
}

#[test]
fn build_gives_each_element_its_parent() {
    let tree = SyntaxTree::build(&small_walk(), 5).expect("a tree");
    assert_eq!(tree.len(), 5);
    let elements: Vec<Element> = (0..tree.len()).map(|i| tree.get(i)).collect();
    assert_eq!(
        elements,
        vec![
            Element { kind: 75, leaf: false, start: 0, end: 5, parent: None },
            Element { kind: 58, leaf: false, start: 0, end: 2, parent: Some(0) },
            Element { kind: 44, leaf: true, start: 0, end: 2, parent: Some(1) },
            Element { kind: 2, leaf: true, start: 2, end: 3, parent: Some(0) },
            Element { kind: 44, leaf: true, start: 3, end: 5, parent: Some(0) },
        ]
    );
}

#[test]
fn build_refuses_a_walk_that_ends_early() {
    assert!(SyntaxTree::build(&small_walk(), 6).is_none());
    let mut open = small_walk();
    open.pop();
    assert!(SyntaxTree::build(&open, 5).is_none());
    assert!(SyntaxTree::build(&Vec::new(), 0).is_none());
}

#[test]
fn build_refuses_a_gap() {
    let mut steps = small_walk();
    steps[7] = enter(true, 44, 4, 5);
    steps[8] = leave(true, 44, 4, 5);
    assert!(SyntaxTree::build(&steps, 5).is_none());
}

#[test]
fn build_refuses_a_leave_that_does_not_match() {
    let mut steps = small_walk();
    steps[4] = leave(false, 59, 0, 2);
    assert!(SyntaxTree::build(&steps, 5).is_none());
    let mut steps = small_walk();
    steps[9] = leave(false, 75, 0, 4);
    assert!(SyntaxTree::build(&steps, 5).is_none());
}

#[test]
fn build_refuses_an_element_in_a_token() {
    let steps = vec![
        enter(false, 75, 0, 2),
        enter(true, 44, 0, 2),
        enter(true, 44, 0, 2),
        leave(true, 44, 0, 2),
        leave(true, 44, 0, 2),
        leave(false, 75, 0, 2),
    ];
    assert!(SyntaxTree::build(&steps, 2).is_none());
}

#[test]
fn build_refuses_an_element_beyond_its_node() {
    let steps = vec![
        enter(false, 75, 0, 3),
        enter(false, 58, 0, 2),
        enter(true, 44, 0, 3),
        leave(true, 44, 0, 3),
        leave(false, 58, 0, 2),
        leave(false, 75, 0, 3),
    ];
    assert!(SyntaxTree::build(&steps, 3).is_none());
}

#[test]
fn build_refuses_a_second_root() {
    let steps = vec![
        enter(false, 75, 0, 0),
        leave(false, 75, 0, 0),
        enter(false, 75, 0, 0),
        leave(false, 75, 0, 0),
    ];
    assert!(SyntaxTree::build(&steps, 0).is_none());
}

#[test]
fn searches_stay_in_the_node() {
    let tree = SyntaxTree::build(&small_walk(), 5).expect("a tree");
    assert_eq!(tree.find_next(1, Some(0), Shape::Any, &[2], false), Some(1));
    assert_eq!(tree.find_next(2, Some(0), Shape::Any, &[2], false), Some(4));
    assert_eq!(tree.find_next(1, Some(0), Shape::Token, &[], false), Some(3));
    assert_eq!(tree.find_next(1, Some(0), Shape::Node, &[58], true), Some(1));
    assert_eq!(tree.find_next(2, Some(0), Shape::Node, &[58], true), None);
    assert_eq!(tree.find_next(9, Some(0), Shape::Any, &[], false), None);
    assert_eq!(tree.find_prev(4, Some(0), Shape::Any, &[2], false), Some(1));
    assert_eq!(tree.find_prev(4, Some(0), Shape::Any, &[2], true), Some(3));
    assert_eq!(tree.find_prev(1, Some(0), Shape::Any, &[], false), None);
    assert_eq!(tree.find_prev(9, Some(0), Shape::Any, &[], false), None);
}
