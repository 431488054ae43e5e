use boxednix::redact::bcrypt::Bcrypt;
use boxednix::redact::comment::Comment;
use boxednix::redact::model::{quoted, QuotedString};
use boxednix::redact::nix::{Key, Position, SaltAndKey};
use boxednix::redact::pattern::{bytes_eq, Pattern, PatternEntry};
use boxednix::redact::psk::Psk;
use boxednix::redact::replace::{Redaction, Replace};
use boxednix::redact::sha::Sha512;

#[test]
fn quoted_puts_quotes_around() {
    assert_eq!(quoted("abc"), "\"abc\"");
    assert_eq!(quoted(""), "\"\"");
    assert_eq!(quoted("a\"b"), "\"a\"b\"");
    assert_eq!(QuotedString::from("x y").as_str(), "\"x y\"");
}

#[test]
fn names_of_the_functions() {
    assert_eq!(PatternEntry::Bcrypt.as_str(), "bcrypt");
    assert_eq!(PatternEntry::Sha512.as_str(), "sha512");
    assert_eq!(PatternEntry::Psk.as_str(), "psk");
    assert!(PatternEntry::Psk.is_name(b"psk"));
    assert!(!PatternEntry::Psk.is_name(b"psk "));
    assert!(!PatternEntry::Psk.is_name(b"Psk"));
    assert!(!PatternEntry::Bcrypt.is_name(b"sha512"));
}

#[test]
fn bytes_are_compared_whole() {
    assert!(bytes_eq(b"", b""));
    assert!(bytes_eq(b"abc", b"abc"));
    assert!(!bytes_eq(b"abc", b"abd"));
    assert!(!bytes_eq(b"abc", b"ab"));
}

#[test]
fn module_template() {
    assert_eq!(
        PatternEntry::to_module(),
        b"{\n  bcrypt,\n  sha512,\n  psk\n}: {\n  \n}\n".to_vec()
    );
}

#[test]
fn module_template_redacts_to_its_body() {
    assert_eq!(
        boxednix::redact::process(&PatternEntry::to_module()),
        Ok(b"{\n  \n}\n".to_vec())
    );
}

#[test]
fn conditions_go_by_the_name() {
    assert!(<Bcrypt as Key>::condition(b"bcrypt"));
    assert!(!<Bcrypt as Key>::condition(b"sha512"));
    assert!(<Sha512 as Key>::condition(b"sha512"));
    assert!(!<Sha512 as Key>::condition(b"psk"));
    assert!(<Psk as SaltAndKey>::condition(b"psk"));
    assert!(!<Psk as SaltAndKey>::condition(b"bcrypt"));
    assert!(<Pattern as Position>::condition(b"bcrypt"));
    assert!(<Pattern as Position>::condition(b"sha512"));
    assert!(<Pattern as Position>::condition(b"psk"));
    assert!(!<Pattern as Position>::condition(b"foo"));
    assert!(<Comment as Position>::condition(b"# anything"));
}

#[test]
fn derived_key_of_a_network() {
    assert_eq!(
        Psk::derive(b"IEEE", b"password"),
        Ok("f42c6fc52df0ebef9ebb4b90b38a5f902e83fe1b135a70e23aed762e9710a12e".to_string())
    );
    assert_eq!(
        Psk::derive(b"ThisIsASSID", b"ThisIsAPassword"),
        Ok("0dc0d6eb90555ed6419756b9a15ec3e3209b63df707dd508d14581f8982721af".to_string())
    );
}

#[test]
fn psk_replacement_is_the_key_in_quotes() {
    let psk = <Psk as SaltAndKey>::new(b"IEEE", b"password", 3..9)
        .expect("a key")
        .expect("a match");
    assert_eq!(psk.range(), 3..9);
    assert_eq!(
        psk.content(),
        b"\"f42c6fc52df0ebef9ebb4b90b38a5f902e83fe1b135a70e23aed762e9710a12e\""
    );
    let redaction = Redaction::of(&psk);
    assert_eq!(redaction.range, 3..9);
    assert_eq!(redaction.bytes, psk.content());
}

#[test]
fn hash_replacement_is_the_hash_in_quotes() {
    let bcrypt = Bcrypt::from_hash("$2b$12$abc", 1..5);
    assert_eq!(bcrypt.range(), 1..5);
    assert_eq!(bcrypt.content(), b"\"$2b$12$abc\"");
    let sha = Sha512::from_hash("$6$salt$hash", 0..2);
    assert_eq!(sha.range(), 0..2);
    assert_eq!(sha.content(), b"\"$6$salt$hash\"");
}

#[test]
fn new_hashes_the_key() {
    let bcrypt = <Bcrypt as Key>::new(b"key", 0..1).expect("a hash").expect("a match");
    let text = std::str::from_utf8(bcrypt.content()).expect("text");
    assert!(bcrypt::verify("key", &text[1..text.len() - 1]).expect("a hash"));
    let sha = <Sha512 as Key>::new(b"key", 0..1).expect("a hash").expect("a match");
    let text = std::str::from_utf8(sha.content()).expect("text");
    assert!(sha_crypt::sha512_check("key", &text[1..text.len() - 1]).is_ok());
}

#[test]
fn sha512_refuses_a_key_that_is_no_text() {
    assert!(<Sha512 as Key>::new(&[0xff], 0..1).is_err());
}

#[test]
fn positions_replace_by_nothing() {
    let comment = <Comment as Position>::new(2..7).expect("a comment");
    assert_eq!(comment.range(), 2..7);
    assert_eq!(comment.content(), b"");
    let pattern = <Pattern as Position>::new(0..4).expect("a pattern");
    assert_eq!(pattern.range(), 0..4);
    assert_eq!(pattern.content(), b"");
}
