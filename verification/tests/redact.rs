use boxednix::redact::pattern::PatternEntry;
use boxednix::redact::process;
use boxednix::redact::replace::RedactError;

fn names() -> Vec<&'static str> {
    vec![
        PatternEntry::Bcrypt.as_str(),
        PatternEntry::Sha512.as_str(),
        PatternEntry::Psk.as_str(),
    ]
}

fn build_nix_test_module() -> (String, Vec<String>) {
    let mut keys = Vec::new();
    let mut node_let_in = Vec::new();
    let mut node_attr_set = Vec::new();
    let mut node_list = Vec::new();

    for name in names() {
        let value = if name == "psk" {
            format!("\"{name}_salt\" \"{name}_key\"")
        } else {
            format!("\"{name}_key\"")
        };
        let node_apply = format!("{name} {value}");

        node_let_in.push(format!("{name} = {name}: \"${{{name}}}\";"));

        node_attr_set.push(format!("# {node_apply}"));
        node_attr_set.push(format!("{name} = {node_apply};"));
        node_attr_set.push(format!("{name} = ({node_apply});"));

        node_list.push(format!("({node_apply})"));

        keys.push(value);
        keys.push(format!("{name},"));
    }

    let module = format!(
        "{{\n  {},\n  ...\n}} @ input: let\n  {}\nin {{\n  {}\n  list = [\n    {} \n  ];\n}}\n",
        names().join(",\n  "),
        node_let_in.join("\n  "),
        node_attr_set.join("\n  "),
        node_list.join("\n    ")
    );

    println!("{}", module);

    (module, keys)
}

#[test]
fn process_success() {
    let (module, keys) = build_nix_test_module();

    let redacted = process(module.as_bytes()).expect("should succeed");
    let redacted_str = std::str::from_utf8(&redacted).expect("should succeed");

    println!("{}", redacted_str);

    for key in keys {
        assert!(!redacted_str.contains(&key))
    }
}

#[test]
fn bcrypt_attribute() {
    let input = "{ bcrypt, ... }: { a = bcrypt \"secret\"; }";
    let output = process(input.as_bytes()).expect("should succeed");
    let text = String::from_utf8(output).expect("text");
    println!("{}", text);
    assert!(!text.contains("\"secret\""));
    assert!(!text.contains("secret"));
    assert!(!text.contains("bcrypt,"));
    assert!(text.starts_with("{ a = \"$2b$12$"));
    assert!(text.ends_with("\"; }"));
    let hash = &text["{ a = \"".len()..text.len() - "\"; }".len()];
    assert_eq!(hash.len(), 60);
    assert!(bcrypt::verify("secret", hash).expect("a bcrypt hash"));
}

#[test]
fn psk_attribute() {
    let input = "{ psk, ... }: { wifi = psk \"mySsid\" \"myPass\"; }";
    let output = process(input.as_bytes()).expect("should succeed");
    let text = String::from_utf8(output).expect("text");
    println!("{}", text);
    assert!(!text.contains("mySsid"));
    assert!(!text.contains("myPass"));
    assert!(text.starts_with("{ wifi = \""));
    assert!(text.ends_with("\"; }"));
    let hex = &text["{ wifi = \"".len()..text.len() - "\"; }".len()];
    assert_eq!(hex.len(), 64);
    assert!(hex.chars().all(|c| c.is_ascii_digit() || ('a'..='f').contains(&c)));
}

#[test]
fn psk_known_vector() {
    let input = "{ k = psk \"IEEE\" \"password\"; }";
    let output = process(input.as_bytes()).expect("should succeed");
    assert_eq!(
        String::from_utf8(output).expect("text"),
        "{ k = \"f42c6fc52df0ebef9ebb4b90b38a5f902e83fe1b135a70e23aed762e9710a12e\"; }"
    );
}

#[test]
fn parenthesised_apply_in_list() {
    let input = "{ sha512, ... }: { out = [ (sha512 \"x\") ]; }";
    let output = process(input.as_bytes()).expect("should succeed");
    let text = String::from_utf8(output).expect("text");
    println!("{}", text);
    assert!(!text.contains("\"x\""));
    assert!(!text.contains("(sha512"));
    assert!(text.starts_with("{ out = [ \"$6$"));
    assert!(text.ends_with("\" ]; }"));
}

#[test]
fn comment_stripping() {
    let input = "{ x = 1; # bcrypt \"leak\"\n}";
    let output = process(input.as_bytes()).expect("should succeed");
    assert_eq!(String::from_utf8(output).expect("text"), "{ x = 1;\n}");
}

#[test]
fn comment_stripping_at_top_level_is_a_syntax_error() {
    let input = "x = 1; # bcrypt \"leak\"\n";
    assert_eq!(process(input.as_bytes()), Err(RedactError::Syntax));
}

#[test]
fn syntax_error_abort() {
    let input = "{ bcrypt, ... }: { a = bcrypt }";
    assert_eq!(process(input.as_bytes()), Err(RedactError::Syntax));
}

#[test]
fn not_utf8_is_refused() {
    assert_eq!(process(&[b'{', 0xff, b'}']), Err(RedactError::Encoding));
}

#[test]
fn text_without_secrets_is_unchanged() {
    let input = "{ a = 1; b = \"two\"; }";
    assert_eq!(process(input.as_bytes()), Ok(input.as_bytes().to_vec()));
}

#[test]
fn list_with_only_secret_names_goes_whole() {
    assert_eq!(process(b"{ bcrypt, sha512 }: 1"), Ok(b"1".to_vec()));
}

#[test]
fn list_with_other_names_loses_the_secret_entries() {
    assert_eq!(
        process(b"{ bcrypt, foo, psk }: { }"),
        Ok(b"{ foo, }: { }".to_vec())
    );
    assert_eq!(
        process(b"{ bcrypt, ... } @ input: 1"),
        Ok(b"{ ... } @ input: 1".to_vec())
    );
}

#[test]
fn entry_with_a_default_is_no_secret_name() {
    assert_eq!(
        process(b"{ bcrypt ? null, psk }: 1"),
        Ok(b"{ bcrypt ? null, }: 1".to_vec())
    );
}

#[test]
fn name_behind_its_string_is_left_alone() {
    let input = b"{ a = \"x\" psk; }";
    assert_eq!(process(input), Ok(input.to_vec()));
}

#[test]
fn psk_with_one_string_is_left_alone() {
    let input = b"{ a = psk \"a\"; }";
    assert_eq!(process(input), Ok(input.to_vec()));
}

#[test]
fn empty_string_is_a_key() {
    assert_eq!(
        process(b"{ a = psk \"\" \"b\"; }"),
        Ok(b"{ a = \"4b825aaa04751752adac98b4da60a9e3faba3f06f4f035f8dce1c4ce3fba6f05\"; }".to_vec())
    );
    assert_eq!(
        process(b"{ a = psk \"a\" \"\"; }"),
        Ok(b"{ a = \"4d017681560830095526eadc87453e47d2dad82c147491794eb35d5a9e2334bf\"; }".to_vec())
    );
    let output = process(b"{ a = bcrypt \"\"; }").expect("should succeed");
    let text = String::from_utf8(output).expect("text");
    let hash = &text["{ a = \"".len()..text.len() - "\"; }".len()];
    assert!(bcrypt::verify("", hash).expect("a bcrypt hash"));
}

#[test]
fn hashes_have_their_shape() {
    let crypt = |c: char| c.is_ascii_alphanumeric() || c == '.' || c == '/';
    let output = process(b"{ a = bcrypt \"k\"; }").expect("should succeed");
    let text = String::from_utf8(output).expect("text");
    let hash = &text["{ a = \"".len()..text.len() - "\"; }".len()];
    assert_eq!(hash.len(), 60);
    assert!(hash.starts_with("$2b$12$"));
    assert!(hash[7..].chars().all(crypt));
    let output = process(b"{ a = sha512 \"k\"; }").expect("should succeed");
    let text = String::from_utf8(output).expect("text");
    let hash = &text["{ a = \"".len()..text.len() - "\"; }".len()];
    assert_eq!(hash.len(), 106);
    assert!(hash.starts_with("$6$"));
    assert!(hash[3..19].chars().all(crypt));
    assert_eq!(&hash[19..20], "$");
    assert!(hash[20..].chars().all(crypt));
}

#[test]
fn parentheses_go_with_the_application() {
    let hex = "44d99a3a022a4077b7a067610866715b765de73e820f56ea98c12a0f21ad93a9";
    assert_eq!(
        process(b"{ a = (psk \"a\" \"b\"); b = [ (psk \"a\" \"b\") ]; }"),
        Ok(format!("{{ a = \"{hex}\"; b = [ \"{hex}\" ]; }}").into_bytes())
    );
    assert_eq!(
        process(b"{ a = f (psk \"a\" \"b\") 1; }"),
        Ok(format!("{{ a = f \"{hex}\" 1; }}").into_bytes())
    );
}

#[test]
fn every_comment_goes_with_the_blank_before_it() {
    assert_eq!(
        process(b"# top\n{ a = 1; # one\n  # two\n  b = 2; /* three */ }\n"),
        Ok(b"\n{ a = 1;\n  b = 2; }\n".to_vec())
    );
}

#[test]
fn comment_inside_an_application_overlaps() {
    assert_eq!(
        process(b"{ a = psk /* c */ \"a\" \"b\"; }"),
        Err(RedactError::Overlap)
    );
}

#[test]
fn comment_behind_a_list_that_goes_overlaps() {
    assert_eq!(
        process(b"{ bcrypt, ... }:\n\n  # note\n  1"),
        Err(RedactError::Overlap)
    );
}

#[test]
fn sha512_hash_checks_against_the_key() {
    let output = process(b"{ a = sha512 \"secret\"; }").expect("should succeed");
    let text = String::from_utf8(output).expect("text");
    let hash = &text["{ a = \"".len()..text.len() - "\"; }".len()];
    assert!(hash.starts_with("$6$"));
    assert!(sha_crypt::sha512_check("secret", hash).is_ok());
    assert!(sha_crypt::sha512_check("other", hash).is_err());
}

#[test]
fn empty_text_is_unchanged() {
    assert_eq!(process(b""), Ok(Vec::new()));
}

#[test]
fn text_beyond_ascii_stays_text() {
    let input = "{ a = psk \"é\" \"ü\"; # äöü\n  b = \"→\"; }";
    let output = process(input.as_bytes()).expect("should succeed");
    let text = String::from_utf8(output).expect("text");
    assert!(text.starts_with("{ a = \""));
    assert!(text.ends_with("\";\n  b = \"→\"; }"));
    assert!(!text.contains('é') && !text.contains('ü') && !text.contains('ä'));
}

#[test]
fn test_module_stays_text() {
    let (module, _) = build_nix_test_module();
    let redacted = process(module.as_bytes()).expect("should succeed");
    assert!(std::str::from_utf8(&redacted).is_ok());
}
