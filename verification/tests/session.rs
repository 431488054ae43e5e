use boxednix::editor::EditorContext;
use boxednix::file_io::{
    decryption_keys, DecryptionContext, Digest, EncryptionContext, FileError, GenerationContext,
    ReadingContext, WritingContext,
};
use boxednix::gitignore::Gitignore;
use boxednix::redact::pattern::PatternEntry;
use boxednix::session::{Action, Event, SessionFile, Stage, WatchKind, WatcherContext, Worker};

fn file(template: &[u8], flake: Option<&str>) -> SessionFile {
    SessionFile::new(
        "secrets/wifi.age".to_string(),
        template.to_vec(),
        "/tmp/session".to_string(),
        "wifi.nix".to_string(),
        "generated".to_string(),
        "keys/me.txt".to_string(),
        vec!["age1abc".to_string()],
        vec!["recipients.txt".to_string()],
        flake.map(String::from),
    )
}

fn hex(bytes: &[u8]) -> String {
    bytes.iter().map(|b| format!("{:02x}", b)).collect()
}

#[test]
fn digest_is_blake3() {
    assert_eq!(
        hex(&Digest::of(b"").as_bytes()),
        "af1349b9f5f9a1a6a0404dea36dcc9499bcb25c9adc112b7cc9a93cae41f3262"
    );
    assert_eq!(
        Digest::of(b"abc").as_bytes(),
        *blake3::hash(b"abc").as_bytes()
    );
    assert!(Digest::of(b"abc").same(&Digest::of(b"abc")));
    assert!(!Digest::of(b"abc").same(&Digest::of(b"abd")));
}

#[test]
fn new_file_has_no_digest() {
    let file = file(b"template", None);
    assert!(file.hash().is_none());
    assert_eq!(WritingContext::input(&file), b"template");
    assert_eq!(file.flake_input(), None);
}

#[test]
fn paths_of_the_operations() {
    let file = file(b"t", Some("secrets"));
    assert_eq!(ReadingContext::input(&file), Some("/tmp/session/wifi.nix".to_string()));
    assert_eq!(WritingContext::output(&file), Some("/tmp/session/wifi.nix".to_string()));
    assert_eq!(DecryptionContext::input(&file), Some("secrets/wifi.age".to_string()));
    assert_eq!(DecryptionContext::output(&file), Some("/tmp/session/wifi.nix".to_string()));
    assert_eq!(DecryptionContext::identities(&file), vec!["keys/me.txt".to_string()]);
    assert_eq!(EncryptionContext::input(&file), b"t");
    assert_eq!(EncryptionContext::output(&file), Some("secrets/wifi.age".to_string()));
    assert_eq!(EncryptionContext::identities(&file), vec!["keys/me.txt".to_string()]);
    assert_eq!(EncryptionContext::recipients(&file), vec!["age1abc".to_string()]);
    assert_eq!(
        EncryptionContext::recipients_files(&file),
        vec!["recipients.txt".to_string()]
    );
    assert_eq!(GenerationContext::output(&file), Some("generated/wifi.nix".to_string()));
    assert_eq!(EditorContext::input(&file), "/tmp/session/wifi.nix");
    assert_eq!(WatcherContext::target(&file), "/tmp/session");
    assert_eq!(WatcherContext::target_file(&file), "/tmp/session/wifi.nix");
    assert_eq!(file.flake_input(), Some("secrets".to_string()));
}

#[test]
fn reading_keeps_content_and_digest() {
    let mut file = file(b"template", None);
    ReadingContext::output(&mut file, b"edited".to_vec());
    assert_eq!(EncryptionContext::input(&file), b"edited");
    assert!(file.hash().expect("a digest").same(&Digest::of(b"edited")));
}

#[test]
fn writing_keeps_the_digest_of_the_content() {
    let mut file = file(b"template", None);
    WritingContext::result(&mut file);
    assert!(file.hash().expect("a digest").same(&Digest::of(b"template")));
    assert_eq!(WritingContext::input(&file), b"template");
}

#[test]
fn decrypting_keeps_content_and_digest() {
    let mut file = file(b"template", None);
    DecryptionContext::result(&mut file, b"plain".to_vec());
    assert_eq!(EncryptionContext::input(&file), b"plain");
    assert!(file.hash().expect("a digest").same(&Digest::of(b"plain")));
}

#[test]
fn renew_tells_whether_the_digest_is_kept() {
    let mut file = file(b"template", None);
    assert!(!file.renew(b"template".to_vec()));
    assert!(file.renew(b"template".to_vec()));
    assert!(!file.renew(b"other".to_vec()));
    assert!(file.renew(b"other".to_vec()));
}

#[test]
fn generation_is_the_redacted_content() {
    let file = file(b"{ a = 1; # note\n}", None);
    assert_eq!(GenerationContext::input(&file), Ok(b"{ a = 1;\n}".to_vec()));
}

#[test]
fn file_is_found_among_paths() {
    let file = file(b"", None);
    assert!(file.exists_in(&["/tmp/x".to_string(), "/tmp/session/wifi.nix".to_string()]));
    assert!(!file.exists_in(&["/tmp/session".to_string(), "wifi.nix".to_string()]));
    assert!(!file.exists_in(&[]));
}

#[test]
fn save_is_a_close_after_writing_of_the_file() {
    let worker = Worker::new(file(b"", None));
    let own = vec!["/tmp/session/wifi.nix".to_string()];
    let other = vec!["/tmp/session/.wifi.nix.swp".to_string()];
    assert!(worker.is_save(WatchKind::CloseWrite, &own));
    assert!(!worker.is_save(WatchKind::CloseOther, &own));
    assert!(!worker.is_save(WatchKind::Other, &own));
    assert!(!worker.is_save(WatchKind::CloseWrite, &other));
}

#[test]
fn unchanged_save() {
    let template = PatternEntry::to_module();
    let mut primed = file(&template, Some("secrets"));
    WritingContext::result(&mut primed);
    let mut worker = Worker::new(primed);
    assert!(matches!(worker.react(Event::Saved(template.clone())), Action::Wait));
    assert_eq!(worker.stage, Stage::Watching);
    assert!(matches!(worker.react(Event::Saved(template)), Action::Wait));
    assert_eq!(worker.stage, Stage::Watching);
}

#[test]
fn unchanged_save_after_decrypting() {
    let mut primed = file(b"template", None);
    DecryptionContext::result(&mut primed, b"plain".to_vec());
    let mut worker = Worker::new(primed);
    assert!(matches!(worker.react(Event::Saved(b"plain".to_vec())), Action::Wait));
}

#[test]
fn changed_save_is_encrypted_then_generated() {
    let mut primed = file(b"template", None);
    WritingContext::result(&mut primed);
    let mut worker = Worker::new(primed);
    assert!(matches!(worker.react(Event::Saved(b"edited".to_vec())), Action::Encrypt));
    assert_eq!(worker.stage, Stage::Encrypting);
    assert_eq!(EncryptionContext::input(&worker.file), b"edited");
    assert!(matches!(worker.react(Event::Encrypted(true)), Action::Generate));
    assert_eq!(worker.stage, Stage::Generating);
    assert!(matches!(worker.react(Event::Generated(true)), Action::Wait));
    assert_eq!(worker.stage, Stage::Watching);
    assert!(matches!(worker.react(Event::Saved(b"edited".to_vec())), Action::Wait));
}

#[test]
fn first_save_without_a_digest_counts_as_changed() {
    let mut worker = Worker::new(file(b"template", None));
    assert!(matches!(worker.react(Event::Saved(b"template".to_vec())), Action::Encrypt));
}

#[test]
fn lock_file_is_updated_after_a_generation() {
    let mut worker = Worker::new(file(b"template", Some("secrets")));
    assert!(matches!(worker.react(Event::Saved(b"edited".to_vec())), Action::Encrypt));
    assert!(matches!(worker.react(Event::Encrypted(true)), Action::Generate));
    assert!(matches!(
        worker.react(Event::Generated(true)),
        Action::Update(input) if input == "secrets"
    ));
    assert_eq!(worker.stage, Stage::Updating);
    assert!(matches!(worker.react(Event::Updated(true)), Action::Wait));
    assert_eq!(worker.stage, Stage::Watching);
}

#[test]
fn failed_generation_is_passed_over() {
    let mut worker = Worker::new(file(b"template", Some("secrets")));
    assert!(matches!(worker.react(Event::Saved(b"edited".to_vec())), Action::Encrypt));
    assert!(matches!(worker.react(Event::Encrypted(true)), Action::Generate));
    assert!(matches!(worker.react(Event::Generated(false)), Action::Wait));
    assert_eq!(worker.stage, Stage::Watching);
}

#[test]
fn failed_encryption_stops_the_session() {
    let mut worker = Worker::new(file(b"template", None));
    assert!(matches!(worker.react(Event::Saved(b"edited".to_vec())), Action::Encrypt));
    assert!(matches!(worker.react(Event::Encrypted(false)), Action::Stop));
    assert_eq!(worker.stage, Stage::Stopped);
    assert!(matches!(worker.react(Event::Saved(b"more".to_vec())), Action::Stop));
    assert_eq!(EncryptionContext::input(&worker.file), b"edited");
}

#[test]
fn failed_update_stops_the_session() {
    let mut worker = Worker::new(file(b"template", Some("secrets")));
    assert!(matches!(worker.react(Event::Saved(b"edited".to_vec())), Action::Encrypt));
    assert!(matches!(worker.react(Event::Encrypted(true)), Action::Generate));
    assert!(matches!(worker.react(Event::Generated(true)), Action::Update(_)));
    assert!(matches!(worker.react(Event::Updated(false)), Action::Stop));
}

#[test]
fn event_out_of_turn_stops_the_session() {
    let mut worker = Worker::new(file(b"template", None));
    assert!(matches!(worker.react(Event::Generated(true)), Action::Stop));
    assert_eq!(worker.stage, Stage::Stopped);
}

#[test]
fn gitignore_ignores_all_but_itself() {
    let gitignore = Gitignore::new("generated/.gitignore".to_string());
    assert_eq!(GenerationContext::input(&gitignore), Ok(b"*\n!.gitignore\n".to_vec()));
    assert_eq!(
        GenerationContext::output(&gitignore),
        Some("generated/.gitignore".to_string())
    );
}

#[test]
fn decryption_needs_a_key() {
    assert_eq!(decryption_keys(Vec::new()), Err(FileError::NoIdentity));
    let keys = DecryptionContext::identities(&file(b"", None));
    assert_eq!(decryption_keys(keys), Ok(vec!["keys/me.txt".to_string()]));
}
