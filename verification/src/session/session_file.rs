//! The file of a session: its plain text as last seen, the digest by which a
//! change is known, and the paths that the file operations work on.

use vstd::prelude::*;

use super::session::WatcherContext;
use crate::config::path::{join, joined};
use crate::editor::EditorContext;
use crate::file_io::context::{
    path_texts, DecryptionContext, EncryptionContext, GenerationContext, ReadingContext,
    WritingContext,
};
use crate::file_io::hash::{blake3_digest, Digest};
use crate::redact;
use crate::redact::replace::RedactError;

verus! {

/// The file that a session edits.
pub struct SessionFile {
    path: String,
    dir: String,
    hash: Option<Digest>,
    content: Vec<u8>,
    source: String,
    target: String,
    identity: String,
    recipients: Vec<String>,
    recipients_files: Vec<String>,
    flake_input: Option<String>,
}

/// A copy of a list of paths.
fn copied(paths: &Vec<String>) -> (copy: Vec<String>)
    ensures
        path_texts(copy) == path_texts(*paths),
{
    let mut copy: Vec<String> = Vec::new();
    let mut i: usize = 0;
    while i < paths.len()
        invariant
            0 <= i <= paths@.len(),
            copy@.len() == i,
            forall|k: int| 0 <= k < i ==> copy@[k]@ == paths@[k]@,
        decreases paths@.len() - i,
    {
        copy.push(paths[i].clone());
        i += 1;
    }
    assert(path_texts(copy) =~= path_texts(*paths));
    copy
}

impl SessionFile {
    /// A digest is kept only of the content that is kept.
    #[verifier::type_invariant]
    spec fn digest_is_of_content(self) -> bool {
        self.hash matches Some(h) ==> h@ == blake3_digest(self.content@)
    }

    /// The plain text as last seen.
    pub closed spec fn content(&self) -> Seq<u8> {
        self.content@
    }

    /// The digest of the plain text, once it has been read or written.
    pub closed spec fn digest(&self) -> Option<Seq<u8>> {
        match self.hash {
            Some(h) => Some(h@),
            None => None,
        }
    }

    /// The file that holds the plain text while the session lasts.
    pub closed spec fn temp_path(&self) -> Seq<char> {
        self.path@
    }

    /// The directory of that file.
    pub closed spec fn temp_dir(&self) -> Seq<char> {
        self.dir@
    }

    /// The encrypted file.
    pub closed spec fn source_path(&self) -> Seq<char> {
        self.source@
    }

    /// The file without secrets.
    pub closed spec fn target_path(&self) -> Seq<char> {
        self.target@
    }

    /// The file that holds the key.
    pub closed spec fn identity_path(&self) -> Seq<char> {
        self.identity@
    }

    /// Those who can decrypt beside the key's owner.
    pub closed spec fn recipient_paths(&self) -> Seq<Seq<char>> {
        path_texts(self.recipients)
    }

    /// The files that list more of them.
    pub closed spec fn recipient_file_paths(&self) -> Seq<Seq<char>> {
        path_texts(self.recipients_files)
    }

    /// The input of the flake that is updated after a change, if any.
    pub closed spec fn flake(&self) -> Option<Seq<char>> {
        match self.flake_input {
            Some(f) => Some(f@),
            None => None,
        }
    }

    /// Whether everything but content and digest is the same in both.
    pub open spec fn same_paths(&self, other: &SessionFile) -> bool {
        &&& self.temp_path() == other.temp_path()
        &&& self.temp_dir() == other.temp_dir()
        &&& self.source_path() == other.source_path()
        &&& self.target_path() == other.target_path()
        &&& self.identity_path() == other.identity_path()
        &&& self.recipient_paths() == other.recipient_paths()
        &&& self.recipient_file_paths() == other.recipient_file_paths()
        &&& self.flake() == other.flake()
    }

    /// The file of a new session. `template` is the content to start from
    /// where there is no encrypted file yet; `dir` is the private directory
    /// of the session, in which the file `file_name` holds the plain text.
    /// The file without secrets has the same name in `target_dir`. No digest
    /// is kept before the first read or write.
    pub fn new(
        source: String,
        template: Vec<u8>,
        dir: String,
        file_name: String,
        target_dir: String,
        identity: String,
        recipients: Vec<String>,
        recipients_files: Vec<String>,
        flake_input: Option<String>,
    ) -> (file: Self)
        ensures
            file.content() == template@,
            file.digest() is None,
            file.temp_path() == joined(dir@, file_name@),
            file.temp_dir() == dir@,
            file.source_path() == source@,
            file.target_path() == joined(target_dir@, file_name@),
            file.identity_path() == identity@,
            file.recipient_paths() == path_texts(recipients),
            file.recipient_file_paths() == path_texts(recipients_files),
            file.flake() == match flake_input {
                Some(f) => Some(f@),
                None => None,
            },
    {
        let path = join(dir.as_str(), file_name.as_str());
        let target = join(target_dir.as_str(), file_name.as_str());
        Self {
            path,
            dir,
            hash: None,
            content: template,
            source,
            target,
            identity,
            recipients,
            recipients_files,
            flake_input,
        }
    }

    /// The digest of the plain text, once it has been read or written.
    pub fn hash(&self) -> (digest: Option<Digest>)
        ensures
            match digest {
                Some(d) => self.digest() == Some(d@) && d@ == blake3_digest(self.content()),
                None => self.digest() is None,
            },
    {
        proof {
            use_type_invariant(self);
        }
        self.hash
    }

    /// Whether the plain text's file is among `other`.
    pub fn exists_in(&self, other: &[String]) -> (yes: bool)
        ensures
            yes == exists|i: int| 0 <= i < other@.len() && (#[trigger] other@[i])@ == self.temp_path(),
    {
        let mut i: usize = 0;
        while i < other.len()
            invariant
                0 <= i <= other@.len(),
                forall|k: int| 0 <= k < i ==> (#[trigger] other@[k])@ != self.path@,
            decreases other@.len() - i,
        {
            if other[i] == self.path {
                return true;
            }
            i += 1;
        }
        false
    }

    /// The input of the flake that is updated after a change, if any.
    pub fn flake_input(&self) -> (input: Option<String>)
        ensures
            match input {
                Some(f) => self.flake() == Some(f@),
                None => self.flake() is None,
            },
    {
        self.flake_input.clone()
    }

    /// Keeps `content` with its digest, and says whether the digest is the
    /// one that was kept before.
    pub fn renew(&mut self, content: Vec<u8>) -> (unchanged: bool)
        ensures
            final(self).content() == content@,
            final(self).digest() == Some(blake3_digest(content@)),
            final(self).same_paths(old(self)),
            unchanged == (old(self).digest() == Some(blake3_digest(content@))),
    {
        let digest = Digest::of(content.as_slice());
        let unchanged = match &self.hash {
            Some(before) => before.same(&digest),
            None => false,
        };
        self.hash = None;
        self.content = content;
        self.hash = Some(digest);
        unchanged
    }
}

impl ReadingContext for SessionFile {
    open spec fn read_path(&self) -> Option<Seq<char>> {
        Some(self.temp_path())
    }

    open spec fn kept(&self) -> Seq<u8> {
        self.content()
    }

    open spec fn kept_digest(&self) -> Option<Seq<u8>> {
        self.digest()
    }

    fn input(&self) -> (path: Option<String>) {
        Some(self.path.clone())
    }

    fn output(&mut self, content: Vec<u8>) {
        let _ = self.renew(content);
    }
}

impl WritingContext for SessionFile {
    open spec fn write_path(&self) -> Option<Seq<char>> {
        Some(self.temp_path())
    }

    open spec fn written(&self) -> Seq<u8> {
        self.content()
    }

    open spec fn written_digest(&self) -> Option<Seq<u8>> {
        self.digest()
    }

    fn input(&self) -> (bytes: &[u8]) {
        self.content.as_slice()
    }

    fn output(&self) -> (path: Option<String>) {
        Some(self.path.clone())
    }

    fn result(&mut self) {
        self.hash = Some(Digest::of(self.content.as_slice()));
    }
}

impl DecryptionContext for SessionFile {
    open spec fn encrypted_path(&self) -> Option<Seq<char>> {
        Some(self.source_path())
    }

    open spec fn plain_path(&self) -> Option<Seq<char>> {
        Some(self.temp_path())
    }

    open spec fn keys(&self) -> Seq<Seq<char>> {
        seq![self.identity_path()]
    }

    open spec fn plain(&self) -> Seq<u8> {
        self.content()
    }

    open spec fn plain_digest(&self) -> Option<Seq<u8>> {
        self.digest()
    }

    fn input(&self) -> (path: Option<String>) {
        Some(self.source.clone())
    }

    fn output(&self) -> (path: Option<String>) {
        Some(self.path.clone())
    }

    fn identities(&self) -> (paths: Vec<String>) {
        let mut paths: Vec<String> = Vec::new();
        paths.push(self.identity.clone());
        assert(path_texts(paths) =~= seq![self.identity@]);
        paths
    }

    fn result(&mut self, content: Vec<u8>) {
        let _ = self.renew(content);
    }
}

impl EncryptionContext for SessionFile {
    open spec fn secret(&self) -> Seq<u8> {
        self.content()
    }

    open spec fn sealed_path(&self) -> Option<Seq<char>> {
        Some(self.source_path())
    }

    open spec fn own_keys(&self) -> Seq<Seq<char>> {
        seq![self.identity_path()]
    }

    open spec fn others(&self) -> Seq<Seq<char>> {
        self.recipient_paths()
    }

    open spec fn other_lists(&self) -> Seq<Seq<char>> {
        self.recipient_file_paths()
    }

    fn input(&self) -> (bytes: &[u8]) {
        self.content.as_slice()
    }

    fn output(&self) -> (path: Option<String>) {
        Some(self.source.clone())
    }

    fn identities(&self) -> (paths: Vec<String>) {
        let mut paths: Vec<String> = Vec::new();
        paths.push(self.identity.clone());
        assert(path_texts(paths) =~= seq![self.identity@]);
        paths
    }

    fn recipients(&self) -> (paths: Vec<String>) {
        copied(&self.recipients)
    }

    fn recipients_files(&self) -> (paths: Vec<String>) {
        copied(&self.recipients_files)
    }
}

impl GenerationContext for SessionFile {
    open spec fn generated(&self, bytes: Result<Vec<u8>, RedactError>) -> bool {
        redact::processed(self.content(), bytes)
    }

    open spec fn target(&self) -> Option<Seq<char>> {
        Some(self.target_path())
    }

    fn input(&self) -> (bytes: Result<Vec<u8>, RedactError>) {
        redact::process(self.content.as_slice())
    }

    fn output(&self) -> (path: Option<String>) {
        Some(self.target.clone())
    }
}

impl EditorContext for SessionFile {
    open spec fn edited(&self) -> Seq<char> {
        self.temp_path()
    }

    fn input(&self) -> (path: String) {
        self.path.clone()
    }
}

impl WatcherContext for SessionFile {
    open spec fn watched(&self) -> Seq<char> {
        self.temp_dir()
    }

    open spec fn watched_file(&self) -> Seq<char> {
        self.temp_path()
    }

    fn target(&self) -> (dir: &str) {
        self.dir.as_str()
    }

    fn target_file(&self) -> (path: &str) {
        self.path.as_str()
    }
}

} // verus!
