//! The object model: blobs, trees and commits, each with a canonical byte
//! encoding. An object's hash is the content hash of its encoded bytes.

use vstd::prelude::*;
use vstd::string::*;
use vstd::slice::slice_to_vec;

use crate::error::GitError;
use crate::hashing::hex_of;
use crate::numbers::dec_digits;

verus! {

/// The three object kinds.
#[derive(Debug, Clone, Copy, PartialEq, Eq, Structural)]
pub enum ObjectType {
    Blob,
    Tree,
    Commit,
}

impl ObjectType {
    /// The ASCII tag that opens this kind's encoding.
    pub open spec fn spec_tag(self) -> Seq<u8> {
        match self {
            ObjectType::Blob => blob_tag(),
            ObjectType::Tree => tree_tag(),
            ObjectType::Commit => commit_tag(),
        }
    }

    /// The label of this kind, as in the encoded header.
    pub open spec fn spec_label(self) -> Seq<char> {
        match self {
            ObjectType::Blob => "blob"@,
            ObjectType::Tree => "tree"@,
            ObjectType::Commit => "commit"@,
        }
    }

    pub fn label(&self) -> (r: &'static str)
        ensures
            r@ == self.spec_label(),
    {
        match self {
            ObjectType::Blob => "blob",
            ObjectType::Tree => "tree",
            ObjectType::Commit => "commit",
        }
    }
}

pub open spec fn blob_tag() -> Seq<u8> {
    seq![0x62u8, 0x6cu8, 0x6fu8, 0x62u8]
}

pub open spec fn tree_tag() -> Seq<u8> {
    seq![0x74u8, 0x72u8, 0x65u8, 0x65u8]
}

pub open spec fn commit_tag() -> Seq<u8> {
    seq![0x63u8, 0x6fu8, 0x6du8, 0x6du8, 0x69u8, 0x74u8]
}

pub open spec fn parent_tag() -> Seq<u8> {
    seq![0x70u8, 0x61u8, 0x72u8, 0x65u8, 0x6eu8, 0x74u8]
}

pub open spec fn author_tag() -> Seq<u8> {
    seq![0x61u8, 0x75u8, 0x74u8, 0x68u8, 0x6fu8, 0x72u8]
}

pub open spec fn committer_tag() -> Seq<u8> {
    seq![0x63u8, 0x6fu8, 0x6du8, 0x6du8, 0x69u8, 0x74u8, 0x74u8, 0x65u8, 0x72u8]
}

/// One directory-listing line of a tree object.
#[derive(Debug)]
pub struct TreeEntry {
    /// The file mode, stored as the decimal reading of its octal digits.
    pub mode: u32,
    /// The path segment, relative to the tree that holds the entry.
    pub path: Vec<u8>,
    /// The hash of the object the entry points to.
    pub hash: crate::hashing::Hash,
}

pub ghost struct TreeEntryV {
    pub mode: u32,
    pub path: Seq<u8>,
    pub hash: Seq<u8>,
}

impl View for TreeEntry {
    type V = TreeEntryV;

    open spec fn view(&self) -> TreeEntryV {
        TreeEntryV { mode: self.mode, path: self.path@, hash: self.hash@ }
    }
}

impl Clone for TreeEntry {
    fn clone(&self) -> (r: TreeEntry)
        ensures
            r@ == self@,
    {
        TreeEntry {
            mode: self.mode,
            path: slice_to_vec(self.path.as_slice()),
            hash: self.hash.clone(),
        }
    }
}

/// Whether a commit user stands in the author or the committer position.
#[derive(Debug, Clone, Copy, PartialEq, Eq, Structural)]
pub enum CommitUserKind {
    Author,
    Committer,
}

impl CommitUserKind {
    pub open spec fn spec_tag(self) -> Seq<u8> {
        match self {
            CommitUserKind::Author => author_tag(),
            CommitUserKind::Committer => committer_tag(),
        }
    }

    /// The label of this kind, as in the encoded commit.
    pub open spec fn spec_label(self) -> Seq<char> {
        match self {
            CommitUserKind::Author => "author"@,
            CommitUserKind::Committer => "committer"@,
        }
    }

    pub fn label(&self) -> (r: &'static str)
        ensures
            r@ == self.spec_label(),
    {
        match self {
            CommitUserKind::Author => "author",
            CommitUserKind::Committer => "committer",
        }
    }

    /// The kind an encoded label names; anything else is refused.
    pub fn parse_label(s: &[u8]) -> (r: Result<CommitUserKind, GitError>)
        ensures
            r is Ok <==> (s@ == author_tag() || s@ == committer_tag()),
            r is Ok ==> r.unwrap().spec_tag() == s@,
    {
        if crate::hashing::bytes_eq(s, &[0x61u8, 0x75u8, 0x74u8, 0x68u8, 0x6fu8, 0x72u8]) {
            proof {
                assert(seq![0x61u8, 0x75u8, 0x74u8, 0x68u8, 0x6fu8, 0x72u8] =~= author_tag());
            }
            Ok(CommitUserKind::Author)
        } else if crate::hashing::bytes_eq(
            s,
            &[0x63u8, 0x6fu8, 0x6du8, 0x6du8, 0x69u8, 0x74u8, 0x74u8, 0x65u8, 0x72u8],
        ) {
            proof {
                assert(seq![0x63u8, 0x6fu8, 0x6du8, 0x6du8, 0x69u8, 0x74u8, 0x74u8, 0x65u8, 0x72u8]
                    =~= committer_tag());
            }
            Ok(CommitUserKind::Committer)
        } else {
            proof {
                assert(seq![0x61u8, 0x75u8, 0x74u8, 0x68u8, 0x6fu8, 0x72u8] =~= author_tag());
                assert(seq![0x63u8, 0x6fu8, 0x6du8, 0x6du8, 0x69u8, 0x74u8, 0x74u8, 0x65u8, 0x72u8]
                    =~= committer_tag());
            }
            Err(GitError::InvalidArgument)
        }
    }
}

/// A timezone offset, encoded as a mandatory sign and four zero-padded
/// digits: `-0500`, `+0000`.
#[derive(Debug, Clone, Copy, PartialEq, Eq, Structural)]
pub struct TimezoneOffset {
    pub negative: bool,
    pub hours: u8,
    pub minutes: u8,
}

impl TimezoneOffset {
    pub open spec fn wf(self) -> bool {
        self.hours < 24 && self.minutes < 60
    }

    pub fn utc() -> (r: TimezoneOffset)
        ensures
            r == (TimezoneOffset { negative: false, hours: 0u8, minutes: 0u8 }),
    {
        TimezoneOffset { negative: false, hours: 0, minutes: 0 }
    }
}

/// The author or committer of a commit: an identifier (name and email), a
/// unix timestamp in seconds, and a timezone offset.
#[derive(Debug)]
pub struct CommitUser {
    pub kind: CommitUserKind,
    pub identifier: Vec<u8>,
    pub timestamp: u64,
    pub timezone: TimezoneOffset,
}

pub ghost struct CommitUserV {
    pub kind: CommitUserKind,
    pub identifier: Seq<u8>,
    pub timestamp: u64,
    pub timezone: TimezoneOffset,
}

impl View for CommitUser {
    type V = CommitUserV;

    open spec fn view(&self) -> CommitUserV {
        CommitUserV {
            kind: self.kind,
            identifier: self.identifier@,
            timestamp: self.timestamp,
            timezone: self.timezone,
        }
    }
}

impl Clone for CommitUser {
    fn clone(&self) -> (r: CommitUser)
        ensures
            r@ == self@,
    {
        CommitUser {
            kind: self.kind,
            identifier: slice_to_vec(self.identifier.as_slice()),
            timestamp: self.timestamp,
            timezone: self.timezone,
        }
    }
}

/// An object of the store: raw file content, a directory listing, or a
/// commit record.
#[derive(Debug)]
pub enum Object {
    Blob { data: Vec<u8> },
    Tree { entries: Vec<TreeEntry> },
    Commit {
        tree: crate::hashing::Hash,
        parents: Vec<crate::hashing::Hash>,
        author: CommitUser,
        committer: CommitUser,
        message: Vec<u8>,
    },
}

pub ghost enum ObjectV {
    Blob { data: Seq<u8> },
    Tree { entries: Seq<TreeEntryV> },
    Commit {
        tree: Seq<u8>,
        parents: Seq<Seq<u8>>,
        author: CommitUserV,
        committer: CommitUserV,
        message: Seq<u8>,
    },
}

impl View for Object {
    type V = ObjectV;

    open spec fn view(&self) -> ObjectV {
        match self {
            Object::Blob { data } => ObjectV::Blob { data: data@ },
            Object::Tree { entries } => ObjectV::Tree {
                entries: Seq::new(entries@.len(), |i: int| entries@[i]@),
            },
            Object::Commit { tree, parents, author, committer, message } => ObjectV::Commit {
                tree: tree@,
                parents: Seq::new(parents@.len(), |i: int| parents@[i]@),
                author: author@,
                committer: committer@,
                message: message@,
            },
        }
    }
}

// --- canonical encodings, at the specification level ---

/// `"blob {len}\0{data}"`
pub open spec fn spec_encode_blob(data: Seq<u8>) -> Seq<u8> {
    blob_tag() + seq![0x20u8] + dec_digits(data.len()) + seq![0u8] + data
}

/// `"{mode} {path}\0{20-byte hash}"`
pub open spec fn spec_encode_tree_entry(e: TreeEntryV) -> Seq<u8> {
    dec_digits(e.mode as nat) + seq![0x20u8] + e.path + seq![0u8] + e.hash
}

/// The concatenation of the entries' encodings, with no separator.
pub open spec fn spec_encode_tree_entries(s: Seq<TreeEntryV>) -> Seq<u8>
    decreases s.len(),
{
    if s.len() == 0 {
        Seq::<u8>::empty()
    } else {
        spec_encode_tree_entry(s[0]) + spec_encode_tree_entries(s.skip(1))
    }
}

/// `"tree {bodyLen}\0{entries}"`
pub open spec fn spec_encode_tree(entries: Seq<TreeEntryV>) -> Seq<u8> {
    let body = spec_encode_tree_entries(entries);
    tree_tag() + seq![0x20u8] + dec_digits(body.len()) + seq![0u8] + body
}

/// `"-HHMM"` or `"+HHMM"`.
pub open spec fn spec_encode_tz(t: TimezoneOffset) -> Seq<u8> {
    seq![if t.negative { 0x2du8 } else { 0x2bu8 }] + crate::numbers::two_dec(t.hours)
        + crate::numbers::two_dec(t.minutes)
}

/// `"{kind} {identifier} {timestamp} {timezone}\n"`
pub open spec fn spec_encode_user_line(u: CommitUserV) -> Seq<u8> {
    u.kind.spec_tag() + seq![0x20u8] + u.identifier + seq![0x20u8] + dec_digits(u.timestamp as nat)
        + seq![0x20u8] + spec_encode_tz(u.timezone) + seq![0x0au8]
}

/// One `"parent {hash}\n"` line per parent, in order.
pub open spec fn spec_encode_parents(parents: Seq<Seq<u8>>) -> Seq<u8>
    decreases parents.len(),
{
    if parents.len() == 0 {
        Seq::<u8>::empty()
    } else {
        parent_tag() + seq![0x20u8] + hex_of(parents[0]) + seq![0x0au8] + spec_encode_parents(
            parents.skip(1),
        )
    }
}

/// The commit body: tree line, parent lines, author, committer, a blank
/// line, then the message and a final newline.
pub open spec fn spec_encode_commit_body(
    tree: Seq<u8>,
    parents: Seq<Seq<u8>>,
    author: CommitUserV,
    committer: CommitUserV,
    message: Seq<u8>,
) -> Seq<u8> {
    tree_tag() + seq![0x20u8] + hex_of(tree) + seq![0x0au8] + spec_encode_parents(parents)
        + spec_encode_user_line(author) + spec_encode_user_line(committer) + seq![0x0au8] + message
        + seq![0x0au8]
}

/// `"commit {bodyLen}\0{body}"`
pub open spec fn spec_encode_commit(
    tree: Seq<u8>,
    parents: Seq<Seq<u8>>,
    author: CommitUserV,
    committer: CommitUserV,
    message: Seq<u8>,
) -> Seq<u8> {
    let body = spec_encode_commit_body(tree, parents, author, committer, message);
    commit_tag() + seq![0x20u8] + dec_digits(body.len()) + seq![0u8] + body
}

/// The canonical encoding of any object.
pub open spec fn spec_encode_object(o: ObjectV) -> Seq<u8> {
    match o {
        ObjectV::Blob { data } => spec_encode_blob(data),
        ObjectV::Tree { entries } => spec_encode_tree(entries),
        ObjectV::Commit { tree, parents, author, committer, message } => spec_encode_commit(
            tree,
            parents,
            author,
            committer,
            message,
        ),
    }
}

// --- structural validity ---

pub open spec fn wf_tree_entry(e: TreeEntryV) -> bool {
    &&& e.hash.len() == 20
    &&& forall|i: int| 0 <= i < e.path.len() ==> e.path[i] != 0u8
}

pub open spec fn wf_user(u: CommitUserV) -> bool {
    &&& u.identifier.len() > 0
    &&& forall|i: int| 0 <= i < u.identifier.len() ==> u.identifier[i] != 0x0au8
    &&& u.timezone.wf()
}

/// Structural validity: what the canonical encoding can represent and the
/// decoder reproduces.
pub open spec fn wf_object(o: ObjectV) -> bool {
    match o {
        ObjectV::Blob { data } => data.len() <= u64::MAX,
        ObjectV::Tree { entries } => {
            &&& forall|i: int| 0 <= i < entries.len() ==> wf_tree_entry(#[trigger] entries[i])
            &&& spec_encode_tree_entries(entries).len() <= u64::MAX
        },
        ObjectV::Commit { tree, parents, author, committer, message } => {
            &&& tree.len() == 20
            &&& forall|i: int| 0 <= i < parents.len() ==> (#[trigger] parents[i]).len() == 20
            &&& wf_user(author)
            &&& wf_user(committer)
            &&& author.kind == CommitUserKind::Author
            &&& committer.kind == CommitUserKind::Committer
            &&& spec_encode_commit_body(tree, parents, author, committer, message).len()
                <= u64::MAX
        },
    }
}

/// The kind of an object value.
impl Object {
    pub fn kind(&self) -> (r: ObjectType)
        ensures
            r == match self@ {
                ObjectV::Blob { .. } => ObjectType::Blob,
                ObjectV::Tree { .. } => ObjectType::Tree,
                ObjectV::Commit { .. } => ObjectType::Commit,
            },
    {
        match self {
            Object::Blob { .. } => ObjectType::Blob,
            Object::Tree { .. } => ObjectType::Tree,
            Object::Commit { .. } => ObjectType::Commit,
        }
    }

    /// Wraps raw file bytes as a blob object, reading no header.
    pub fn from_bytes_new_blob(bytes: &[u8]) -> (r: Object)
        ensures
            r@ == (ObjectV::Blob { data: bytes@ }),
    {
        Object::Blob { data: slice_to_vec(bytes) }
    }

    /// The content hash of this object: the hash of its encoded bytes.
    pub fn hash(&self) -> (r: crate::hashing::Hash)
        ensures
            r@ == crate::hashing::sha1_of(spec_encode_object(self@)),
            r@.len() == 20,
    {
        let bytes = self.as_bytes();
        crate::hashing::Hash::compute(bytes.as_slice())
    }

    /// The canonical encoding of this object.
    pub fn as_bytes(&self) -> (r: Vec<u8>)
        ensures
            r@ == spec_encode_object(self@),
    {
        match self {
            Object::Blob { data } => crate::blob::as_bytes(data.as_slice()),
            Object::Tree { entries } => crate::tree::as_bytes(entries),
            Object::Commit { tree, parents, author, committer, message } => crate::commit::as_bytes(
                tree,
                parents,
                author,
                committer,
                message.as_slice(),
            ),
        }
    }

    /// Decodes an object from its encoded bytes, dispatching on the leading
    /// type tag. Unknown tags give `UnknownType`; malformed data gives the
    /// delegated decoder's error.
    pub fn from_bytes(bytes: &[u8]) -> (r: Result<Object, GitError>)
        ensures
            r is Ok <==> spec_decode_object(bytes@) is Some,
            r is Ok ==> Some(r.unwrap()@) == spec_decode_object(bytes@),
    {
        let mut pos: usize = 0;
        let tag = match crate::bytesio::read_until(bytes, &mut pos, crate::bytesio::SPACE_BYTE) {
            Some(t) => t,
            None => {
                return Err(GitError::FormatError);
            },
        };
        if crate::hashing::bytes_eq(tag.as_slice(), &[0x62u8, 0x6cu8, 0x6fu8, 0x62u8]) {
            proof {
                assert(seq![0x62u8, 0x6cu8, 0x6fu8, 0x62u8] =~= blob_tag());
            }
            crate::blob::from_bytes(bytes)
        } else if crate::hashing::bytes_eq(tag.as_slice(), &[0x74u8, 0x72u8, 0x65u8, 0x65u8]) {
            proof {
                assert(seq![0x74u8, 0x72u8, 0x65u8, 0x65u8] =~= tree_tag());
            }
            crate::tree::from_bytes(bytes)
        } else if crate::hashing::bytes_eq(
            tag.as_slice(),
            &[0x63u8, 0x6fu8, 0x6du8, 0x6du8, 0x69u8, 0x74u8],
        ) {
            proof {
                assert(seq![0x63u8, 0x6fu8, 0x6du8, 0x6du8, 0x69u8, 0x74u8] =~= commit_tag());
            }
            crate::commit::from_bytes(bytes)
        } else {
            proof {
                lemma_decode_object_unknown_tag(bytes@, tag@, pos as int);
            }
            Err(GitError::UnknownType)
        }
    }
}

/// What decoding an object yields: the first space-delimited token picks the
/// kind, whose decoder then re-reads its own header.
pub open spec fn spec_decode_object(s: Seq<u8>) -> Option<ObjectV> {
    match crate::bytesio::spec_read_until(s, 0, 0x20u8) {
        Some((tag, _)) => {
            if tag == blob_tag() {
                crate::blob::spec_decode_blob(s)
            } else if tag == tree_tag() {
                crate::tree::spec_decode_tree(s)
            } else if tag == commit_tag() {
                crate::commit::spec_decode_commit(s)
            } else {
                None
            }
        },
        None => None,
    }
}

proof fn lemma_decode_object_unknown_tag(s: Seq<u8>, tag: Seq<u8>, pos: int)
    requires
        crate::bytesio::spec_read_until(s, 0, 0x20u8) == Some((tag, pos)),
        tag != blob_tag(),
        tag != tree_tag(),
        tag != commit_tag(),
    ensures
        spec_decode_object(s) is None,
{
}

/// Round trip: decoding the canonical encoding of any structurally valid
/// object gives back that object, for every kind, including the empty blob,
/// the empty tree, and a commit with no parents.
pub proof fn lemma_object_round_trip(o: ObjectV)
    requires
        wf_object(o),
    ensures
        spec_decode_object(spec_encode_object(o)) == Some(o),
{
    let enc = spec_encode_object(o);
    match o {
        ObjectV::Blob { data } => {
            let dd = dec_digits(data.len());
            crate::numbers::lemma_dec_digits_value(data.len());
            assert(enc[0] == 0x62 && enc[1] == 0x6c && enc[2] == 0x6f && enc[3] == 0x62);
            assert(enc[4] == 0x20);
            assert(forall|k: int| 0 <= k < 4 ==> enc[k] != 0x20);
            crate::bytesio::lemma_index_of_from_exact(enc, 0, 0x20, 4);
            assert(enc.subrange(0, 4) =~= blob_tag());
            crate::blob::lemma_blob_round_trip(data);
        },
        ObjectV::Tree { entries } => {
            let dd = dec_digits(spec_encode_tree_entries(entries).len());
            crate::numbers::lemma_dec_digits_value(spec_encode_tree_entries(entries).len());
            assert(enc[0] == 0x74 && enc[1] == 0x72 && enc[2] == 0x65 && enc[3] == 0x65);
            assert(enc[4] == 0x20);
            assert(forall|k: int| 0 <= k < 4 ==> enc[k] != 0x20);
            crate::bytesio::lemma_index_of_from_exact(enc, 0, 0x20, 4);
            assert(enc.subrange(0, 4) =~= tree_tag());
            assert(tree_tag() != blob_tag()) by {
                assert(tree_tag()[0] == 0x74 && blob_tag()[0] == 0x62);
            }
            crate::tree::lemma_tree_round_trip(entries);
        },
        ObjectV::Commit { tree, parents, author, committer, message } => {
            let body = spec_encode_commit_body(tree, parents, author, committer, message);
            let dd = dec_digits(body.len());
            crate::numbers::lemma_dec_digits_value(body.len());
            assert(enc[0] == 0x63 && enc[1] == 0x6f && enc[2] == 0x6d && enc[3] == 0x6d && enc[4]
                == 0x69 && enc[5] == 0x74);
            assert(enc[6] == 0x20);
            assert(forall|k: int| 0 <= k < 6 ==> enc[k] != 0x20);
            crate::bytesio::lemma_index_of_from_exact(enc, 0, 0x20, 6);
            assert(enc.subrange(0, 6) =~= commit_tag());
            assert(commit_tag() != blob_tag() && commit_tag() != tree_tag()) by {
                assert(commit_tag().len() == 6 && blob_tag().len() == 4 && tree_tag().len() == 4);
            }
            crate::commit::lemma_commit_round_trip(tree, parents, author, committer, message);
        },
    }
}

} // verus!
