//! The fixed names of the repository layout, as paths relative to the
//! working-tree root. The caller that knows the root joins them.

use vstd::prelude::*;

verus! {

/// The repository's fixed file and folder names.
pub struct Constants;

impl Constants {
    /// The location of the repository folder: `.git`.
    pub fn repository_path() -> (r: &'static str)
        ensures
            r@ == ".git"@,
    {
        ".git"
    }

    /// The object store folder: `.git/objects`.
    pub fn objects_path() -> (r: &'static str)
        ensures
            r@ == ".git/objects"@,
    {
        ".git/objects"
    }

    /// The refs folder: `.git/refs`.
    pub fn refs_path() -> (r: &'static str)
        ensures
            r@ == ".git/refs"@,
    {
        ".git/refs"
    }

    /// The branch heads folder: `.git/refs/heads`.
    pub fn heads_path() -> (r: &'static str)
        ensures
            r@ == ".git/refs/heads"@,
    {
        ".git/refs/heads"
    }

    /// The HEAD file: `.git/HEAD`.
    pub fn head_path() -> (r: &'static str)
        ensures
            r@ == ".git/HEAD"@,
    {
        ".git/HEAD"
    }

    /// The index file: `.git/index`.
    pub fn index_path() -> (r: &'static str)
        ensures
            r@ == ".git/index"@,
    {
        ".git/index"
    }

    /// What a fresh HEAD holds: a ref to the default branch.
    pub fn default_head_content() -> (r: &'static str)
        ensures
            r@ == "ref: refs/heads/main"@,
    {
        "ref: refs/heads/main"
    }
}

/// The leading token of a HEAD file, `"ref: "`, as bytes.
pub open spec fn head_prefix_bytes() -> Seq<u8> {
    seq![0x72u8, 0x65u8, 0x66u8, 0x3au8, 0x20u8]
}

/// What reading the branch ref path out of a HEAD file yields: the bytes
/// after `"ref: "`, with trailing newlines and spaces dropped; nothing when
/// the header is missing.
pub open spec fn spec_branch_ref(content: Seq<u8>) -> Option<Seq<u8>> {
    if content.len() >= 5 && content.take(5) == head_prefix_bytes() {
        Some(spec_trim_end(content.skip(5)))
    } else {
        None
    }
}

/// The bytes with trailing whitespace removed.
pub open spec fn spec_trim_end(s: Seq<u8>) -> Seq<u8>
    decreases s.len(),
{
    if s.len() == 0 {
        s
    } else if s.last() == 0x0au8 || s.last() == 0x0du8 || s.last() == 0x20u8 || s.last()
        == 0x09u8 {
        spec_trim_end(s.drop_last())
    } else {
        s
    }
}

/// Reads the branch ref path out of a HEAD file's content: the path after
/// `"ref: "`, trailing whitespace dropped. A missing header is a
/// `FormatError`.
pub fn get_current_branch_path(content: &[u8]) -> (r: Result<Vec<u8>, crate::error::GitError>)
    ensures
        r is Ok <==> spec_branch_ref(content@) is Some,
        r is Ok ==> Some(r.unwrap()@) == spec_branch_ref(content@),
{
    let n = content.len();
    if n < 5 {
        return Err(crate::error::GitError::FormatError);
    }
    let head = vstd::slice::slice_subrange(content, 0, 5);
    proof {
        assert(content@.subrange(0, 5) =~= content@.take(5));
        assert(seq![0x72u8, 0x65u8, 0x66u8, 0x3au8, 0x20u8] =~= head_prefix_bytes());
    }
    if !crate::hashing::bytes_eq(head, &[0x72u8, 0x65u8, 0x66u8, 0x3au8, 0x20u8]) {
        return Err(crate::error::GitError::FormatError);
    }
    let mut rest = crate::bytesio::take_rest(content, 5);
    proof {
        assert(content@.skip(5) == rest@);
    }
    loop
        invariant
            spec_trim_end(content@.skip(5)) == spec_trim_end(rest@),
        ensures
            rest@ == spec_trim_end(content@.skip(5)),
        decreases rest@.len(),
    {
        if rest.len() == 0 {
            break;
        }
        let b = rest[rest.len() - 1];
        if b == 0x0a || b == 0x0d || b == 0x20 || b == 0x09 {
            let ghost prev = rest@;
            let _ = rest.pop();
            proof {
                assert(rest@ =~= prev.drop_last());
            }
        } else {
            break;
        }
    }
    Ok(rest)
}

/// The branch name a HEAD file points to: the last `/`-separated segment of
/// its ref path.
pub fn get_current_branch_name(content: &[u8]) -> (r: Result<Vec<u8>, crate::error::GitError>)
    ensures
        r is Ok <==> spec_branch_ref(content@) is Some,
        r is Ok ==> {
            let p = spec_branch_ref(content@).unwrap();
            match crate::commit::last_index_of(p, 0x2fu8) {
                Some(j) => r.unwrap()@ == p.skip(j + 1),
                None => r.unwrap()@ == p,
            }
        },
{
    let path = match get_current_branch_path(content) {
        Ok(p) => p,
        Err(e) => {
            return Err(e);
        },
    };
    match crate::commit::rfind_byte(path.as_slice(), 0x2f) {
        Some(j) => {
            proof {
                crate::commit::lemma_last_index_of_spec(path@, 0x2fu8);
            }
            let r = crate::bytesio::take_rest(path.as_slice(), j + 1);
            Ok(r)
        },
        None => Ok(path),
    }
}

} // verus!
