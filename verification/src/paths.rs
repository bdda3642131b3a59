//! Relative-path arithmetic on byte paths with `/` separators, and the set
//! of ignored paths. Paths are handled as raw bytes throughout, as the index
//! stores them.

use vstd::prelude::*;
use vstd::slice::{slice_subrange, slice_to_vec};

use crate::bytesio::index_of_from;

verus! {

/// Removes the first component from a path: the component, and the rest
/// after its separator. A path without a separator is all root.
pub fn strip_root(path: &[u8]) -> (r: (Option<Vec<u8>>, Vec<u8>))
    ensures
        match index_of_from(path@, 0, 0x2fu8) {
            Some(j) => {
                &&& r.0 is Some
                &&& r.0.unwrap()@ == path@.take(j)
                &&& r.1@ == path@.skip(j + 1)
            },
            None => {
                if path@.len() == 0 {
                    r.0 is None && r.1@ == path@
                } else {
                    r.0 is Some && r.0.unwrap()@ == path@ && r.1@.len() == 0
                }
            },
        },
{
    let n = path.len();
    let mut pos: usize = 0;
    match crate::bytesio::read_until(path, &mut pos, 0x2f) {
        Some(head) => {
            let rest = crate::bytesio::take_rest(path, pos);
            proof {
                crate::bytesio::lemma_index_of_from_spec(path@, 0, 0x2fu8);
            }
            (Some(head), rest)
        },
        None => {
            if n == 0 {
                (None, Vec::new())
            } else {
                (Some(slice_to_vec(path)), Vec::new())
            }
        },
    }
}

/// What `relative_path` yields: the path relative to `base`, or nothing
/// when `base` is no prefix of it.
pub open spec fn spec_relative_path(path: Seq<u8>, base: Seq<u8>) -> Option<Seq<u8>> {
    if base.len() == 0 {
        Some(path)
    } else if path == base {
        Some(Seq::<u8>::empty())
    } else if path.len() > base.len() && path.take(base.len() as int) == base && path[base.len() as int]
        == 0x2fu8 {

        Some(path.skip(base.len() as int + 1))
    } else {
        None
    }
}

/// Returns `path` relative to `base`, or nothing when `base` is no prefix.
pub fn relative_path(path: &[u8], base: &[u8]) -> (r: Option<Vec<u8>>)
    ensures
        match r {
            Some(v) => spec_relative_path(path@, base@) == Some(v@),
            None => spec_relative_path(path@, base@) is None,
        },
{
    let n = path.len();
    let b = base.len();
    if b == 0 {
        return Some(slice_to_vec(path));
    }
    if crate::hashing::bytes_eq(path, base) {
        return Some(Vec::new());
    }
    if n > b {
        let head = slice_subrange(path, 0, b);
        proof {
            assert(path@.subrange(0, b as int) =~= path@.take(b as int));
        }
        if crate::hashing::bytes_eq(head, base) && path[b] == 0x2f {
            let rest = slice_subrange(path, b + 1, n);
            proof {
                assert(path@.subrange(b + 1, path@.len() as int) =~= path@.skip(b + 1));
            }
            return Some(slice_to_vec(rest));
        }
    }
    None
}

/// What `clean_path` yields: the path without a leading `./`, and without a
/// leading `/` unless it is to stay absolute.
pub open spec fn spec_clean_path(path: Seq<u8>, absolute: bool) -> Seq<u8> {
    if path.len() >= 2 && path[0] == 0x2eu8 && path[1] == 0x2fu8 {
        path.skip(2)
    } else if path.len() >= 1 && path[0] == 0x2fu8 && !absolute {
        path.skip(1)
    } else {
        path
    }
}

/// Drops a leading `./`, and a leading `/` unless `absolute` is set.
pub fn clean_path(path: &[u8], absolute: bool) -> (r: Vec<u8>)
    ensures
        r@ == spec_clean_path(path@, absolute),
{
    let n = path.len();
    if n >= 2 && path[0] == 0x2e && path[1] == 0x2f {
        let r = slice_to_vec(slice_subrange(path, 2, n));
        proof {
            assert(path@.subrange(2, path@.len() as int) =~= path@.skip(2));
        }
        r
    } else if n >= 1 && path[0] == 0x2f && !absolute {
        let r = slice_to_vec(slice_subrange(path, 1, n));
        proof {
            assert(path@.subrange(1, path@.len() as int) =~= path@.skip(1));
        }
        r
    } else {
        slice_to_vec(path)
    }
}

/// The set of ignored relative paths, as read from an ignore file.
#[derive(Debug)]
pub struct Gitignore {
    pub files: Vec<Vec<u8>>,
}

pub open spec fn gitignore_views(v: Seq<Vec<u8>>) -> Seq<Seq<u8>> {
    Seq::new(v.len(), |i: int| v[i]@)
}

impl Gitignore {
    /// An ignore set with nothing in it.
    pub fn new() -> (r: Gitignore)
        ensures
            gitignore_views(r.files@).len() == 0,
    {
        Gitignore { files: Vec::new() }
    }

    /// Whether a path is ignored.
    pub open spec fn spec_contains(self, p: Seq<u8>) -> bool {
        exists|i: int|
            0 <= i < self.files@.len() && (#[trigger] gitignore_views(self.files@)[i]) == p
    }

    /// Adds a path to the ignored set, cleaned of a leading `./` or `/`.
    pub fn add_file(&mut self, path: Vec<u8>)
        ensures
            final(self).spec_contains(spec_clean_path(path@, false)),
            forall|p: Seq<u8>|
                old(self).spec_contains(p) ==> #[trigger] final(self).spec_contains(p),
    {
        let cleaned = clean_path(path.as_slice(), false);
        let ghost oldv = gitignore_views(self.files@);
        let ghost cv = cleaned@;
        self.files.push(cleaned);
        proof {
            let newv = gitignore_views(self.files@);
            assert(newv =~= oldv.push(cv));
            assert(newv[oldv.len() as int] == cv);
            assert forall|p: Seq<u8>|
                old(self).spec_contains(p) implies #[trigger] self.spec_contains(p) by {
                let i = choose|i: int| 0 <= i < oldv.len() && (#[trigger] oldv[i]) == p;
                assert(newv[i] == p);
            }
        }
    }

    /// Checks whether the set holds this path.
    pub fn contains(&self, path: &[u8]) -> (r: bool)
        ensures
            r == self.spec_contains(path@),
    {
        let mut i: usize = 0;
        while i < self.files.len()
            invariant
                0 <= i <= self.files@.len(),
                forall|j: int| 0 <= j < i ==> (#[trigger] gitignore_views(self.files@)[j]) != path@,
            decreases self.files@.len() - i,
        {
            if crate::hashing::bytes_eq(self.files[i].as_slice(), path) {
                proof {
                    assert(gitignore_views(self.files@)[i as int] == path@);
                }
                return true;
            }
            i = i + 1;
        }
        false
    }
}

/// Whether the ignore filter keeps a path: an ignore file itself is always
/// kept; otherwise the path must not be ignored and not be hidden.
pub open spec fn spec_keeps(g: Gitignore, p: Seq<u8>) -> bool {
    ||| p == gitignore_name_bytes()
    ||| (!g.spec_contains(p) && !(p.len() >= 1 && p[0] == 0x2eu8))
}

/// The name of the ignore file, `.gitignore`, as bytes.
pub open spec fn gitignore_name_bytes() -> Seq<u8> {
    seq![0x2eu8, 0x67u8, 0x69u8, 0x74u8, 0x69u8, 0x67u8, 0x6eu8, 0x6fu8, 0x72u8, 0x65u8]
}

/// The paths the filter keeps, in order.
pub open spec fn spec_not_ignored(g: Gitignore, ps: Seq<Seq<u8>>) -> Seq<Seq<u8>>
    decreases ps.len(),
{
    if ps.len() == 0 {
        Seq::<Seq<u8>>::empty()
    } else if spec_keeps(g, ps[0]) {
        seq![ps[0]] + spec_not_ignored(g, ps.skip(1))
    } else {
        spec_not_ignored(g, ps.skip(1))
    }
}

/// Filters a path listing against the ignore set: a `.gitignore` entry is
/// kept despite being hidden; anything else is dropped when ignored or when
/// its name starts with a dot.
pub fn not_in_gitignore(gitignore: &Gitignore, paths: Vec<Vec<u8>>) -> (r: Vec<Vec<u8>>)
    ensures
        gitignore_views(r@) == spec_not_ignored(*gitignore, gitignore_views(paths@)),
{
    let ghost pv = gitignore_views(paths@);
    let mut out: Vec<Vec<u8>> = Vec::new();
    let mut i: usize = 0;
    proof {
        assert(pv.skip(0) =~= pv);
        assert(gitignore_views(out@) =~= Seq::<Seq<u8>>::empty());
        assert(Seq::<Seq<u8>>::empty() + spec_not_ignored(*gitignore, pv) =~= spec_not_ignored(
            *gitignore,
            pv,
        ));
    }
    while i < paths.len()
        invariant
            0 <= i <= paths@.len(),
            pv == gitignore_views(paths@),
            spec_not_ignored(*gitignore, pv) == gitignore_views(out@) + spec_not_ignored(
                *gitignore,
                pv.skip(i as int),
            ),
        decreases paths@.len() - i,
    {
        let ghost rest = pv.skip(i as int);
        proof {
            assert(rest[0] == pv[i as int]);
            assert(rest.skip(1) =~= pv.skip(i + 1));
        }
        let p = &paths[i];
        let mut keep = crate::hashing::bytes_eq(
            p.as_slice(),
            &[0x2eu8, 0x67u8, 0x69u8, 0x74u8, 0x69u8, 0x67u8, 0x6eu8, 0x6fu8, 0x72u8, 0x65u8],
        );
        proof {
            assert(seq![
                0x2eu8,
                0x67u8,
                0x69u8,
                0x74u8,
                0x69u8,
                0x67u8,
                0x6eu8,
                0x6fu8,
                0x72u8,
                0x65u8,
            ] =~= gitignore_name_bytes());
        }
        if !keep {
            let hidden = p.len() >= 1 && p[0] == 0x2e;
            if !hidden && !gitignore.contains(p.as_slice()) {
                keep = true;
            }
        }
        if keep {
            proof {
                assert(spec_keeps(*gitignore, pv[i as int]));
            }
            let ghost oldout = gitignore_views(out@);
            out.push(slice_to_vec(p.as_slice()));
            proof {
                assert(gitignore_views(out@) =~= oldout.push(pv[i as int]));
                assert(oldout + (seq![pv[i as int]] + spec_not_ignored(*gitignore, pv.skip(i + 1)))
                    =~= gitignore_views(out@) + spec_not_ignored(*gitignore, pv.skip(i + 1)));
            }
        } else {
            proof {
                assert(!spec_keeps(*gitignore, pv[i as int]));
            }
        }
        i = i + 1;
    }
    proof {
        assert(pv.skip(i as int) =~= Seq::<Seq<u8>>::empty());
        assert(gitignore_views(out@) + Seq::<Seq<u8>>::empty() =~= gitignore_views(out@));
    }
    out
}

} // verus!
