//! The commit codec: `"commit {bodyLen}\0"` + body, where the body is a tree
//! line, zero or more parent lines, author and committer lines, a blank
//! line, and the raw message. Identifiers may contain spaces: a user line is
//! read by taking everything but its last two space-separated fields.

use vstd::prelude::*;
use vstd::slice::slice_subrange;

use crate::bytesio::{push_byte, push_bytes, push_dec, read_until, spec_read_until, take_rest};
use crate::error::GitError;
use crate::hashing::{bytes_eq, hex_of, spec_hex_decode};
use crate::numbers::{is_digit, parse_dec, spec_parse_dec, two_dec, u8_to_two_dec};
use crate::object::{
    author_tag, commit_tag, committer_tag, parent_tag, spec_encode_commit, spec_encode_commit_body,
    spec_encode_parents, spec_encode_tz, spec_encode_user_line, tree_tag, CommitUser,
    CommitUserKind, CommitUserV, Object, ObjectV, TimezoneOffset,
};

verus! {

/// The index of the last occurrence of `b` in `s`.
pub open spec fn last_index_of(s: Seq<u8>, b: u8) -> Option<int>
    decreases s.len(),
{
    if s.len() == 0 {
        None
    } else if s.last() == b {
        Some(s.len() - 1)
    } else {
        last_index_of(s.drop_last(), b)
    }
}

pub proof fn lemma_last_index_of_exact(s: Seq<u8>, b: u8, j: int)
    requires
        0 <= j < s.len(),
        s[j] == b,
        forall|k: int| j < k < s.len() ==> s[k] != b,
    ensures
        last_index_of(s, b) == Some(j),
    decreases s.len(),
{
    if j == s.len() - 1 {
    } else {
        assert(s.last() != b);
        assert(s.drop_last()[j] == b);
        lemma_last_index_of_exact(s.drop_last(), b, j);
    }
}

pub proof fn lemma_last_index_of_none(s: Seq<u8>, b: u8)
    requires
        forall|k: int| 0 <= k < s.len() ==> s[k] != b,
    ensures
        last_index_of(s, b) is None,
    decreases s.len(),
{
    if s.len() > 0 {
        lemma_last_index_of_none(s.drop_last(), b);
    }
}

pub proof fn lemma_last_index_of_spec(s: Seq<u8>, b: u8)
    ensures
        match last_index_of(s, b) {
            Some(j) => 0 <= j < s.len() && s[j] == b && (forall|k: int|
                j < k < s.len() ==> s[k] != b),
            None => forall|k: int| 0 <= k < s.len() ==> s[k] != b,
        },
    decreases s.len(),
{
    if s.len() > 0 && s.last() != b {
        lemma_last_index_of_spec(s.drop_last(), b);
        assert(forall|k: int| 0 <= k < s.len() - 1 ==> s.drop_last()[k] == s[k]);
        assert(s[s.len() - 1] != b);
    }
}

/// Finds the last occurrence of a byte in a region.
pub fn rfind_byte(s: &[u8], b: u8) -> (r: Option<usize>)
    ensures
        match r {
            Some(j) => last_index_of(s@, b) == Some(j as int),
            None => last_index_of(s@, b) is None,
        },
{
    let mut i = s.len();
    while i > 0
        invariant
            0 <= i <= s@.len(),
            forall|k: int| i <= k < s@.len() ==> s@[k] != b,
        decreases i,
    {
        i = i - 1;
        if s[i] == b {
            proof {
                lemma_last_index_of_exact(s@, b, i as int);
            }
            return Some(i);
        }
    }
    proof {
        lemma_last_index_of_none(s@, b);
    }
    None
}

/// What parsing a `±HHMM` timezone token yields.
pub open spec fn spec_parse_tz(t: Seq<u8>) -> Option<TimezoneOffset> {
    if t.len() == 5 && (t[0] == 0x2bu8 || t[0] == 0x2du8) && is_digit(t[1]) && is_digit(t[2])
        && is_digit(t[3]) && is_digit(t[4]) {
        let h = (t[1] - 0x30) * 10 + (t[2] - 0x30);
        let m = (t[3] - 0x30) * 10 + (t[4] - 0x30);
        if h < 24 && m < 60 {
            Some(
                TimezoneOffset {
                    negative: t[0] == 0x2du8,
                    hours: h as u8,
                    minutes: m as u8,
                },
            )
        } else {
            None
        }
    } else {
        None
    }
}

/// Parses a `±HHMM` timezone token.
pub fn parse_tz(t: &[u8]) -> (r: Option<TimezoneOffset>)
    ensures
        r == spec_parse_tz(t@),
{
    if t.len() != 5 {
        return None;
    }
    if t[0] != 0x2b && t[0] != 0x2d {
        return None;
    }
    let mut i: usize = 1;
    while i < 5
        invariant
            1 <= i <= 5,
            t@.len() == 5,
            forall|k: int| 1 <= k < i ==> is_digit(#[trigger] t@[k]),
        decreases 5 - i,
    {
        if t[i] < 0x30 || t[i] > 0x39 {
            return None;
        }
        i = i + 1;
    }
    let h = (t[1] - 0x30) * 10 + (t[2] - 0x30);
    let m = (t[3] - 0x30) * 10 + (t[4] - 0x30);
    if h < 24 && m < 60 {
        Some(TimezoneOffset { negative: t[0] == 0x2d, hours: h, minutes: m })
    } else {
        None
    }
}

/// What parsing the part of a user line after its kind tag yields: the last
/// two space-separated fields are the timestamp and timezone, everything
/// before them the identifier.
pub open spec fn spec_parse_user(rest: Seq<u8>, kind: CommitUserKind) -> Option<CommitUserV> {
    match last_index_of(rest, 0x20u8) {
        Some(j) => {
            match spec_parse_tz(rest.skip(j + 1)) {
                Some(tz) => {
                    let prefix = rest.take(j);
                    match last_index_of(prefix, 0x20u8) {
                        Some(j2) => {
                            match spec_parse_dec(prefix.skip(j2 + 1)) {
                                Some(ts) => {
                                    let id = prefix.take(j2);
                                    if id.len() > 0 {
                                        Some(
                                            CommitUserV {
                                                kind,
                                                identifier: id,
                                                timestamp: ts,
                                                timezone: tz,
                                            },
                                        )
                                    } else {
                                        None
                                    }
                                },
                                None => None,
                            }
                        },
                        None => None,
                    }
                },
                None => None,
            }
        },
        None => None,
    }
}

/// Parses the part of a user line after its kind tag.
pub fn parse_user(rest: &[u8], kind: CommitUserKind) -> (r: Option<CommitUser>)
    ensures
        r is Some <==> spec_parse_user(rest@, kind) is Some,
        r is Some ==> Some(r.unwrap()@) == spec_parse_user(rest@, kind),
{
    let j = match rfind_byte(rest, 0x20) {
        Some(j) => j,
        None => {
            return None;
        },
    };
    proof {
        lemma_last_index_of_spec(rest@, 0x20u8);
    }
    let n = rest.len();
    let tz = match parse_tz(slice_subrange(rest, j + 1, n)) {
        Some(tz) => tz,
        None => {
            return None;
        },
    };
    proof {
        assert(rest@.subrange(j + 1, rest@.len() as int) =~= rest@.skip(j + 1));
    }
    let prefix = slice_subrange(rest, 0, j);
    proof {
        assert(rest@.subrange(0, j as int) =~= rest@.take(j as int));
    }
    let j2 = match rfind_byte(prefix, 0x20) {
        Some(j2) => j2,
        None => {
            return None;
        },
    };
    proof {
        lemma_last_index_of_spec(prefix@, 0x20u8);
    }
    let ts = match parse_dec(slice_subrange(prefix, j2 + 1, j)) {
        Some(ts) => ts,
        None => {
            return None;
        },
    };
    proof {
        assert(prefix@.subrange(j2 + 1, prefix@.len() as int) =~= prefix@.skip(j2 + 1));
    }
    let id = slice_subrange(prefix, 0, j2);
    proof {
        assert(prefix@.subrange(0, j2 as int) =~= prefix@.take(j2 as int));
    }
    if id.len() == 0 {
        return None;
    }
    Some(
        CommitUser {
            kind,
            identifier: vstd::slice::slice_to_vec(id),
            timestamp: ts,
            timezone: tz,
        },
    )
}

/// What decoding a user line at `pos` yields: the line, its kind tag
/// verified, parsed into a user; and the position after the line.
pub open spec fn spec_decode_user_at(s: Seq<u8>, pos: int, kind: CommitUserKind) -> Option<
    (CommitUserV, int),
> {
    match spec_read_until(s, pos, 0x0au8) {
        Some((line, p)) => {
            let tl = kind.spec_tag().len() as int;
            if line.len() > tl && line.take(tl + 1) == kind.spec_tag() + seq![0x20u8] {
                match spec_parse_user(line.skip(tl + 1), kind) {
                    Some(u) => Some((u, p)),
                    None => None,
                }
            } else {
                None
            }
        },
        None => None,
    }
}

/// Decodes a user line at the cursor, consuming it.
pub fn parse_user_line(bytes: &[u8], pos: &mut usize, kind: CommitUserKind) -> (r: Result<
    CommitUser,
    GitError,
>)
    requires
        *old(pos) <= bytes@.len(),
    ensures
        r is Ok <==> spec_decode_user_at(bytes@, *old(pos) as int, kind) is Some,
        r is Ok ==> spec_decode_user_at(bytes@, *old(pos) as int, kind) == Some(
            (r.unwrap()@, *final(pos) as int),
        ),
        *old(pos) <= *final(pos) <= bytes@.len(),
{
    let line = match read_until(bytes, pos, 0x0a) {
        Some(t) => t,
        None => {
            return Err(GitError::FormatError);
        },
    };
    let tag: &[u8] = match kind {
        CommitUserKind::Author => &[0x61u8, 0x75u8, 0x74u8, 0x68u8, 0x6fu8, 0x72u8],
        CommitUserKind::Committer => &[
            0x63u8,
            0x6fu8,
            0x6du8,
            0x6du8,
            0x69u8,
            0x74u8,
            0x74u8,
            0x65u8,
            0x72u8,
        ],
    };
    proof {
        assert(seq![0x61u8, 0x75u8, 0x74u8, 0x68u8, 0x6fu8, 0x72u8] =~= author_tag());
        assert(seq![0x63u8, 0x6fu8, 0x6du8, 0x6du8, 0x69u8, 0x74u8, 0x74u8, 0x65u8, 0x72u8]
            =~= committer_tag());
    }
    let tl = tag.len();
    if line.len() <= tl {
        return Err(GitError::FormatError);
    }
    let head = slice_subrange(line.as_slice(), 0, tl);
    if !bytes_eq(head, tag) {
        proof {
            assert(line@.take(tl as int) =~= line@.subrange(0, tl as int));
            assert(line@.take(tl + 1).take(tl as int) =~= line@.take(tl as int));
            if line@.take(tl + 1) == kind.spec_tag() + seq![0x20u8] {
                assert((kind.spec_tag() + seq![0x20u8]).take(tl as int) =~= kind.spec_tag());
            }
        }
        return Err(GitError::FormatError);
    }
    if line[tl] != 0x20 {
        proof {
            if line@.take(tl + 1) == kind.spec_tag() + seq![0x20u8] {
                assert((kind.spec_tag() + seq![0x20u8])[tl as int] == 0x20u8);
            }
        }
        return Err(GitError::FormatError);
    }
    proof {
        assert(line@.take(tl + 1) =~= kind.spec_tag() + seq![0x20u8]);
    }
    let n = line.len();
    let rest = slice_subrange(line.as_slice(), tl + 1, n);
    proof {
        assert(line@.subrange(tl + 1, line@.len() as int) =~= line@.skip(tl + 1));
    }
    match parse_user(rest, kind) {
        Some(u) => Ok(u),
        None => Err(GitError::FormatError),
    }
}

/// What decoding the parent lines from `pos` on yields: the parent hashes,
/// and the position of the first line that is not a parent line.
pub open spec fn spec_decode_parents(s: Seq<u8>, pos: int) -> (Seq<Seq<u8>>, int)
    decreases s.len() - pos,
    when 0 <= pos <= s.len()
{
    match spec_read_until(s, pos, 0x0au8) {
        Some((line, p)) => {
            if line.len() == 47 && line.take(7) == parent_tag() + seq![0x20u8] && spec_hex_decode(
                line.skip(7),
            ) is Some && pos < p <= s.len() {
                let r = spec_decode_parents(s, p);
                (seq![spec_hex_decode(line.skip(7)).unwrap()] + r.0, r.1)
            } else {
                (Seq::<Seq<u8>>::empty(), pos)
            }
        },
        None => (Seq::<Seq<u8>>::empty(), pos),
    }
}

/// Decodes consecutive parent lines at the cursor.
fn parse_parents(bytes: &[u8], pos: &mut usize) -> (r: Vec<crate::hashing::Hash>)
    requires
        *old(pos) <= bytes@.len(),
    ensures
        spec_decode_parents(bytes@, *old(pos) as int) == (
            Seq::new(r@.len(), |i: int| r@[i]@),
            *final(pos) as int,
        ),
        *old(pos) <= *final(pos) <= bytes@.len(),
{
    let mut out: Vec<crate::hashing::Hash> = Vec::new();
    loop
        invariant
            *pos <= bytes@.len(),
            *old(pos) <= *pos,
            spec_decode_parents(bytes@, *old(pos) as int).0 == Seq::new(
                out@.len(),
                |i: int| out@[i]@,
            ) + spec_decode_parents(bytes@, *pos as int).0,
            spec_decode_parents(bytes@, *old(pos) as int).1 == spec_decode_parents(
                bytes@,
                *pos as int,
            ).1,
        ensures
            spec_decode_parents(bytes@, *pos as int) == (Seq::<Seq<u8>>::empty(), *pos as int),
        decreases bytes@.len() - *pos,
    {
        let pos0 = *pos;
        let line = match read_until(bytes, pos, 0x0a) {
            Some(t) => t,
            None => {
                proof {
                    assert(spec_decode_parents(bytes@, pos0 as int) == (
                        Seq::<Seq<u8>>::empty(),
                        pos0 as int,
                    ));
                    assert(Seq::new(out@.len(), |i: int| out@[i]@) + Seq::<Seq<u8>>::empty()
                        =~= Seq::new(out@.len(), |i: int| out@[i]@));
                }
                break;
            },
        };
        proof {
            crate::bytesio::lemma_index_of_from_spec(bytes@, pos0 as int, 0x0au8);
        }
        let mut is_parent = line.len() == 47;
        if is_parent {
            let head = slice_subrange(line.as_slice(), 0, 7);
            is_parent = bytes_eq(head, &[0x70u8, 0x61u8, 0x72u8, 0x65u8, 0x6eu8, 0x74u8, 0x20u8]);
            proof {
                assert(seq![0x70u8, 0x61u8, 0x72u8, 0x65u8, 0x6eu8, 0x74u8, 0x20u8] =~= parent_tag()
                    + seq![0x20u8]);
                assert(line@.subrange(0, 7) =~= line@.take(7));
            }
        }
        if !is_parent {
            *pos = pos0;
            proof {
                assert(spec_decode_parents(bytes@, pos0 as int) == (
                    Seq::<Seq<u8>>::empty(),
                    pos0 as int,
                ));
                assert(Seq::new(out@.len(), |i: int| out@[i]@) + Seq::<Seq<u8>>::empty()
                    =~= Seq::new(out@.len(), |i: int| out@[i]@));
            }
            break;
        }
        let n = line.len();
        let hexpart = slice_subrange(line.as_slice(), 7, n);
        proof {
            assert(line@.subrange(7, line@.len() as int) =~= line@.skip(7));
        }
        match crate::hashing::hex_decode(hexpart) {
            Some(h) => {
                proof {
                    crate::hashing::lemma_hex_decode_len(line@.skip(7));
                }
                let ghost prev = Seq::new(out@.len(), |i: int| out@[i]@);
                let hh = crate::hashing::Hash::from_vec(h);
                out.push(hh);
                proof {
                    let cur = Seq::new(out@.len(), |i: int| out@[i]@);
                    assert(cur =~= prev.push(hh@));
                    assert(prev + (seq![hh@] + spec_decode_parents(bytes@, *pos as int).0)
                        =~= cur + spec_decode_parents(bytes@, *pos as int).0);
                }
            },
            None => {
                *pos = pos0;
                proof {
                    assert(spec_decode_parents(bytes@, pos0 as int) == (
                        Seq::<Seq<u8>>::empty(),
                        pos0 as int,
                    ));
                    assert(Seq::new(out@.len(), |i: int| out@[i]@) + Seq::<Seq<u8>>::empty()
                        =~= Seq::new(out@.len(), |i: int| out@[i]@));
                }
                break;
            },
        }
    }
    out
}

/// What decoding a commit yields. The declared body length is read and
/// required to be a number, but its value is not compared to the body, which
/// self-delimits by lines.
pub open spec fn spec_decode_commit(s: Seq<u8>) -> Option<ObjectV> {
    match spec_read_until(s, 0, 0x20u8) {
        Some((tag, p1)) => {
            if tag == commit_tag() {
                match spec_read_until(s, p1, 0u8) {
                    Some((lenb, p2)) => {
                        if spec_parse_dec(lenb) is Some {
                            spec_decode_commit_body(s, p2)
                        } else {
                            None
                        }
                    },
                    None => None,
                }
            } else {
                None
            }
        },
        None => None,
    }
}

/// What decoding the commit body from `pos` on yields.
pub open spec fn spec_decode_commit_body(s: Seq<u8>, pos: int) -> Option<ObjectV> {
    match spec_read_until(s, pos, 0x0au8) {
        Some((tl, q1)) => {
            if tl.len() == 45 && tl.take(5) == tree_tag() + seq![0x20u8] && spec_hex_decode(
                tl.skip(5),
            ) is Some && 0 <= q1 <= s.len() {
                let tree = spec_hex_decode(tl.skip(5)).unwrap();
                let pr = spec_decode_parents(s, q1);
                let parents = pr.0;
                let qp = pr.1;
                if 0 <= qp <= s.len() {
                    match spec_decode_user_at(s, qp, CommitUserKind::Author) {
                        Some((author, qa)) => {
                            if 0 <= qa <= s.len() {
                                match spec_decode_user_at(s, qa, CommitUserKind::Committer) {
                                    Some((committer, qc)) => {
                                        if qc < s.len() && s[qc] == 0x0au8 {
                                            let msg0 = s.skip(qc + 1);
                                            let message = if msg0.len() > 0 && msg0.last()
                                                == 0x0au8 {
                                                msg0.drop_last()
                                            } else {
                                                msg0
                                            };
                                            Some(
                                                ObjectV::Commit {
                                                    tree,
                                                    parents,
                                                    author,
                                                    committer,
                                                    message,
                                                },
                                            )
                                        } else {
                                            None
                                        }
                                    },
                                    None => None,
                                }
                            } else {
                                None
                            }
                        },
                        None => None,
                    }
                } else {
                    None
                }
            } else {
                None
            }
        },
        None => None,
    }
}

/// Encodes a user line.
pub fn user_line_bytes(u: &CommitUser) -> (r: Vec<u8>)
    ensures
        r@ == spec_encode_user_line(u@),
{
    let mut out: Vec<u8> = Vec::new();
    match u.kind {
        CommitUserKind::Author => {
            push_bytes(&mut out, &[0x61u8, 0x75u8, 0x74u8, 0x68u8, 0x6fu8, 0x72u8]);
            proof {
                assert(seq![0x61u8, 0x75u8, 0x74u8, 0x68u8, 0x6fu8, 0x72u8] =~= author_tag());
            }
        },
        CommitUserKind::Committer => {
            push_bytes(
                &mut out,
                &[0x63u8, 0x6fu8, 0x6du8, 0x6du8, 0x69u8, 0x74u8, 0x74u8, 0x65u8, 0x72u8],
            );
            proof {
                assert(seq![0x63u8, 0x6fu8, 0x6du8, 0x6du8, 0x69u8, 0x74u8, 0x74u8, 0x65u8, 0x72u8]
                    =~= committer_tag());
            }
        },
    }
    push_byte(&mut out, 0x20);
    push_bytes(&mut out, u.identifier.as_slice());
    push_byte(&mut out, 0x20);
    push_dec(&mut out, u.timestamp);
    push_byte(&mut out, 0x20);
    if u.timezone.negative {
        push_byte(&mut out, 0x2d);
    } else {
        push_byte(&mut out, 0x2b);
    }
    let hh = u8_to_two_dec(u.timezone.hours);
    push_bytes(&mut out, hh.as_slice());
    let mm = u8_to_two_dec(u.timezone.minutes);
    push_bytes(&mut out, mm.as_slice());
    push_byte(&mut out, 0x0a);
    proof {
        assert(out@ =~= spec_encode_user_line(u@));
    }
    out
}

/// Encodes the body of a commit, without the `"commit {len}\0"` header.
pub fn commit_body_bytes(
    tree: &crate::hashing::Hash,
    parents: &Vec<crate::hashing::Hash>,
    author: &CommitUser,
    committer: &CommitUser,
    message: &[u8],
) -> (r: Vec<u8>)
    ensures
        r@ == spec_encode_commit_body(
            tree@,
            Seq::new(parents@.len(), |i: int| parents@[i]@),
            author@,
            committer@,
            message@,
        ),
{
    let ghost pviews = Seq::new(parents@.len(), |i: int| parents@[i]@);
    let mut body: Vec<u8> = Vec::new();
    push_bytes(&mut body, &[0x74u8, 0x72u8, 0x65u8, 0x65u8]);
    proof {
        assert(seq![0x74u8, 0x72u8, 0x65u8, 0x65u8] =~= tree_tag());
    }
    push_byte(&mut body, 0x20);
    let hx = tree.to_hex_bytes();
    push_bytes(&mut body, hx.as_slice());
    push_byte(&mut body, 0x0a);
    let ghost head = tree_tag() + seq![0x20u8] + hex_of(tree@) + seq![0x0au8];
    proof {
        assert(body@ =~= head);
        assert(pviews.take(0) =~= Seq::<Seq<u8>>::empty());
        assert(head + Seq::<u8>::empty() =~= head);
    }
    let mut i: usize = 0;
    while i < parents.len()
        invariant
            0 <= i <= parents@.len(),
            pviews == Seq::new(parents@.len(), |j: int| parents@[j]@),
            body@ == head + spec_encode_parents(pviews.take(i as int)),
        decreases parents@.len() - i,
    {
        let ghost prevenc = spec_encode_parents(pviews.take(i as int));
        push_bytes(&mut body, &[0x70u8, 0x61u8, 0x72u8, 0x65u8, 0x6eu8, 0x74u8]);
        proof {
            assert(seq![0x70u8, 0x61u8, 0x72u8, 0x65u8, 0x6eu8, 0x74u8] =~= parent_tag());
        }
        push_byte(&mut body, 0x20);
        let ph = parents[i].to_hex_bytes();
        push_bytes(&mut body, ph.as_slice());
        push_byte(&mut body, 0x0a);
        proof {
            lemma_encode_parents_snoc(pviews.take(i as int), pviews[i as int]);
            assert(pviews.take(i + 1) =~= pviews.take(i as int).push(pviews[i as int]));
            assert(body@ =~= head + spec_encode_parents(pviews.take(i + 1)));
        }
        i = i + 1;
    }
    proof {
        assert(pviews.take(pviews.len() as int) =~= pviews);
    }
    let mut al = user_line_bytes(author);
    body.append(&mut al);
    let mut cl = user_line_bytes(committer);
    body.append(&mut cl);
    push_byte(&mut body, 0x0a);
    push_bytes(&mut body, message);
    push_byte(&mut body, 0x0a);
    proof {
        assert(body@ =~= spec_encode_commit_body(tree@, pviews, author@, committer@, message@));
    }
    body
}

/// Encodes a whole commit object with its header.
pub fn as_bytes(
    tree: &crate::hashing::Hash,
    parents: &Vec<crate::hashing::Hash>,
    author: &CommitUser,
    committer: &CommitUser,
    message: &[u8],
) -> (r: Vec<u8>)
    ensures
        r@ == spec_encode_commit(
            tree@,
            Seq::new(parents@.len(), |i: int| parents@[i]@),
            author@,
            committer@,
            message@,
        ),
{
    let ghost pviews = Seq::new(parents@.len(), |i: int| parents@[i]@);
    let body = commit_body_bytes(tree, parents, author, committer, message);
    let mut out: Vec<u8> = Vec::new();
    push_bytes(&mut out, &[0x63u8, 0x6fu8, 0x6du8, 0x6du8, 0x69u8, 0x74u8]);
    proof {
        assert(seq![0x63u8, 0x6fu8, 0x6du8, 0x6du8, 0x69u8, 0x74u8] =~= commit_tag());
    }
    push_byte(&mut out, 0x20);
    push_dec(&mut out, body.len() as u64);
    push_byte(&mut out, 0);
    push_bytes(&mut out, body.as_slice());
    proof {
        assert(out@ =~= spec_encode_commit(tree@, pviews, author@, committer@, message@));
    }
    out
}

/// Appending one parent appends its line.
pub proof fn lemma_encode_parents_snoc(s: Seq<Seq<u8>>, p: Seq<u8>)
    ensures
        spec_encode_parents(s.push(p)) == spec_encode_parents(s) + (parent_tag() + seq![0x20u8]
            + hex_of(p) + seq![0x0au8]),
    decreases s.len(),
{
    let line = parent_tag() + seq![0x20u8] + hex_of(p) + seq![0x0au8];
    if s.len() == 0 {
        assert(s.push(p)[0] == p);
        assert(s.push(p).skip(1) =~= Seq::<Seq<u8>>::empty());
        assert(spec_encode_parents(Seq::<Seq<u8>>::empty()) == Seq::<u8>::empty());
        assert(spec_encode_parents(s.push(p)) =~= line);
        assert(spec_encode_parents(s) + line =~= line);
    } else {
        lemma_encode_parents_snoc(s.skip(1), p);
        assert(s.push(p)[0] == s[0]);
        assert(s.push(p).skip(1) =~= s.skip(1).push(p));
        let line0 = parent_tag() + seq![0x20u8] + hex_of(s[0]) + seq![0x0au8];
        assert(spec_encode_parents(s.push(p)) == line0 + spec_encode_parents(s.skip(1).push(p)));
        assert(line0 + (spec_encode_parents(s.skip(1)) + line) =~= (line0 + spec_encode_parents(
            s.skip(1),
        )) + line);
    }
}

/// Renders a commit's body text for human reading.
pub fn display(
    tree: &crate::hashing::Hash,
    parents: &Vec<crate::hashing::Hash>,
    author: &CommitUser,
    committer: &CommitUser,
    message: &[u8],
) -> (r: String)
    ensures
        r@ == crate::display::lossy_of(
            spec_encode_commit_body(
                tree@,
                Seq::new(parents@.len(), |i: int| parents@[i]@),
                author@,
                committer@,
                message@,
            ),
        ),
{
    let b = commit_body_bytes(tree, parents, author, committer, message);
    crate::display::lossy_string(b.as_slice())
}

/// Decodes a commit object.
pub fn from_bytes(bytes: &[u8]) -> (r: Result<Object, GitError>)
    ensures
        r is Ok <==> spec_decode_commit(bytes@) is Some,
        r is Ok ==> Some(r.unwrap()@) == spec_decode_commit(bytes@),
{
    let mut pos: usize = 0;
    let tag = match read_until(bytes, &mut pos, 0x20) {
        Some(t) => t,
        None => {
            return Err(GitError::FormatError);
        },
    };
    if !bytes_eq(tag.as_slice(), &[0x63u8, 0x6fu8, 0x6du8, 0x6du8, 0x69u8, 0x74u8]) {
        proof {
            assert(seq![0x63u8, 0x6fu8, 0x6du8, 0x6du8, 0x69u8, 0x74u8] =~= commit_tag());
        }
        return Err(GitError::FormatError);
    }
    proof {
        assert(seq![0x63u8, 0x6fu8, 0x6du8, 0x6du8, 0x69u8, 0x74u8] =~= commit_tag());
    }
    let lenb = match read_until(bytes, &mut pos, 0) {
        Some(t) => t,
        None => {
            return Err(GitError::FormatError);
        },
    };
    if parse_dec(lenb.as_slice()).is_none() {
        return Err(GitError::FormatError);
    }
    // tree line
    let ghost pbody = pos as int;
    let tl = match read_until(bytes, &mut pos, 0x0a) {
        Some(t) => t,
        None => {
            return Err(GitError::FormatError);
        },
    };
    proof {
        crate::bytesio::lemma_index_of_from_spec(bytes@, pbody, 0x0au8);
    }
    if tl.len() != 45 {
        return Err(GitError::FormatError);
    }
    let head = slice_subrange(tl.as_slice(), 0, 5);
    if !bytes_eq(head, &[0x74u8, 0x72u8, 0x65u8, 0x65u8, 0x20u8]) {
        proof {
            assert(seq![0x74u8, 0x72u8, 0x65u8, 0x65u8, 0x20u8] =~= tree_tag() + seq![0x20u8]);
            assert(tl@.subrange(0, 5) =~= tl@.take(5));
        }
        return Err(GitError::FormatError);
    }
    proof {
        assert(seq![0x74u8, 0x72u8, 0x65u8, 0x65u8, 0x20u8] =~= tree_tag() + seq![0x20u8]);
        assert(tl@.subrange(0, 5) =~= tl@.take(5));
    }
    let hexpart = slice_subrange(tl.as_slice(), 5, 45);
    proof {
        assert(tl@.subrange(5, tl@.len() as int) =~= tl@.skip(5));
    }
    let tree = match crate::hashing::hex_decode(hexpart) {
        Some(h) => {
            proof {
                crate::hashing::lemma_hex_decode_len(tl@.skip(5));
            }
            crate::hashing::Hash::from_vec(h)
        },
        None => {
            return Err(GitError::FormatError);
        },
    };
    // parent lines
    let parents = parse_parents(bytes, &mut pos);
    // author and committer lines
    let author = match parse_user_line(bytes, &mut pos, CommitUserKind::Author) {
        Ok(u) => u,
        Err(e) => {
            return Err(e);
        },
    };
    let committer = match parse_user_line(bytes, &mut pos, CommitUserKind::Committer) {
        Ok(u) => u,
        Err(e) => {
            return Err(e);
        },
    };
    // blank line
    if pos >= bytes.len() || bytes[pos] != 0x0a {
        return Err(GitError::FormatError);
    }
    // message: everything remaining, less one trailing newline
    let mut message = take_rest(bytes, pos + 1);
    let ghost msg0 = message@;
    if message.len() > 0 && message[message.len() - 1] == 0x0a {
        let _ = message.pop();
        proof {
            assert(message@ =~= msg0.drop_last());
        }
    }
    Ok(Object::Commit { tree, parents, author, committer, message })
}

// --- round-trip lemmas ---

/// The last occurrence of `b` in `pre + [b] + post` is the explicit one,
/// when `post` has none.
pub proof fn lemma_last_index_of_concat(pre: Seq<u8>, post: Seq<u8>, b: u8)
    requires
        forall|i: int| 0 <= i < post.len() ==> post[i] != b,
    ensures
        last_index_of(pre + seq![b] + post, b) == Some(pre.len() as int),
    decreases post.len(),
{
    let s = pre + seq![b] + post;
    if post.len() == 0 {
        assert(s.last() == b);
        assert(s.len() - 1 == pre.len());
    } else {
        lemma_last_index_of_concat(pre, post.drop_last(), b);
        assert(s.last() == post.last());
        assert(s.last() != b);
        assert(s.drop_last() =~= pre + seq![b] + post.drop_last());
    }
}

/// Parsing an encoded timezone gives back the offset.
pub proof fn lemma_tz_round_trip(t: TimezoneOffset)
    requires
        t.wf(),
    ensures
        spec_parse_tz(spec_encode_tz(t)) == Some(t),
        spec_encode_tz(t).len() == 5,
        forall|i: int|
            0 <= i < 5 ==> #[trigger] spec_encode_tz(t)[i] != 0x20u8 && spec_encode_tz(t)[i]
                != 0x0au8,
{
    let e = spec_encode_tz(t);
    let sign = seq![if t.negative { 0x2du8 } else { 0x2bu8 }];
    assert(e == (sign + two_dec(t.hours)) + two_dec(t.minutes));
    assert(e.len() == 5);
    assert(e[0] == sign[0]);
    assert(e[1] == two_dec(t.hours)[0] && e[2] == two_dec(t.hours)[1]);
    assert(e[3] == two_dec(t.minutes)[0] && e[4] == two_dec(t.minutes)[1]);
    assert(t.hours / 10 < 10 && t.minutes / 10 < 10);
    assert((e[1] - 0x30) * 10 + (e[2] - 0x30) == t.hours) by {
        assert(t.hours / 10 * 10 + t.hours % 10 == t.hours) by (nonlinear_arith);
    }
    assert((e[3] - 0x30) * 10 + (e[4] - 0x30) == t.minutes) by {
        assert(t.minutes / 10 * 10 + t.minutes % 10 == t.minutes) by (nonlinear_arith);
    }
}

/// The part of a user line after the kind tag.
pub open spec fn spec_user_rest(u: CommitUserV) -> Seq<u8> {
    u.identifier + seq![0x20u8] + crate::numbers::dec_digits(u.timestamp as nat) + seq![0x20u8]
        + spec_encode_tz(u.timezone)
}

/// Parsing the encoded rest of a user line gives back the user.
pub proof fn lemma_parse_user_round_trip(u: CommitUserV)
    requires
        crate::object::wf_user(u),
    ensures
        spec_parse_user(spec_user_rest(u), u.kind) == Some(u),
{
    let id = u.identifier;
    let dd = crate::numbers::dec_digits(u.timestamp as nat);
    let tz5 = spec_encode_tz(u.timezone);
    crate::numbers::lemma_dec_digits_value(u.timestamp as nat);
    lemma_tz_round_trip(u.timezone);
    let rest = spec_user_rest(u);
    let pre = (id + seq![0x20u8]) + dd;
    assert(rest == pre + seq![0x20u8] + tz5);
    lemma_last_index_of_concat(pre, tz5, 0x20u8);
    let j = pre.len() as int;
    assert(rest.skip(j + 1) =~= tz5) by {
        assert(forall|i: int|
            0 <= i < rest.skip(j + 1).len() ==> #[trigger] rest.skip(j + 1)[i] == rest[j + 1 + i]);
        assert(forall|i: int|
            0 <= i < tz5.len() ==> (pre + seq![0x20u8] + tz5)[pre.len() + 1 + i] == #[trigger] tz5[i]);
    }
    let prefix = rest.take(j);
    assert(prefix =~= pre) by {
        assert(forall|i: int| 0 <= i < j ==> #[trigger] prefix[i] == rest[i]);
        assert(forall|i: int| 0 <= i < pre.len() ==> (pre + seq![0x20u8] + tz5)[i] == #[trigger] pre[i]);
    }
    assert(pre == id + seq![0x20u8] + dd);
    assert(forall|i: int|
        0 <= i < dd.len() ==> crate::numbers::is_digit(#[trigger] dd[i]));
    assert forall|i: int| 0 <= i < dd.len() implies dd[i] != 0x20u8 by {
        assert(crate::numbers::is_digit(dd[i]));
    }
    lemma_last_index_of_concat(id, dd, 0x20u8);
    let j2 = id.len() as int;
    assert(prefix.skip(j2 + 1) =~= dd) by {
        assert(forall|i: int|
            0 <= i < prefix.skip(j2 + 1).len() ==> #[trigger] prefix.skip(j2 + 1)[i] == prefix[j2 + 1 + i]);
        assert(forall|i: int|
            0 <= i < dd.len() ==> (id + seq![0x20u8] + dd)[id.len() + 1 + i] == #[trigger] dd[i]);
    }
    assert(prefix.take(j2) =~= id) by {
        assert(forall|i: int| 0 <= i < j2 ==> #[trigger] prefix.take(j2)[i] == prefix[i]);
        assert(forall|i: int| 0 <= i < id.len() ==> (id + seq![0x20u8] + dd)[i] == #[trigger] id[i]);
    }
}

/// Reading up to the newline of a line placed at `pos` yields its content.
pub proof fn lemma_read_line(s: Seq<u8>, pos: int, content: Seq<u8>, tail: Seq<u8>)
    requires
        0 <= pos <= s.len(),
        s.skip(pos) == (content + seq![0x0au8]) + tail,
        forall|i: int| 0 <= i < content.len() ==> content[i] != 0x0au8,
    ensures
        spec_read_until(s, pos, 0x0au8) == Some((content, pos + content.len() + 1)),
        s.skip(pos + content.len() + 1) == tail,
        pos + content.len() + 1 <= s.len(),
{
    let r = (content + seq![0x0au8]) + tail;
    let cl = content.len() as int;
    assert(s.skip(pos).len() == s.len() - pos);
    assert(s.len() - pos == cl + 1 + tail.len());
    crate::bytesio::lemma_skip_eq_index(s, pos, r);
    assert forall|k: int| pos <= k < pos + cl implies s[k] != 0x0au8 by {
        let i = k - pos;
        assert(s[pos + i] == r[i]);
        assert(r[i] == (content + seq![0x0au8])[i]);
        assert((content + seq![0x0au8])[i] == content[i]);
    }
    assert(s[pos + cl] == 0x0au8) by {
        assert(s[pos + cl] == r[cl]);
        assert(r[cl] == (content + seq![0x0au8])[cl]);
    }
    crate::bytesio::lemma_index_of_from_exact(s, pos, 0x0au8, pos + cl);
    assert(s.subrange(pos, pos + cl) =~= content) by {
        assert(forall|i: int|
            0 <= i < cl ==> #[trigger] s.subrange(pos, pos + cl)[i] == s[pos + i]);
    }
    crate::bytesio::lemma_skip_concat(s, pos, content + seq![0x0au8], tail);
}

/// The content of an encoded user line, before its newline, has no newline.
pub proof fn lemma_user_line_shape(u: CommitUserV)
    requires
        crate::object::wf_user(u),
    ensures
        spec_encode_user_line(u) == (u.kind.spec_tag() + seq![0x20u8] + spec_user_rest(u))
            + seq![0x0au8],
        forall|i: int|
            0 <= i < (u.kind.spec_tag() + seq![0x20u8] + spec_user_rest(u)).len() ==> (
            u.kind.spec_tag() + seq![0x20u8] + spec_user_rest(u))[i] != 0x0au8,
{
    let tag = u.kind.spec_tag();
    let tl = tag.len() as int;
    let id = u.identifier;
    let dd = crate::numbers::dec_digits(u.timestamp as nat);
    let tz5 = spec_encode_tz(u.timezone);
    crate::numbers::lemma_dec_digits_value(u.timestamp as nat);
    lemma_tz_round_trip(u.timezone);
    let content = tag + seq![0x20u8] + spec_user_rest(u);
    assert(spec_encode_user_line(u) =~= content + seq![0x0au8]);
    assert(forall|i: int| 0 <= i < tl ==> tag[i] != 0x0au8) by {
        assert(author_tag() =~= seq![0x61u8, 0x75u8, 0x74u8, 0x68u8, 0x6fu8, 0x72u8]);
        assert(committer_tag() =~= seq![
            0x63u8,
            0x6fu8,
            0x6du8,
            0x6du8,
            0x69u8,
            0x74u8,
            0x74u8,
            0x65u8,
            0x72u8,
        ]);
    }
    assert forall|i: int| 0 <= i < content.len() implies content[i] != 0x0au8 by {
        let rest = spec_user_rest(u);
        assert(content == (tag + seq![0x20u8]) + rest);
        if i < tl + 1 {
            assert(content[i] == (tag + seq![0x20u8])[i]);
        } else {
            let k = i - (tl + 1);
            assert(content[i] == rest[k]);
            let pre1 = (id + seq![0x20u8]) + dd;
            assert(rest == (pre1 + seq![0x20u8]) + tz5);
            if k < pre1.len() + 1 {
                assert(rest[k] == (pre1 + seq![0x20u8])[k]);
                if k < pre1.len() {
                    assert((pre1 + seq![0x20u8])[k] == pre1[k]);
                    assert(pre1 == (id + seq![0x20u8]) + dd);
                    if k < id.len() + 1 {
                        assert(pre1[k] == (id + seq![0x20u8])[k]);
                    } else {
                        assert(pre1[k] == dd[k - (id.len() + 1)]);
                        assert(crate::numbers::is_digit(dd[k - (id.len() + 1)]));
                    }
                }
            } else {
                assert(rest[k] == tz5[k - (pre1.len() + 1)]);
            }
        }
    }
}

/// Decoding an encoded user line placed at `pos` yields the user.
pub proof fn lemma_user_line_decode(s: Seq<u8>, pos: int, u: CommitUserV, tail: Seq<u8>)
    requires
        0 <= pos <= s.len(),
        s.skip(pos) == spec_encode_user_line(u) + tail,
        crate::object::wf_user(u),
    ensures
        spec_decode_user_at(s, pos, u.kind) == Some(
            (u, pos + spec_encode_user_line(u).len() as int),
        ),
        s.skip(pos + spec_encode_user_line(u).len() as int) == tail,
        pos + spec_encode_user_line(u).len() <= s.len(),
{
    let tag = u.kind.spec_tag();
    let tl = tag.len() as int;
    let content = tag + seq![0x20u8] + spec_user_rest(u);
    lemma_user_line_shape(u);
    assert(s.skip(pos) =~= (content + seq![0x0au8]) + tail);
    lemma_read_line(s, pos, content, tail);
    let cl = content.len() as int;
    assert(content.take(tl + 1) =~= tag + seq![0x20u8]) by {
        assert(content == (tag + seq![0x20u8]) + spec_user_rest(u));
        assert(forall|i: int|
            0 <= i < tl + 1 ==> #[trigger] content.take(tl + 1)[i] == content[i]);
        assert(forall|i: int|
            0 <= i < tl + 1 ==> #[trigger] ((tag + seq![0x20u8]) + spec_user_rest(u))[i] == (tag
                + seq![0x20u8])[i]);
    }
    assert(content.skip(tl + 1) =~= spec_user_rest(u)) by {
        assert(content == (tag + seq![0x20u8]) + spec_user_rest(u));
        assert(forall|i: int|
            0 <= i < content.skip(tl + 1).len() ==> #[trigger] content.skip(tl + 1)[i] == content[tl + 1
                + i]);
        assert(forall|i: int|
            0 <= i < spec_user_rest(u).len() ==> ((tag + seq![0x20u8]) + spec_user_rest(u))[tl + 1
                + i] == #[trigger] spec_user_rest(u)[i]);
    }
    lemma_parse_user_round_trip(u);
    assert(content.len() > tl);
    assert(spec_encode_user_line(u).len() == cl + 1);
}

/// Decoding the encoded parent lines placed at `pos`, followed by the author
/// line, yields the parents and stops before the author line.
pub proof fn lemma_parents_decode(s: Seq<u8>, pos: int, parents: Seq<Seq<u8>>, tail: Seq<u8>)
    requires
        0 <= pos <= s.len(),
        s.skip(pos) == spec_encode_parents(parents) + tail,
        forall|i: int| 0 <= i < parents.len() ==> (#[trigger] parents[i]).len() == 20,
        tail.len() >= 7,
        tail.take(7) == author_tag() + seq![0x20u8],
    ensures
        spec_decode_parents(s, pos) == (parents, pos + spec_encode_parents(parents).len() as int),
        s.skip(pos + spec_encode_parents(parents).len() as int) == tail,
    decreases parents.len(),
{
    if parents.len() == 0 {
        assert(spec_encode_parents(parents) == Seq::<u8>::empty());
        assert(s.skip(pos) =~= tail);
        crate::bytesio::lemma_skip_eq_index(s, pos, tail);
        match crate::bytesio::index_of_from(s, pos, 0x0au8) {
            Some(j) => {
                crate::bytesio::lemma_index_of_from_spec(s, pos, 0x0au8);
                let line = s.subrange(pos, j);
                if line.len() == 47 {
                    assert(line.take(7) =~= tail.take(7)) by {
                        assert(forall|i: int|
                            0 <= i < 7 ==> #[trigger] line.take(7)[i] == s[pos + i]);
                        assert(forall|i: int| 0 <= i < 7 ==> #[trigger] s[pos + i] == tail[i]);
                        assert(forall|i: int| 0 <= i < 7 ==> #[trigger] tail.take(7)[i] == tail[i]);
                    }
                    assert((author_tag() + seq![0x20u8])[0] == 0x61u8);
                    assert((parent_tag() + seq![0x20u8])[0] == 0x70u8);
                    assert(line.take(7) != parent_tag() + seq![0x20u8]);
                }
            },
            None => {},
        }
    } else {
        let p0 = parents[0];
        let hx = hex_of(p0);
        crate::hashing::lemma_hex_of_len(p0);
        crate::hashing::lemma_hex_of_digits(p0);
        crate::hashing::lemma_hex_round_trip(p0);
        let content = (parent_tag() + seq![0x20u8]) + hx;
        let enc_rest = spec_encode_parents(parents.skip(1));
        assert(spec_encode_parents(parents) == parent_tag() + seq![0x20u8] + hx + seq![0x0au8]
            + enc_rest);
        assert(s.skip(pos) =~= (content + seq![0x0au8]) + (enc_rest + tail));
        assert(forall|i: int| 0 <= i < 6 ==> parent_tag()[i] != 0x0au8) by {
            assert(parent_tag() =~= seq![0x70u8, 0x61u8, 0x72u8, 0x65u8, 0x6eu8, 0x74u8]);
        }
        assert forall|i: int| 0 <= i < content.len() implies content[i] != 0x0au8 by {
            if i < 7 {
                assert(content[i] == (parent_tag() + seq![0x20u8])[i]);
            } else {
                assert(content[i] == hx[i - 7]);
            }
        }
        lemma_read_line(s, pos, content, enc_rest + tail);
        let p = pos + content.len() + 1;
        assert(content.len() == 47);
        let line = content;
        assert(line.take(7) =~= parent_tag() + seq![0x20u8]) by {
            assert(forall|i: int| 0 <= i < 7 ==> #[trigger] line.take(7)[i] == line[i]);
            assert(forall|i: int|
                0 <= i < 7 ==> #[trigger] ((parent_tag() + seq![0x20u8]) + hx)[i] == (parent_tag()
                    + seq![0x20u8])[i]);
        }
        assert(line.skip(7) =~= hx) by {
            assert(forall|i: int|
                0 <= i < line.skip(7).len() ==> #[trigger] line.skip(7)[i] == line[7 + i]);
            assert(forall|i: int|
                0 <= i < hx.len() ==> ((parent_tag() + seq![0x20u8]) + hx)[7 + i] == #[trigger] hx[i]);
        }
        assert(forall|i: int|
            0 <= i < parents.skip(1).len() ==> (#[trigger] parents.skip(1)[i]).len() == 20);
        lemma_parents_decode(s, p, parents.skip(1), tail);
        let r = spec_decode_parents(s, p);
        assert(seq![p0] + parents.skip(1) =~= parents);
        assert(spec_encode_parents(parents).len() == 48 + enc_rest.len());
    }
}

/// Decoding the canonical body of a commit, placed at `pos`, gives back its
/// parts.
#[verifier::rlimit(100)]
pub proof fn lemma_commit_body_decode(
    s: Seq<u8>,
    pos: int,
    tree: Seq<u8>,
    parents: Seq<Seq<u8>>,
    author: CommitUserV,
    committer: CommitUserV,
    message: Seq<u8>,
)
    requires
        0 <= pos <= s.len(),
        s.skip(pos) == spec_encode_commit_body(tree, parents, author, committer, message),
        crate::object::wf_object(
            ObjectV::Commit { tree, parents, author, committer, message },
        ),
    ensures
        spec_decode_commit_body(s, pos) == Some(
            ObjectV::Commit { tree, parents, author, committer, message },
        ),
{
    let enc = s;
    let p2 = pos;
    // the tree line
    let hx = hex_of(tree);
    crate::hashing::lemma_hex_of_len(tree);
    crate::hashing::lemma_hex_of_digits(tree);
    crate::hashing::lemma_hex_round_trip(tree);
    let tcontent = (tree_tag() + seq![0x20u8]) + hx;
    assert(enc.skip(p2) =~= (tcontent + seq![0x0au8]) + (spec_encode_parents(parents) + (
    spec_encode_user_line(author) + spec_encode_user_line(committer) + seq![0x0au8] + message
        + seq![0x0au8])));
    assert(forall|i: int| 0 <= i < 4 ==> tree_tag()[i] != 0x0au8) by {
        assert(tree_tag() =~= seq![0x74u8, 0x72u8, 0x65u8, 0x65u8]);
    }
    assert forall|i: int| 0 <= i < tcontent.len() implies tcontent[i] != 0x0au8 by {
        if i < 5 {
            assert(tcontent[i] == (tree_tag() + seq![0x20u8])[i]);
        } else {
            assert(tcontent[i] == hx[i - 5]);
        }
    }
    let tail1 = spec_encode_parents(parents) + (spec_encode_user_line(author)
        + spec_encode_user_line(committer) + seq![0x0au8] + message + seq![0x0au8]);
    lemma_read_line(enc, p2, tcontent, tail1);
    let q1 = p2 + tcontent.len() + 1;
    assert(tcontent.len() == 45);
    assert(tcontent.take(5) =~= tree_tag() + seq![0x20u8]) by {
        assert(forall|i: int| 0 <= i < 5 ==> #[trigger] tcontent.take(5)[i] == tcontent[i]);
        assert(forall|i: int|
            0 <= i < 5 ==> #[trigger] ((tree_tag() + seq![0x20u8]) + hx)[i] == (tree_tag() + seq![0x20u8])[i]);
    }
    assert(tcontent.skip(5) =~= hx) by {
        assert(forall|i: int|
            0 <= i < tcontent.skip(5).len() ==> #[trigger] tcontent.skip(5)[i] == tcontent[5 + i]);
        assert(forall|i: int|
            0 <= i < hx.len() ==> ((tree_tag() + seq![0x20u8]) + hx)[5 + i] == #[trigger] hx[i]);
    }
    // the parent lines
    let tail2 = spec_encode_user_line(author) + spec_encode_user_line(committer) + seq![0x0au8]
        + message + seq![0x0au8];
    assert(tail1 =~= spec_encode_parents(parents) + tail2);
    lemma_user_line_shape(author);
    assert(tail2.len() >= 7);
    assert(tail2.take(7) =~= author_tag() + seq![0x20u8]) by {
        let al = spec_encode_user_line(author);
        let acontent = author_tag() + seq![0x20u8] + spec_user_rest(author);
        assert(forall|i: int| 0 <= i < 7 ==> #[trigger] tail2.take(7)[i] == tail2[i]);
        assert(forall|i: int| 0 <= i < 7 ==> #[trigger] tail2[i] == al[i]);
        assert(forall|i: int| 0 <= i < 7 ==> #[trigger] al[i] == acontent[i]) by {
            assert(al == acontent + seq![0x0au8]);
            assert(acontent.len() >= 7);
        }
        assert(acontent == (author_tag() + seq![0x20u8]) + spec_user_rest(author));
        assert(forall|i: int| 0 <= i < 7 ==> #[trigger] acontent[i] == (author_tag() + seq![0x20u8])[i]);
    }
    lemma_parents_decode(enc, q1, parents, tail2);
    let qp = q1 + spec_encode_parents(parents).len() as int;
    // the author and committer lines
    let tail3 = spec_encode_user_line(committer) + (seq![0x0au8] + message + seq![0x0au8]);
    assert(enc.skip(qp) =~= spec_encode_user_line(author) + tail3);
    lemma_user_line_decode(enc, qp, author, tail3);
    let qa = qp + spec_encode_user_line(author).len() as int;
    lemma_user_line_decode(enc, qa, committer, seq![0x0au8] + message + seq![0x0au8]);
    let qc = qa + spec_encode_user_line(committer).len() as int;
    // the blank line and the message
    let mtail = seq![0x0au8] + message + seq![0x0au8];
    crate::bytesio::lemma_skip_eq_index(enc, qc, mtail);
    assert(enc[qc] == mtail[0]);
    assert(mtail[0] == 0x0au8) by {
        assert(mtail == (seq![0x0au8] + message) + seq![0x0au8]);
    }
    assert(mtail =~= seq![0x0au8] + (message + seq![0x0au8]));
    crate::bytesio::lemma_skip_concat(enc, qc, seq![0x0au8], message + seq![0x0au8]);
    let msg0 = enc.skip(qc + 1);
    assert(msg0 == message + seq![0x0au8]);
    assert(msg0.len() > 0);
    assert(msg0.last() == 0x0au8);
    assert(msg0.drop_last() =~= message);
}

/// Decoding a canonical commit encoding gives back the commit.
pub proof fn lemma_commit_round_trip(
    tree: Seq<u8>,
    parents: Seq<Seq<u8>>,
    author: CommitUserV,
    committer: CommitUserV,
    message: Seq<u8>,
)
    requires
        crate::object::wf_object(
            ObjectV::Commit { tree, parents, author, committer, message },
        ),
    ensures
        spec_decode_commit(spec_encode_commit(tree, parents, author, committer, message)) == Some(
            ObjectV::Commit { tree, parents, author, committer, message },
        ),
{
    let body = spec_encode_commit_body(tree, parents, author, committer, message);
    let dd = crate::numbers::dec_digits(body.len());
    let dl = dd.len() as int;
    crate::numbers::lemma_dec_digits_value(body.len());
    let enc = spec_encode_commit(tree, parents, author, committer, message);
    assert(enc.len() == 6 + 1 + dl + 1 + body.len());
    assert(enc[0] == 0x63 && enc[1] == 0x6f && enc[2] == 0x6d && enc[3] == 0x6d && enc[4] == 0x69
        && enc[5] == 0x74);
    assert(enc[6] == 0x20);
    assert(forall|i: int| 0 <= i < dl ==> enc[7 + i] == dd[i]);
    assert(forall|i: int| 0 <= i < dl ==> is_digit(#[trigger] dd[i]));
    assert(forall|k: int| 0 <= k < 6 ==> enc[k] != 0x20);
    crate::bytesio::lemma_index_of_from_exact(enc, 0, 0x20, 6);
    assert(enc.subrange(0, 6) =~= commit_tag());
    assert(enc[7 + dl] == 0);
    assert forall|k: int| 7 <= k < 7 + dl implies enc[k] != 0 by {
        assert(enc[k] == dd[k - 7]);
        assert(is_digit(dd[k - 7]));
    }
    crate::bytesio::lemma_index_of_from_exact(enc, 7, 0, 7 + dl);
    assert(enc.subrange(7, 7 + dl) =~= dd);
    let p2 = 7 + dl + 1;
    assert(enc.skip(p2) =~= body);
    lemma_commit_body_decode(enc, p2, tree, parents, author, committer, message);
}

} // verus!
