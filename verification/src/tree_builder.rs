//! Folds flat `(mode, path, hash)` listings into nested tree objects: a path
//! with more than one component is routed into a child builder keyed by its
//! first component, and building writes every subtree bottom-up, taking each
//! subtree's hash from the store write. Entries at every level are kept
//! sorted by path so that the produced tree hashes are reproducible.

use vstd::prelude::*;
use vstd::slice::{slice_subrange, slice_to_vec};

use crate::bytesio::{bytes_le, index_of_from};
use crate::numbers::{as_octal, oct_as_dec};
use crate::object::{Object, TreeEntry, TreeEntryV};
use crate::store::{store_lookup, ObjectStore, PendingWrite};

verus! {

/// The views of a listing of tree entries.
pub open spec fn tree_views(v: Seq<TreeEntry>) -> Seq<TreeEntryV> {
    Seq::new(v.len(), |i: int| v[i]@)
}

/// The mode recorded for a subtree entry: the octal digits of `0o40000`
/// read as a decimal number.
pub const DIR_ENTRY_MODE: u32 = 40000;

/// `oct_as_dec` of a small mode stays small: a mode of at most eight octal
/// digits reads as at most eight decimal digits.
pub proof fn lemma_oct_as_dec_bound(n: nat, k: nat)
    requires
        n < vstd::arithmetic::power::pow(8, k),
    ensures
        oct_as_dec(n) < vstd::arithmetic::power::pow(10, k),
    decreases k,
{
    reveal_with_fuel(vstd::arithmetic::power::pow, 3);
    vstd::arithmetic::power::lemma_pow_positive(8, k);
    vstd::arithmetic::power::lemma_pow_positive(10, k);
    if n < 8 {
        if k == 0 {
            assert(vstd::arithmetic::power::pow(8, 0) == 1);
        } else {
            vstd::arithmetic::power::lemma_pow_increases(10, 1, k);
            assert(vstd::arithmetic::power::pow(10, 1) == 10);
        }
    } else {
        assert(k >= 1) by {
            if k == 0 {
                assert(vstd::arithmetic::power::pow(8, 0) == 1);
            }
        }
        assert(vstd::arithmetic::power::pow(8, k) == 8 * vstd::arithmetic::power::pow(
            8,
            (k - 1) as nat,
        ));
        assert(n / 8 < vstd::arithmetic::power::pow(8, (k - 1) as nat)) by (nonlinear_arith)
            requires
                n < 8 * vstd::arithmetic::power::pow(8, (k - 1) as nat),
                vstd::arithmetic::power::pow(8, (k - 1) as nat) >= 1,
        ;
        lemma_oct_as_dec_bound(n / 8, (k - 1) as nat);
        assert(vstd::arithmetic::power::pow(10, k) == 10 * vstd::arithmetic::power::pow(
            10,
            (k - 1) as nat,
        ));
        assert(oct_as_dec(n) == oct_as_dec(n / 8) * 10 + n % 8);
        assert(oct_as_dec(n / 8) * 10 + 7 < 10 * vstd::arithmetic::power::pow(10, (k - 1) as nat))
            by (nonlinear_arith)
            requires
                oct_as_dec(n / 8) < vstd::arithmetic::power::pow(10, (k - 1) as nat),
        ;
    }
}

/// Inserts a tree entry at its ordered position by path; entries already in
/// order stay in order.
pub fn insert_tree_entry_sorted(v: &mut Vec<TreeEntry>, entry: TreeEntry)
    ensures
        exists|k: int|
            #![auto]
            0 <= k <= old(v)@.len() && tree_views(final(v)@) == tree_views(old(v)@).insert(
                k,
                entry@,
            ),
        final(v)@.len() == old(v)@.len() + 1,
        tree_entries_sorted(tree_views(old(v)@)) ==> tree_entries_sorted(tree_views(final(v)@)),
{
    let ghost oldv = tree_views(v@);
    let n = v.len();
    let mut p: usize = 0;
    loop
        invariant
            0 <= p <= n,
            n == v@.len(),
            oldv == tree_views(v@),
            forall|i: int| 0 <= i < p ==> bytes_le((#[trigger] oldv[i]).path, entry@.path),
            v@ == old(v)@,
        ensures
            0 <= p <= n,
            forall|i: int| 0 <= i < p ==> bytes_le((#[trigger] oldv[i]).path, entry@.path),
            p < n ==> !bytes_le(oldv[p as int].path, entry@.path),
            v@ == old(v)@,
        decreases n - p,
    {
        if p >= n {
            break;
        }
        if !crate::bytesio::bytes_le_exec(v[p].path.as_slice(), entry.path.as_slice()) {
            break;
        }
        p = p + 1;
    }
    let ghost e = entry@;
    v.insert(p, entry);
    proof {
        let newv = tree_views(v@);
        assert(newv =~= oldv.insert(p as int, e));
        assert((p as int) <= old(v)@.len() && tree_views(v@) == tree_views(old(v)@).insert(
            p as int,
            e,
        ));
        if tree_entries_sorted(oldv) {
            if p < n {
                crate::bytesio::lemma_bytes_le_total(oldv[p as int].path, e.path, 0);
            }
            assert forall|i: int, j: int|
                0 <= i < j < newv.len() implies bytes_le(
                (#[trigger] newv[i]).path,
                (#[trigger] newv[j]).path,
            ) by {
                let pi = p as int;
                if i < pi && j < pi {
                    assert(newv[i] == oldv[i] && newv[j] == oldv[j]);
                } else if i < pi && j == pi {
                    assert(newv[i] == oldv[i] && newv[j] == e);
                } else if i < pi && j > pi {
                    assert(newv[i] == oldv[i] && newv[j] == oldv[j - 1]);
                } else if i == pi {
                    assert(newv[i] == e && newv[j] == oldv[j - 1]);
                    assert(bytes_le(e.path, oldv[pi].path));
                    if j - 1 > pi {
                        assert(bytes_le(oldv[pi].path, oldv[j - 1].path));
                        crate::bytesio::lemma_bytes_le_trans(
                            e.path,
                            oldv[pi].path,
                            oldv[j - 1].path,
                            0,
                        );
                    }
                } else {
                    assert(newv[i] == oldv[i - 1] && newv[j] == oldv[j - 1]);
                }
            }
        }
    }
}

/// Tree entries ordered by path, byte-lexicographically.
pub open spec fn tree_entries_sorted(es: Seq<TreeEntryV>) -> bool {
    forall|i: int, j: int|
        0 <= i < j < es.len() ==> bytes_le(#[trigger] es[i].path, #[trigger] es[j].path)
}

/// Bytes that encode a tree object whose entries stand in path order.
pub open spec fn is_sorted_tree_encoding(b: Seq<u8>) -> bool {
    exists|es: Seq<TreeEntryV>|
        #![trigger tree_entries_sorted(es)]
        tree_entries_sorted(es) && b == crate::object::spec_encode_object(
            crate::object::ObjectV::Tree { entries: es },
        )
}

/// A store that kept every earlier object: whatever was stored under a hash
/// is still stored under it.
pub open spec fn store_extends(new: Seq<(Seq<u8>, Seq<u8>)>, old: Seq<(Seq<u8>, Seq<u8>)>) -> bool {
    forall|h: Seq<u8>|
        store_lookup(old, h) is Some ==> #[trigger] store_lookup(new, h) == store_lookup(old, h)
}

/// The keys of the child builders.
pub open spec fn subtree_keys(v: Seq<(Vec<u8>, TreeBuilder)>) -> Seq<Seq<u8>> {
    Seq::new(v.len(), |i: int| v[i].0@)
}

/// What routing one file into a builder does, level by level: a path
/// without a separator inserts its leaf entry at this level and touches
/// nothing else; a path with one routes its remainder into the child named
/// by the first component, freshly created when absent, every other entry
/// and child untouched.
pub open spec fn spec_routed(
    b0: TreeBuilder,
    b1: TreeBuilder,
    mode: u32,
    rest: Seq<u8>,
    hash: Seq<u8>,
) -> bool
    decreases rest.len(),
{
    match index_of_from(rest, 0, 0x2fu8) {
        None => {
            &&& b1.subtrees == b0.subtrees
            &&& exists|k: int|
                #![trigger tree_views(b0.entries@).insert(k, TreeEntryV { mode: oct_as_dec(mode as nat) as u32, path: rest, hash: hash })]
                0 <= k <= b0.entries@.len() && tree_views(b1.entries@) == tree_views(
                    b0.entries@,
                ).insert(
                    k,
                    TreeEntryV { mode: oct_as_dec(mode as nat) as u32, path: rest, hash: hash },
                )
            &&& tree_entries_sorted(tree_views(b0.entries@)) ==> tree_entries_sorted(
                tree_views(b1.entries@),
            )
        },
        Some(ix) => {
            if 0 <= ix < rest.len() {
                let root = rest.take(ix);
                &&& b1.entries == b0.entries
                &&& exists|p: int|
                    #![auto]
                    0 <= p < b1.subtrees@.len() && b1.subtrees@[p].0@ == root && ((0 <= p
                        < b0.subtrees@.len() && b0.subtrees@[p].0@ == root && b1.subtrees@
                        == b0.subtrees@.update(p, b1.subtrees@[p]) && spec_routed(
                        b0.subtrees@[p].1,
                        b1.subtrees@[p].1,
                        mode,
                        rest.skip(ix + 1),
                        hash,
                    )) || (b1.subtrees@ == b0.subtrees@.insert(p, b1.subtrees@[p]) && (
                    exists|c: TreeBuilder|
                        #![auto]
                        c.entries@.len() == 0 && c.subtrees@.len() == 0 && spec_routed(
                            c,
                            b1.subtrees@[p].1,
                            mode,
                            rest.skip(ix + 1),
                            hash,
                        ))))
            } else {
                false
            }
        },
    }
}

/// Whether a level's entries hold this exact entry.
pub open spec fn level_has_entry(es: Seq<TreeEntryV>, e: TreeEntryV) -> bool {
    exists|j: int| 0 <= j < es.len() && #[trigger] es[j] == e
}

/// Whether a level's entries hold a directory entry of this key whose hash
/// is stored.
pub open spec fn level_has_dir(
    es: Seq<TreeEntryV>,
    key: Seq<u8>,
    stv: Seq<(Seq<u8>, Seq<u8>)>,
) -> bool {
    exists|j: int|
        0 <= j < es.len() && (#[trigger] es[j]).path == key && es[j].mode == DIR_ENTRY_MODE
            && store_lookup(stv, es[j].hash) is Some
}

/// Whether a level's entries hold a directory entry of this key whose hash
/// names the child builder's own tree.
pub open spec fn subtree_hashed(es: Seq<TreeEntryV>, key: Seq<u8>, child: TreeBuilder) -> bool
    decreases child, 1nat,
{
    exists|j: int|
        0 <= j < es.len() && (#[trigger] es[j]).path == key && es[j].mode == DIR_ENTRY_MODE
            && builder_hashed(child, es[j].hash)
}

/// Whether a hash is the digest of this builder's tree, level by level: of
/// a sorted tree holding exactly the builder's leaf entries and, for each
/// child, a directory entry whose hash is in turn the digest of that
/// child's tree.
pub open spec fn builder_hashed(b: TreeBuilder, h: Seq<u8>) -> bool
    decreases b, 0nat,
    via builder_hashed_dec
{
    exists|es: Seq<TreeEntryV>|
        #![trigger tree_entries_sorted(es)]
        {
            &&& tree_entries_sorted(es)
            &&& es.len() == b.entries@.len() + b.subtrees@.len()
            &&& h == crate::hashing::sha1_of(
                crate::object::spec_encode_object(crate::object::ObjectV::Tree { entries: es }),
            )
            &&& forall|i: int|
                0 <= i < b.entries@.len() ==> level_has_entry(es, (#[trigger] b.entries@[i])@)
            &&& forall|k: int|
                0 <= k < b.subtrees@.len() ==> subtree_hashed(
                    es,
                    (#[trigger] b.subtrees@[k]).0@,
                    b.subtrees@[k].1,
                )
        }
}

#[via_fn]
proof fn builder_hashed_dec(b: TreeBuilder, h: Seq<u8>) {
    assert forall|k: int| 0 <= k < b.subtrees@.len() implies decreases_to!(
        b => b.subtrees@[k].1
    ) by {
        assert(decreases_to!(b => b.subtrees));
        assert(decreases_to!(b.subtrees => b.subtrees@));
        assert(decreases_to!(b.subtrees@ => b.subtrees@[k]));
        assert(decreases_to!(b.subtrees@[k] => b.subtrees@[k].1));
    }
}

/// An element survives an insertion elsewhere.
proof fn lemma_tree_insert_keeps(s: Seq<TreeEntryV>, k: int, e: TreeEntryV, j: int)
    requires
        0 <= k <= s.len(),
        0 <= j < s.len(),
    ensures
        exists|j2: int| 0 <= j2 < s.insert(k, e).len() && #[trigger] s.insert(k, e)[j2] == s[j],
{
    if j < k {
        assert(s.insert(k, e)[j] == s[j]);
    } else {
        assert(s.insert(k, e)[j + 1] == s[j]);
    }
}

/// Builds a hierarchy of tree objects from flat path listings. Leaf entries
/// of the current level and child builders are each kept ordered by path.
#[derive(Debug)]
pub struct TreeBuilder {
    pub entries: Vec<TreeEntry>,
    pub subtrees: Vec<(Vec<u8>, TreeBuilder)>,
}

impl TreeBuilder {
    /// An empty builder.
    pub fn new() -> (r: TreeBuilder)
        ensures
            r.entries@.len() == 0,
            r.subtrees@.len() == 0,
    {
        TreeBuilder { entries: Vec::new(), subtrees: Vec::new() }
    }

    /// Routes one file into the hierarchy: a single-component path becomes a
    /// leaf entry of this level, with the mode rewritten to the decimal
    /// reading of its octal digits; a longer path goes into (creating if
    /// absent) the child builder named by its first component, stripped of
    /// that component. A directory itself is ignored.
    pub fn add_object(&mut self, mode: u32, path: &[u8], hash: crate::hashing::Hash, is_dir: bool)
        requires
            oct_as_dec(mode as nat) <= u32::MAX,
        ensures
            is_dir ==> *final(self) == *old(self),
            !is_dir && index_of_from(path@, 0, 0x2fu8) is None ==> {
                &&& final(self).subtrees == old(self).subtrees
                &&& exists|k: int|
                    #![trigger tree_views(old(self).entries@).insert(k, TreeEntryV { mode: oct_as_dec(mode as nat) as u32, path: path@, hash: hash@ })]
                    0 <= k <= old(self).entries@.len() && tree_views(final(self).entries@)
                        == tree_views(old(self).entries@).insert(
                        k,
                        TreeEntryV { mode: oct_as_dec(mode as nat) as u32, path: path@, hash: hash@ },
                    )
                &&& tree_entries_sorted(tree_views(old(self).entries@)) ==> tree_entries_sorted(
                    tree_views(final(self).entries@),
                )
            },
            !is_dir && index_of_from(path@, 0, 0x2fu8) is Some ==> {
                let root = path@.take(index_of_from(path@, 0, 0x2fu8).unwrap());
                &&& final(self).entries == old(self).entries
                &&& (subtree_keys(final(self).subtrees@) == subtree_keys(old(self).subtrees@)
                    || exists|p: int|
                    #![trigger subtree_keys(old(self).subtrees@).insert(p, root)]
                    0 <= p <= old(self).subtrees@.len() && subtree_keys(final(self).subtrees@)
                        == subtree_keys(old(self).subtrees@).insert(p, root))
            },
            !is_dir ==> spec_routed(*old(self), *final(self), mode, path@, hash@),
        decreases path@.len(),
    {
        if is_dir {
            return;
        }
        let n = path.len();
        let mut slash: usize = 0;
        let mut found = false;
        loop
            invariant_except_break
                !found,
            invariant
                0 <= slash <= n,
                n == path@.len(),
                forall|j: int| 0 <= j < slash ==> path@[j] != 0x2fu8,
            ensures
                0 <= slash <= n,
                found ==> slash < n && path@[slash as int] == 0x2fu8,
                !found ==> slash == n,
                forall|j: int| 0 <= j < slash ==> path@[j] != 0x2fu8,
            decreases n - slash,
        {
            if slash >= n {
                break;
            }
            if path[slash] == 0x2f {
                found = true;
                break;
            }
            slash = slash + 1;
        }
        if !found {
            proof {
                crate::bytesio::lemma_index_of_from_none(path@, 0, 0x2fu8);
            }
            let entry = TreeEntry { mode: as_octal(mode), path: slice_to_vec(path), hash };
            let ghost ev = entry@;
            insert_tree_entry_sorted(&mut self.entries, entry);
            proof {
                let leaf = TreeEntryV {
                    mode: oct_as_dec(mode as nat) as u32,
                    path: path@,
                    hash: ev.hash,
                };
                assert(ev == leaf);
                let k = choose|k: int|
                    #![auto]
                    0 <= k <= old(self).entries@.len() && tree_views(self.entries@) == tree_views(
                        old(self).entries@,
                    ).insert(k, ev);
                assert(tree_views(self.entries@) == tree_views(old(self).entries@).insert(
                    k,
                    leaf,
                ));
                assert(spec_routed(*old(self), *self, mode, path@, ev.hash));
            }
        } else {
            let root = slice_to_vec(slice_subrange(path, 0, slash));
            let rest = slice_subrange(path, slash + 1, n);
            // find or create the child builder named by the first component
            let m = self.subtrees.len();
            let mut p: usize = 0;
            let mut matched = false;
            loop
                invariant_except_break
                    !matched,
                invariant
                    0 <= p <= m,
                    m == self.subtrees@.len(),
                    self == old(self),
                ensures
                    0 <= p <= m,
                    matched ==> p < m && self.subtrees@[p as int].0@ == root@,
                    self == old(self),
                decreases m - p,
            {
                if p >= m {
                    break;
                }
                if crate::hashing::bytes_eq(self.subtrees[p].0.as_slice(), root.as_slice()) {
                    matched = true;
                    break;
                }
                if !crate::bytesio::bytes_le_exec(self.subtrees[p].0.as_slice(), root.as_slice()) {
                    break;
                }
                p = p + 1;
            }
            proof {
                crate::bytesio::lemma_index_of_from_exact(path@, 0, 0x2fu8, slash as int);
                assert(root@ == path@.take(slash as int));
            }
            let ghost oldkeys = subtree_keys(self.subtrees@);
            if matched {
                let (key, mut sub) = self.subtrees.remove(p);
                let ghost kv = key@;
                let ghost presub = sub;
                proof {
                    assert(kv == oldkeys[p as int]);
                    assert(old(self).subtrees@[p as int] == (key, presub));
                }
                sub.add_object(mode, rest, hash, false);
                let ghost sub1 = sub;
                self.subtrees.insert(p, (key, sub));
                proof {
                    assert(subtree_keys(self.subtrees@) =~= oldkeys);
                    assert(oldkeys == subtree_keys(old(self).subtrees@));
                    assert(subtree_keys(self.subtrees@) == subtree_keys(old(self).subtrees@));
                    assert(self.subtrees@[p as int].0@ == kv && self.subtrees@[p as int].1
                        == sub1);
                    assert(self.subtrees@ =~= old(self).subtrees@.update(
                        p as int,
                        self.subtrees@[p as int],
                    ));
                    assert(rest@ =~= path@.skip(slash + 1));
                    assert(spec_routed(presub, sub1, mode, path@.skip(slash + 1), hash@));
                    assert(spec_routed(*old(self), *self, mode, path@, hash@));
                }
            } else {
                let mut sub = TreeBuilder::new();
                let ghost fresh = sub;
                sub.add_object(mode, rest, hash, false);
                let ghost sub1 = sub;
                self.subtrees.insert(p, (root, sub));
                proof {
                    assert(oldkeys == subtree_keys(old(self).subtrees@));
                    assert(index_of_from(path@, 0, 0x2fu8).unwrap() == slash as int);
                    assert(subtree_keys(self.subtrees@) =~= subtree_keys(
                        old(self).subtrees@,
                    ).insert(p as int, path@.take(index_of_from(path@, 0, 0x2fu8).unwrap())));
                    assert(self.subtrees@[p as int].0@ == path@.take(slash as int)
                        && self.subtrees@[p as int].1 == sub1);
                    assert(self.subtrees@ =~= old(self).subtrees@.insert(
                        p as int,
                        self.subtrees@[p as int],
                    ));
                    assert(rest@ =~= path@.skip(slash + 1));
                    assert(fresh.entries@.len() == 0 && fresh.subtrees@.len() == 0);
                    assert(spec_routed(fresh, sub1, mode, path@.skip(slash + 1), hash@));
                    assert(spec_routed(*old(self), *self, mode, path@, hash@));
                }
            }
        }
    }

    /// Builds this level and every subtree bottom-up: each subtree is built
    /// and written first, its store hash recorded as a directory entry of
    /// this level; then this level's own tree object is written. Returns the
    /// root tree's hash; every object file still to be created is appended
    /// to `pending`.
    pub fn build_and_write(&self, store: &mut ObjectStore, pending: &mut Vec<PendingWrite>) -> (r:
        crate::hashing::Hash)
        ensures
            store_extends(final(store)@, old(store)@),
            r@.len() == 20,
            store_lookup(final(store)@, r@) is Some,
            forall|h: Seq<u8>|
                store_lookup(old(store)@, h) is None && (#[trigger] store_lookup(
                    final(store)@,
                    h,
                )) is Some ==> is_sorted_tree_encoding(store_lookup(final(store)@, h).unwrap()),
            exists|es: Seq<TreeEntryV>|
                #![trigger tree_entries_sorted(es)]
                {
                    &&& tree_entries_sorted(es)
                    &&& es.len() == self.entries@.len() + self.subtrees@.len()
                    &&& r@ == crate::hashing::sha1_of(
                        crate::object::spec_encode_object(
                            crate::object::ObjectV::Tree { entries: es },
                        ),
                    )
                    &&& (store_lookup(final(store)@, r@) == Some(
                        crate::object::spec_encode_object(
                            crate::object::ObjectV::Tree { entries: es },
                        ),
                    ) || store_lookup(old(store)@, r@) is Some || is_sorted_tree_encoding(
                        store_lookup(final(store)@, r@).unwrap(),
                    ))
                    &&& forall|i: int|
                        0 <= i < self.entries@.len() ==> level_has_entry(
                            es,
                            (#[trigger] self.entries@[i])@,
                        )
                    &&& forall|k: int|
                        0 <= k < self.subtrees@.len() ==> level_has_dir(
                            es,
                            (#[trigger] self.subtrees@[k]).0@,
                            final(store)@,
                        )
                    &&& forall|k: int|
                        0 <= k < self.subtrees@.len() ==> subtree_hashed(
                            es,
                            (#[trigger] self.subtrees@[k]).0@,
                            self.subtrees@[k].1,
                        )
                },
            builder_hashed(*self, r@),
        decreases *self,
    {
        let mut level: Vec<TreeEntry> = Vec::new();
        let mut i: usize = 0;
        while i < self.entries.len()
            invariant
                0 <= i <= self.entries@.len(),
                tree_entries_sorted(tree_views(level@)),
                level@.len() == i,
                forall|i2: int|
                    0 <= i2 < i ==> level_has_entry(
                        tree_views(level@),
                        (#[trigger] self.entries@[i2])@,
                    ),
            decreases self.entries@.len() - i,
        {
            let ghost oldlv = tree_views(level@);
            insert_tree_entry_sorted(&mut level, self.entries[i].clone());
            proof {
                let k = choose|k: int|
                    #![auto]
                    0 <= k <= oldlv.len() && tree_views(level@) == oldlv.insert(
                        k,
                        self.entries@[i as int]@,
                    );
                assert(tree_views(level@)[k] == self.entries@[i as int]@);
                assert forall|i2: int|
                    0 <= i2 < i + 1 implies level_has_entry(
                    tree_views(level@),
                    (#[trigger] self.entries@[i2])@,
                ) by {
                    if i2 < i {
                        let j2 = choose|j2: int|
                            0 <= j2 < oldlv.len() && #[trigger] oldlv[j2] == self.entries@[i2]@;
                        lemma_tree_insert_keeps(oldlv, k, self.entries@[i as int]@, j2);
                        let j3 = choose|j3: int|
                            0 <= j3 < oldlv.insert(k, self.entries@[i as int]@).len()
                                && #[trigger] oldlv.insert(k, self.entries@[i as int]@)[j3]
                                == oldlv[j2];
                        assert(tree_views(level@)[j3] == self.entries@[i2]@);
                    } else {
                        assert(tree_views(level@)[k] == self.entries@[i2]@);
                    }
                }
            }
            i = i + 1;
        }
        let mut j: usize = 0;
        while j < self.subtrees.len()
            invariant
                0 <= j <= self.subtrees@.len(),
                store_extends(store@, old(store)@),
                tree_entries_sorted(tree_views(level@)),
                level@.len() == self.entries@.len() + j,
                forall|i2: int|
                    0 <= i2 < self.entries@.len() ==> level_has_entry(
                        tree_views(level@),
                        (#[trigger] self.entries@[i2])@,
                    ),
                forall|k2: int|
                    0 <= k2 < j ==> level_has_dir(
                        tree_views(level@),
                        (#[trigger] self.subtrees@[k2]).0@,
                        store@,
                    ),
                forall|k2: int|
                    0 <= k2 < j ==> subtree_hashed(
                        tree_views(level@),
                        (#[trigger] self.subtrees@[k2]).0@,
                        self.subtrees@[k2].1,
                    ),
                forall|h: Seq<u8>|
                    store_lookup(old(store)@, h) is None && (#[trigger] store_lookup(
                        store@,
                        h,
                    )) is Some ==> is_sorted_tree_encoding(store_lookup(store@, h).unwrap()),
            decreases self.subtrees@.len() - j,
        {
            let ghost mid = store@;
            let sub = &self.subtrees[j].1;
            proof {
                assert(decreases_to!(*self => self.subtrees));
                assert(decreases_to!(self.subtrees => self.subtrees@));
                assert(decreases_to!(self.subtrees@ => self.subtrees@[j as int]));
                assert(decreases_to!(self.subtrees@[j as int] => self.subtrees@[j as int].1));
            }
            let ghost prelv = tree_views(level@);
            let sub_hash = sub.build_and_write(store, pending);
            let key = slice_to_vec(self.subtrees[j].0.as_slice());
            let entry = TreeEntry { mode: DIR_ENTRY_MODE, path: key, hash: sub_hash };
            let ghost ev = entry@;
            insert_tree_entry_sorted(&mut level, entry);
            proof {
                lemma_store_extends_trans(store@, mid, old(store)@);
                assert forall|h: Seq<u8>|
                    store_lookup(old(store)@, h) is None && (#[trigger] store_lookup(
                        store@,
                        h,
                    )) is Some implies is_sorted_tree_encoding(
                    store_lookup(store@, h).unwrap(),
                ) by {
                    if store_lookup(mid, h) is Some {
                        assert(store_lookup(store@, h) == store_lookup(mid, h));
                    }
                }
                let kk = choose|kk: int|
                    #![auto]
                    0 <= kk <= prelv.len() && tree_views(level@) == prelv.insert(kk, ev);
                assert(tree_views(level@)[kk] == ev);
                assert forall|i2: int|
                    0 <= i2 < self.entries@.len() implies level_has_entry(
                    tree_views(level@),
                    (#[trigger] self.entries@[i2])@,
                ) by {
                    let j2 = choose|j2: int|
                        0 <= j2 < prelv.len() && #[trigger] prelv[j2] == self.entries@[i2]@;
                    lemma_tree_insert_keeps(prelv, kk, ev, j2);
                    let j3 = choose|j3: int|
                        0 <= j3 < prelv.insert(kk, ev).len() && #[trigger] prelv.insert(
                            kk,
                            ev,
                        )[j3] == prelv[j2];
                    assert(tree_views(level@)[j3] == self.entries@[i2]@);
                }
                assert forall|k2: int|
                    0 <= k2 < j + 1 implies level_has_dir(
                    tree_views(level@),
                    (#[trigger] self.subtrees@[k2]).0@,
                    store@,
                ) by {
                    if k2 < j {
                        let j2 = choose|j2: int|
                            0 <= j2 < prelv.len() && (#[trigger] prelv[j2]).path
                                == self.subtrees@[k2].0@ && prelv[j2].mode == DIR_ENTRY_MODE
                                && store_lookup(mid, prelv[j2].hash) is Some;
                        lemma_tree_insert_keeps(prelv, kk, ev, j2);
                        let j3 = choose|j3: int|
                            0 <= j3 < prelv.insert(kk, ev).len() && #[trigger] prelv.insert(
                                kk,
                                ev,
                            )[j3] == prelv[j2];
                        assert(store_lookup(store@, prelv[j2].hash) == store_lookup(
                            mid,
                            prelv[j2].hash,
                        ));
                        assert(tree_views(level@)[j3].path == self.subtrees@[k2].0@);
                    } else {
                        assert(tree_views(level@)[kk].path == self.subtrees@[k2].0@);
                        assert(store_lookup(store@, ev.hash) is Some);
                    }
                }
                assert forall|k2: int|
                    0 <= k2 < j + 1 implies subtree_hashed(
                    tree_views(level@),
                    (#[trigger] self.subtrees@[k2]).0@,
                    self.subtrees@[k2].1,
                ) by {
                    if k2 < j {
                        let j2 = choose|j2: int|
                            0 <= j2 < prelv.len() && (#[trigger] prelv[j2]).path
                                == self.subtrees@[k2].0@ && prelv[j2].mode == DIR_ENTRY_MODE
                                && builder_hashed(self.subtrees@[k2].1, prelv[j2].hash);
                        lemma_tree_insert_keeps(prelv, kk, ev, j2);
                        let j3 = choose|j3: int|
                            0 <= j3 < prelv.insert(kk, ev).len() && #[trigger] prelv.insert(
                                kk,
                                ev,
                            )[j3] == prelv[j2];
                        assert(tree_views(level@)[j3] == prelv[j2]);
                    } else {
                        assert(tree_views(level@)[kk] == ev);
                        assert(builder_hashed(self.subtrees@[k2].1, ev.hash));
                    }
                }
            }
            j = j + 1;
        }
        let ghost finallv = tree_views(level@);
        let ghost midstore = store@;
        let tree = Object::Tree { entries: level };
        let ghost es = match tree@ {
            crate::object::ObjectV::Tree { entries } => entries,
            _ => Seq::<TreeEntryV>::empty(),
        };
        proof {
            assert(es =~= finallv);
            assert(tree_entries_sorted(es));
        }
        let ghost before = store@;
        let (hash, pw) = store.write(&tree);
        match pw {
            Some(p) => {
                pending.push(p);
            },
            None => {},
        }
        proof {
            crate::store::lemma_store_write_idempotent(
                before,
                crate::hashing::sha1_of(crate::object::spec_encode_object(tree@)),
                crate::object::spec_encode_object(tree@),
            );
            assert forall|h: Seq<u8>|
                store_lookup(old(store)@, h) is Some implies #[trigger] store_lookup(store@, h)
                == store_lookup(old(store)@, h) by {
                crate::store::lemma_store_write_preserves(
                    before,
                    crate::hashing::sha1_of(crate::object::spec_encode_object(tree@)),
                    crate::object::spec_encode_object(tree@),
                    h,
                );
            }
            let enc = crate::object::spec_encode_object(tree@);
            assert(is_sorted_tree_encoding(enc)) by {
                assert(tree@ == (crate::object::ObjectV::Tree { entries: es }));
            }
            assert forall|h: Seq<u8>|
                store_lookup(old(store)@, h) is None && (#[trigger] store_lookup(
                    store@,
                    h,
                )) is Some implies is_sorted_tree_encoding(store_lookup(store@, h).unwrap()) by {
                crate::store::lemma_store_lookup_push(before, h, (hash@, enc));
                if store_lookup(before, h) is Some {
                    assert(store_lookup(store@, h) == store_lookup(before, h));
                } else {
                    assert(store_lookup(store@, h) == Some(enc));
                }
            }
            // the witness level of the exists clause
            assert(es.len() == self.entries@.len() + self.subtrees@.len());
            assert(hash@ == crate::hashing::sha1_of(enc));
            if store_lookup(before, hash@) is None {
                crate::store::lemma_store_lookup_push(before, hash@, (hash@, enc));
                assert(store_lookup(store@, hash@) == Some(enc));
            } else {
                assert(store_lookup(store@, hash@) == store_lookup(before, hash@));
                if store_lookup(old(store)@, hash@) is None {
                    assert(is_sorted_tree_encoding(store_lookup(store@, hash@).unwrap()));
                }
            }
            assert forall|i2: int|
                0 <= i2 < self.entries@.len() implies level_has_entry(
                es,
                (#[trigger] self.entries@[i2])@,
            ) by {
                let j2 = choose|j2: int|
                    0 <= j2 < finallv.len() && #[trigger] finallv[j2] == self.entries@[i2]@;
                assert(es[j2] == self.entries@[i2]@);
            }
            assert forall|k2: int|
                0 <= k2 < self.subtrees@.len() implies level_has_dir(
                es,
                (#[trigger] self.subtrees@[k2]).0@,
                store@,
            ) by {
                let j2 = choose|j2: int|
                    0 <= j2 < finallv.len() && (#[trigger] finallv[j2]).path
                        == self.subtrees@[k2].0@ && finallv[j2].mode == DIR_ENTRY_MODE
                        && store_lookup(midstore, finallv[j2].hash) is Some;
                crate::store::lemma_store_write_preserves(before, hash@, enc, finallv[j2].hash);
                assert(es[j2].path == self.subtrees@[k2].0@);
            }
            assert forall|k2: int|
                0 <= k2 < self.subtrees@.len() implies subtree_hashed(
                es,
                (#[trigger] self.subtrees@[k2]).0@,
                self.subtrees@[k2].1,
            ) by {
                let j2 = choose|j2: int|
                    0 <= j2 < finallv.len() && (#[trigger] finallv[j2]).path
                        == self.subtrees@[k2].0@ && finallv[j2].mode == DIR_ENTRY_MODE
                        && builder_hashed(self.subtrees@[k2].1, finallv[j2].hash);
                assert(es[j2] == finallv[j2]);
            }
            assert(builder_hashed(*self, hash@));
        }
        hash
    }
}

/// Growing a store twice grows it.
pub proof fn lemma_store_extends_trans(
    c: Seq<(Seq<u8>, Seq<u8>)>,
    b: Seq<(Seq<u8>, Seq<u8>)>,
    a: Seq<(Seq<u8>, Seq<u8>)>,
)
    requires
        store_extends(c, b),
        store_extends(b, a),
    ensures
        store_extends(c, a),
{
}

} // verus!
