//! The certified content hash tree: an ordered, deterministic mapping from
//! byte-string paths to 32-byte content hashes. The aggregate root hash is a
//! pure function of the current entry set, and for any path a compact
//! witness can be extracted from which a verifier recomputes that same root
//! hash while learning nothing about unrelated values beyond their position.

use vstd::prelude::*;

use crate::bytes::{bytes_eq, bytes_lt, lex_lt, lex_le, lemma_lex_trichotomy, lemma_lex_transitive};
use crate::hashes::{
    empty_hash, empty_hash_exec, fork_hash, fork_hash_exec, labeled_hash, labeled_hash_exec,
    leaf_hash, leaf_hash_exec,
};

verus! {

/// One committed entry: a path bound to the SHA-256 hash of the bytes
/// currently served at that path.
pub struct Entry {
    pub path: Vec<u8>,
    pub hash: Vec<u8>,
}

/// The mathematical content of an entry sequence: path/hash pairs as plain
/// byte sequences.
pub open spec fn pairs_of(entries: Seq<Entry>) -> Seq<(Seq<u8>, Seq<u8>)> {
    entries.map(|i: int, e: Entry| (e.path@, e.hash@))
}

/// Paths strictly increase, so every path occurs at most once.
pub open spec fn strictly_sorted(m: Seq<(Seq<u8>, Seq<u8>)>) -> bool {
    forall|i: int, j: int| 0 <= i < j < m.len() ==> lex_lt(#[trigger] m[i].0, #[trigger] m[j].0)
}

/// The entry sequence as a map from path to bound hash; on duplicate paths
/// the earliest pair wins (a well-formed tree has no duplicates).
pub open spec fn as_map(m: Seq<(Seq<u8>, Seq<u8>)>) -> Map<Seq<u8>, Seq<u8>>
    decreases m.len(),
{
    if m.len() == 0 {
        Map::empty()
    } else {
        as_map(m.skip(1)).insert(m[0].0, m[0].1)
    }
}

/// The aggregate hash of an entry range: the empty sentinel for no entries,
/// a labeled leaf for one entry, and a fork of the two halves otherwise.
/// It is a function of the (sorted) pair sequence alone.
pub open spec fn subtree_hash(m: Seq<(Seq<u8>, Seq<u8>)>) -> Seq<u8>
    decreases m.len(),
{
    if m.len() == 0 {
        empty_hash()
    } else if m.len() == 1 {
        labeled_hash(m[0].0, leaf_hash(m[0].1))
    } else {
        let h = m.len() as int / 2;
        fork_hash(subtree_hash(m.take(h)), subtree_hash(m.skip(h)))
    }
}

/// A witness subtree: enough structure to recompute the root hash for one
/// path, with every unrelated subtree replaced by its bare hash.
pub enum WitnessNode {
    Empty,
    Fork(Box<WitnessNode>, Box<WitnessNode>),
    Labeled(Vec<u8>, Box<WitnessNode>),
    Leaf(Vec<u8>),
    Pruned(Vec<u8>),
}

/// The mathematical shape of a witness, over plain byte sequences.
pub enum WitnessShape {
    Empty,
    Fork(Box<WitnessShape>, Box<WitnessShape>),
    Labeled(Seq<u8>, Box<WitnessShape>),
    Leaf(Seq<u8>),
    Pruned(Seq<u8>),
}

pub open spec fn shape_of(t: WitnessNode) -> WitnessShape
    decreases t,
{
    match t {
        WitnessNode::Empty => WitnessShape::Empty,
        WitnessNode::Fork(l, r) => WitnessShape::Fork(
            Box::new(shape_of(*l)),
            Box::new(shape_of(*r)),
        ),
        WitnessNode::Labeled(lab, s) => WitnessShape::Labeled(lab@, Box::new(shape_of(*s))),
        WitnessNode::Leaf(d) => WitnessShape::Leaf(d@),
        WitnessNode::Pruned(h) => WitnessShape::Pruned(h@),
    }
}

/// The root hash a verifier recomputes from a witness.
pub open spec fn reconstruct(s: WitnessShape) -> Seq<u8>
    decreases s,
{
    match s {
        WitnessShape::Empty => empty_hash(),
        WitnessShape::Fork(l, r) => fork_hash(reconstruct(*l), reconstruct(*r)),
        WitnessShape::Labeled(lab, t) => labeled_hash(lab, reconstruct(*t)),
        WitnessShape::Leaf(d) => leaf_hash(d),
        WitnessShape::Pruned(h) => h,
    }
}

/// The value a witness reveals for a path, if any.
pub open spec fn lookup_in(s: WitnessShape, k: Seq<u8>) -> Option<Seq<u8>>
    decreases s,
{
    match s {
        WitnessShape::Fork(l, r) => if lookup_in(*l, k) is Some {
            lookup_in(*l, k)
        } else {
            lookup_in(*r, k)
        },
        WitnessShape::Labeled(lab, t) => if lab == k {
            match *t {
                WitnessShape::Leaf(v) => Some(v),
                _ => None,
            }
        } else {
            None
        },
        _ => None,
    }
}

/// The rank of a path in a sorted pair sequence: how many paths lie
/// strictly below it.
pub open spec fn rank_of(m: Seq<(Seq<u8>, Seq<u8>)>, k: Seq<u8>) -> int
    decreases m.len(),
{
    if m.len() == 0 {
        0
    } else if lex_lt(m[0].0, k) {
        1 + rank_of(m.skip(1), k)
    } else {
        0
    }
}

/// The canonical witness shape for one path over a sorted pair segment:
/// a pure function of the segment, the path and the path's rank `pos`
/// relative to the segment's start. A segment that cannot contain the
/// path or either of its rank's neighbours collapses to its bare hash.
pub open spec fn witness_shape(seg: Seq<(Seq<u8>, Seq<u8>)>, k: Seq<u8>, pos: int) -> WitnessShape
    decreases seg.len(),
{
    if seg.len() == 0 {
        WitnessShape::Empty
    } else if pos < 0 || pos > seg.len() {
        WitnessShape::Pruned(subtree_hash(seg))
    } else if seg.len() == 1 {
        if seg[0].0 == k {
            WitnessShape::Labeled(seg[0].0, Box::new(WitnessShape::Leaf(seg[0].1)))
        } else {
            WitnessShape::Labeled(seg[0].0, Box::new(WitnessShape::Pruned(leaf_hash(seg[0].1))))
        }
    } else {
        let h = seg.len() as int / 2;
        WitnessShape::Fork(
            Box::new(witness_shape(seg.take(h), k, pos)),
            Box::new(witness_shape(seg.skip(h), k, pos - h)),
        )
    }
}

/// In a sorted pair sequence the rank of a path is the one cut with
/// everything below it on the left and nothing below it on the right.
proof fn lemma_rank_unique(m: Seq<(Seq<u8>, Seq<u8>)>, k: Seq<u8>, pos: int)
    requires
        strictly_sorted(m),
        0 <= pos <= m.len(),
        forall|j: int| 0 <= j < pos ==> lex_lt(#[trigger] m[j].0, k),
        forall|j: int| pos <= j < m.len() ==> lex_le(k, #[trigger] m[j].0),
    ensures
        pos == rank_of(m, k),
    decreases m.len(),
{
    if m.len() == 0 {
    } else if pos == 0 {
        lemma_lex_trichotomy(m[0].0, k);
    } else {
        assert(lex_lt(m[0].0, k));
        assert forall|a: int, b: int| 0 <= a < b < m.skip(1).len()
            implies lex_lt(#[trigger] m.skip(1)[a].0, #[trigger] m.skip(1)[b].0) by {
            assert(m.skip(1)[a] == m[a + 1] && m.skip(1)[b] == m[b + 1]);
        }
        assert forall|j: int| 0 <= j < pos - 1
            implies lex_lt(#[trigger] m.skip(1)[j].0, k) by {
            assert(m.skip(1)[j] == m[j + 1]);
        }
        assert forall|j: int| pos - 1 <= j < m.skip(1).len()
            implies lex_le(k, #[trigger] m.skip(1)[j].0) by {
            assert(m.skip(1)[j] == m[j + 1]);
        }
        lemma_rank_unique(m.skip(1), k, pos - 1);
    }
}

/// The set of paths whose labels a witness reveals.
pub open spec fn labels_of(s: WitnessShape) -> Set<Seq<u8>>
    decreases s,
{
    match s {
        WitnessShape::Fork(l, r) => labels_of(*l).union(labels_of(*r)),
        WitnessShape::Labeled(lab, _) => set![lab],
        _ => Set::empty(),
    }
}

/// The ordered, deterministic content hash tree.
pub struct HashTreeMap {
    pub entries: Vec<Entry>,
}

impl HashTreeMap {
    /// The tree's mathematical content: its sorted path/hash pair sequence.
    pub open spec fn model(&self) -> Seq<(Seq<u8>, Seq<u8>)> {
        pairs_of(self.entries@)
    }

    /// Well-formed: paths strictly sorted (hence unique), hashes 32 bytes.
    pub open spec fn wf(&self) -> bool {
        &&& strictly_sorted(self.model())
        &&& forall|i: int| 0 <= i < self.model().len() ==> (#[trigger] self.model()[i].1).len() == 32
    }

    pub fn new() -> (t: Self)
        ensures
            t.wf(),
            t.model() == Seq::<(Seq<u8>, Seq<u8>)>::empty(),
    {
        let t = HashTreeMap { entries: Vec::new() };
        proof {
            assert(t.model() =~= Seq::<(Seq<u8>, Seq<u8>)>::empty());
        }
        t
    }

    /// Index of the first entry whose path is not below `path`.
    fn lower_bound(&self, path: &[u8]) -> (idx: usize)
        requires
            self.wf(),
        ensures
            idx <= self.model().len(),
            forall|j: int| 0 <= j < idx ==> lex_lt(#[trigger] self.model()[j].0, path@),
            forall|j: int| idx <= j < self.model().len()
                ==> lex_le(path@, #[trigger] self.model()[j].0),
    {
        let ghost m = self.model();
        let mut i: usize = 0;
        while i < self.entries.len()
            invariant
                self.wf(),
                m == self.model(),
                i <= m.len(),
                forall|j: int| 0 <= j < i ==> lex_lt(#[trigger] m[j].0, path@),
            decreases self.entries.len() - i,
        {
            if !bytes_lt(self.entries[i].path.as_slice(), path) {
                proof {
                    lemma_lex_trichotomy(path@, m[i as int].0);
                    assert forall|j: int| i <= j < m.len()
                        implies lex_le(path@, #[trigger] m[j].0) by {
                        if j > i {
                            if lex_lt(path@, m[i as int].0) {
                                lemma_lex_transitive(path@, m[i as int].0, m[j].0);
                            }
                        }
                    }
                }
                return i;
            }
            i += 1;
        }
        i
    }

    /// Inserts or overwrites the entry at `path`: afterwards the tree binds
    /// exactly the old map with `path` bound to `hash`. Idempotent, and the
    /// result is independent of the history that produced the old map.
    pub fn put(&mut self, path: Vec<u8>, hash: Vec<u8>)
        requires
            old(self).wf(),
            hash@.len() == 32,
        ensures
            final(self).wf(),
            as_map(final(self).model()) == as_map(old(self).model()).insert(path@, hash@),
    {
        let ghost m = self.model();
        let idx = self.lower_bound(path.as_slice());
        let found = if idx < self.entries.len() {
            bytes_eq(self.entries[idx].path.as_slice(), path.as_slice())
        } else {
            false
        };
        if found {
            self.entries.remove(idx);
            self.entries.insert(idx, Entry { path, hash });
            proof {
                let m2 = self.model();
                assert(m2 =~= m.update(idx as int, (path@, hash@)));
                lemma_update_as_map(m, idx as int, path@, hash@);
                lemma_update_sorted(m, idx as int, path@, hash@);
            }
        } else {
            proof {
                assert forall|j: int| idx <= j < m.len()
                    implies lex_lt(path@, #[trigger] m[j].0) by {
                    lemma_lex_trichotomy(path@, m[idx as int].0);
                    if j > idx {
                        if path@ == m[idx as int].0 {
                        } else {
                            lemma_lex_transitive(path@, m[idx as int].0, m[j].0);
                        }
                    }
                }
            }
            self.entries.insert(idx, Entry { path, hash });
            proof {
                let m2 = self.model();
                assert(m2 =~= m.insert(idx as int, (path@, hash@)));
                lemma_insert_as_map(m, idx as int, path@, hash@);
                lemma_insert_sorted(m, idx as int, path@, hash@);
            }
        }
    }

    /// The current aggregate root hash over all entries.
    pub fn root_hash(&self) -> (r: Vec<u8>)
        requires
            self.wf(),
        ensures
            r@ == subtree_hash(self.model()),
            r@.len() == 32,
    {
        let r = hash_range(&self.entries, 0, self.entries.len());
        proof {
            assert(self.model().subrange(0, self.model().len() as int) =~= self.model());
        }
        r
    }

    /// Extracts the witness for `path`: a subtree that reconstructs the
    /// exact root hash, reveals the hash bound to `path` when present and
    /// no binding otherwise, and reveals no label but `path`'s neighbours
    /// and the entries on the way to them. For an absent path the two
    /// entries bracketing its rank are revealed, which is what lets a
    /// verifier rule out any binding between them.
    pub fn witness(&self, path: &[u8]) -> (w: WitnessNode)
        requires
            self.wf(),
        ensures
            shape_of(w) == witness_shape(self.model(), path@, rank_of(self.model(), path@)),
            reconstruct(shape_of(w)) == subtree_hash(self.model()),
            lookup_in(shape_of(w), path@) == (if as_map(self.model()).contains_key(path@) {
                Some(as_map(self.model())[path@])
            } else {
                None::<Seq<u8>>
            }),
            forall|q: Seq<u8>| q != path@ ==> lookup_in(shape_of(w), q) is None,
            labels_of(shape_of(w)).subset_of(as_map(self.model()).dom()),
            forall|i: int| 0 <= i < self.model().len() && brackets(self.model(), i, path@)
                ==> labels_of(shape_of(w)).contains((#[trigger] self.model()[i]).0),
    {
        let ghost m = self.model();
        let pos = self.lower_bound(path);
        let w = witness_range(&self.entries, 0, self.entries.len(), path, pos);
        proof {
            assert(m.subrange(0, m.len() as int) =~= m);
            lemma_rank_unique(m, path@, pos as int);
            lemma_as_map_contains(m, path@);
            if exists|i: int| 0 <= i < m.len() && m[i].0 == path@ {
                let i = choose|i: int| 0 <= i < m.len() && #[trigger] m[i].0 == path@;
                lemma_found_at_pos(m, path@, pos as int, i);
                lemma_as_map_index(m, i);
            }
            assert forall|k: Seq<u8>| labels_of(shape_of(w)).contains(k)
                implies as_map(m).dom().contains(k) by {
                let j = choose|j: int| 0 <= j < m.len() && #[trigger] m[j].0 == k;
                lemma_as_map_contains(m, k);
            }
            assert forall|i: int| 0 <= i < m.len() && brackets(m, i, path@)
                implies labels_of(shape_of(w)).contains((#[trigger] m[i]).0) by {
                lemma_lex_trichotomy(m[i].0, path@);
                if lex_lt(m[i].0, path@) {
                    assert(i < pos);
                    if i + 1 < m.len() {
                        assert(lex_le(path@, m[i + 1].0));
                        lemma_lex_trichotomy(m[i + 1].0, path@);
                        assert(i + 1 >= pos);
                    } else {
                        assert(pos <= m.len());
                    }
                    assert(i == pos - 1);
                } else {
                    assert(lex_le(path@, m[i].0));
                    assert(i >= pos);
                    if i > 0 {
                        assert(lex_lt(m[i - 1].0, path@));
                        lemma_lex_trichotomy(m[i - 1].0, path@);
                        assert(i - 1 < pos);
                    }
                    assert(i == pos);
                }
            }
        }
        w
    }
}

/// Removes the entry at `path`, if any: afterwards the tree binds exactly
/// the old map without `path`. Removing the last entry restores the empty
/// tree's sentinel state exactly.
pub fn remove_path(t: &mut HashTreeMap, path: &[u8])
    requires
        old(t).wf(),
    ensures
        final(t).wf(),
        as_map(final(t).model()) == as_map(old(t).model()).remove(path@),
{
    let ghost m = t.model();
    let idx = t.lower_bound(path);
    let found = if idx < t.entries.len() {
        bytes_eq(t.entries[idx].path.as_slice(), path)
    } else {
        false
    };
    if found {
        t.entries.remove(idx);
        proof {
            let m2 = t.model();
            assert(m2 =~= m.remove(idx as int));
            lemma_remove_as_map(m, idx as int);
            assert forall|a: int, b: int| 0 <= a < b < m2.len()
                implies lex_lt(#[trigger] m2[a].0, #[trigger] m2[b].0) by {
                let a0: int = if a < idx { a } else { a + 1 };
                let b0: int = if b < idx { b } else { b + 1 };
                assert(m2[a] == m[a0] && m2[b] == m[b0]);
            }
        }
    } else {
        proof {
            lemma_as_map_contains(m, path@);
            if exists|i: int| 0 <= i < m.len() && (#[trigger] m[i]).0 == path@ {
                let i = choose|i: int| 0 <= i < m.len() && (#[trigger] m[i]).0 == path@;
                lemma_found_at_pos(m, path@, idx as int, i);
            }
            assert(as_map(t.model()) =~= as_map(m).remove(path@));
        }
    }
}

/// Dropping the pair at a path's own rank removes that path from the map.
proof fn lemma_remove_as_map(m: Seq<(Seq<u8>, Seq<u8>)>, idx: int)
    requires
        strictly_sorted(m),
        0 <= idx < m.len(),
    ensures
        as_map(m.remove(idx)) == as_map(m).remove(m[idx].0),
    decreases m.len(),
{
    if idx == 0 {
        assert(m.remove(0) =~= m.skip(1));
        lemma_sorted_skip(m);
    } else {
        assert(m.remove(idx).skip(1) =~= m.skip(1).remove(idx - 1));
        assert(m.remove(idx)[0] == m[0]);
        lemma_sorted_skip(m);
        assert(m.skip(1)[idx - 1] == m[idx]);
        lemma_remove_as_map(m.skip(1), idx - 1);
        assert(lex_lt(m[0].0, m[idx].0));
        lemma_lex_trichotomy(m[0].0, m[idx].0);
        assert(as_map(m.remove(idx)) =~= as_map(m).remove(m[idx].0));
    }
}

/// Entry `i` is one of the two neighbours of `k`'s rank: the last entry
/// below `k`, or the first at or above it.
pub open spec fn brackets(m: Seq<(Seq<u8>, Seq<u8>)>, i: int, k: Seq<u8>) -> bool {
    &&& 0 <= i < m.len()
    &&& if lex_lt(m[i].0, k) {
        i + 1 == m.len() || lex_le(k, m[i + 1].0)
    } else {
        i == 0 || lex_lt(m[i - 1].0, k)
    }
}

/// A freshly owned copy of a byte slice.
pub fn copy_bytes(src: &[u8]) -> (r: Vec<u8>)
    ensures
        r@ == src@,
{
    let mut v: Vec<u8> = Vec::new();
    let mut i: usize = 0;
    while i < src.len()
        invariant
            i <= src.len(),
            v@ == src@.take(i as int),
        decreases src.len() - i,
    {
        v.push(src[i]);
        assert(v@ =~= src@.take(i + 1));
        i += 1;
    }
    assert(v@ =~= src@);
    v
}

/// Aggregate hash of `entries[lo..hi]`, computed exactly as `subtree_hash`
/// describes it.
fn hash_range(entries: &Vec<Entry>, lo: usize, hi: usize) -> (r: Vec<u8>)
    requires
        lo <= hi <= entries@.len(),
    ensures
        r@ == subtree_hash(pairs_of(entries@).subrange(lo as int, hi as int)),
        r@.len() == 32,
    decreases hi - lo,
{
    let ghost seg = pairs_of(entries@).subrange(lo as int, hi as int);
    let n = hi - lo;
    if n == 0 {
        empty_hash_exec()
    } else if n == 1 {
        let leaf = leaf_hash_exec(entries[lo].hash.as_slice());
        labeled_hash_exec(entries[lo].path.as_slice(), leaf.as_slice())
    } else {
        let half = n / 2;
        let l = hash_range(entries, lo, lo + half);
        let r = hash_range(entries, lo + half, hi);
        proof {
            assert(seg.take(half as int)
                =~= pairs_of(entries@).subrange(lo as int, lo + half as int));
            assert(seg.skip(half as int)
                =~= pairs_of(entries@).subrange(lo + half as int, hi as int));
        }
        fork_hash_exec(l.as_slice(), r.as_slice())
    }
}

/// Builds the witness for `entries[lo..hi]`. `pos` is the global rank of
/// `path`: everything before it is below `path`, everything from it on is
/// at or above `path`. A range that cannot contain `path` or either of its
/// neighbours collapses to its bare subtree hash.
fn witness_range(entries: &Vec<Entry>, lo: usize, hi: usize, path: &[u8], pos: usize) -> (w: WitnessNode)
    requires
        strictly_sorted(pairs_of(entries@)),
        lo <= hi <= entries@.len(),
        pos <= entries@.len(),
        forall|j: int| 0 <= j < pos ==> lex_lt(#[trigger] pairs_of(entries@)[j].0, path@),
        forall|j: int| pos <= j < entries@.len()
            ==> lex_le(path@, #[trigger] pairs_of(entries@)[j].0),
    ensures
        shape_of(w) == witness_shape(
            pairs_of(entries@).subrange(lo as int, hi as int),
            path@,
            pos - lo,
        ),
        forall|q: Seq<u8>| q != path@ ==> lookup_in(shape_of(w), q) is None,
        reconstruct(shape_of(w)) == subtree_hash(pairs_of(entries@).subrange(lo as int, hi as int)),
        lookup_in(shape_of(w), path@) == (if pos < entries@.len()
            && pairs_of(entries@)[pos as int].0 == path@ && lo <= pos < hi {
            Some(pairs_of(entries@)[pos as int].1)
        } else {
            None::<Seq<u8>>
        }),
        forall|k: Seq<u8>| labels_of(shape_of(w)).contains(k)
            ==> exists|j: int| lo <= j < hi && (#[trigger] pairs_of(entries@)[j]).0 == k,
        pos >= 1 && lo <= pos - 1 < hi
            ==> labels_of(shape_of(w)).contains(pairs_of(entries@)[pos - 1].0),
        pos < entries@.len() && lo <= pos < hi
            ==> labels_of(shape_of(w)).contains(pairs_of(entries@)[pos as int].0),
    decreases hi - lo,
{
    let ghost m = pairs_of(entries@);
    let ghost seg = m.subrange(lo as int, hi as int);
    let n = hi - lo;
    if n == 0 {
        let w = WitnessNode::Empty;
        proof {
            assert(seg.len() == 0);
            assert(shape_of(w) == witness_shape(seg, path@, pos - lo));
        }
        w
    } else if pos < lo || pos > hi {
        let h = hash_range(entries, lo, hi);
        proof {
            if pos < entries@.len() && m[pos as int].0 == path@ && lo <= pos < hi {
                assert(false);
            }
        }
        let w = WitnessNode::Pruned(h);
        proof {
            assert(shape_of(w) == WitnessShape::Pruned(subtree_hash(seg)));
            assert(pos - lo < 0 || pos - lo > seg.len());
            assert(shape_of(w) == witness_shape(seg, path@, pos - lo));
        }
        w
    } else if n == 1 {
        let e_path = copy_bytes(entries[lo].path.as_slice());
        if bytes_eq(entries[lo].path.as_slice(), path) {
            let v = copy_bytes(entries[lo].hash.as_slice());
            let inner = WitnessNode::Leaf(v);
            let ghost s_inner = shape_of(inner);
            let w = WitnessNode::Labeled(e_path, Box::new(inner));
            proof {
                assert(seg.len() == 1 && seg[0] == m[lo as int]);
                assert(s_inner == WitnessShape::Leaf(m[lo as int].1));
                assert(shape_of(w) == WitnessShape::Labeled(m[lo as int].0, Box::new(s_inner)));
                assert(reconstruct(s_inner) == leaf_hash(m[lo as int].1));
                assert(reconstruct(shape_of(w))
                    == labeled_hash(m[lo as int].0, reconstruct(s_inner)));
                lemma_found_at_pos(m, path@, pos as int, lo as int);
                assert(lookup_in(shape_of(w), path@) == Some(m[lo as int].1));
                assert(seg[0].0 == path@);
                assert(0 <= pos - lo <= seg.len());
                assert(shape_of(w) == witness_shape(seg, path@, pos - lo));
                assert forall|q: Seq<u8>| q != path@
                    implies lookup_in(shape_of(w), q) is None by {
                    assert(lookup_in(shape_of(w), q) == None::<Seq<u8>>);
                }
            }
            w
        } else {
            let leaf = leaf_hash_exec(entries[lo].hash.as_slice());
            let inner = WitnessNode::Pruned(leaf);
            let ghost s_inner = shape_of(inner);
            let w = WitnessNode::Labeled(e_path, Box::new(inner));
            proof {
                assert(seg.len() == 1 && seg[0] == m[lo as int]);
                assert(s_inner == WitnessShape::Pruned(leaf_hash(m[lo as int].1)));
                assert(shape_of(w) == WitnessShape::Labeled(m[lo as int].0, Box::new(s_inner)));
                assert(reconstruct(s_inner) == leaf_hash(m[lo as int].1));
                assert(reconstruct(shape_of(w))
                    == labeled_hash(m[lo as int].0, reconstruct(s_inner)));
                if pos < entries@.len() && m[pos as int].0 == path@ && lo <= pos < hi {
                    assert(pos == lo);
                    assert(false);
                }
                assert(seg[0].0 != path@);
                assert(0 <= pos - lo <= seg.len());
                assert(shape_of(w) == witness_shape(seg, path@, pos - lo));
                assert forall|q: Seq<u8>| q != path@
                    implies lookup_in(shape_of(w), q) is None by {
                    assert(lookup_in(shape_of(w), q) == None::<Seq<u8>>);
                }
            }
            w
        }
    } else {
        let half = n / 2;
        let l = witness_range(entries, lo, lo + half, path, pos);
        let r = witness_range(entries, lo + half, hi, path, pos);
        let ghost sl = shape_of(l);
        let ghost sr = shape_of(r);
        let w = WitnessNode::Fork(Box::new(l), Box::new(r));
        proof {
            assert(seg.take(half as int) =~= m.subrange(lo as int, lo + half as int));
            assert(seg.skip(half as int) =~= m.subrange(lo + half as int, hi as int));
            assert(shape_of(w) == WitnessShape::Fork(Box::new(sl), Box::new(sr)));
            assert(sl == witness_shape(seg.take(half as int), path@, pos - lo));
            assert(sr == witness_shape(seg.skip(half as int), path@, pos - lo - half));
            assert(seg.len() as int / 2 == half);
            assert(shape_of(w) == witness_shape(seg, path@, pos - lo));
            assert forall|q: Seq<u8>| q != path@
                implies lookup_in(shape_of(w), q) is None by {
                assert(lookup_in(sl, q) is None && lookup_in(sr, q) is None);
                assert(lookup_in(shape_of(w), q) == None::<Seq<u8>>);
            }
            assert(reconstruct(shape_of(w)) == fork_hash(reconstruct(sl), reconstruct(sr)));
            assert(subtree_hash(seg) == fork_hash(
                subtree_hash(seg.take(half as int)),
                subtree_hash(seg.skip(half as int)),
            ));
            assert forall|k: Seq<u8>| labels_of(shape_of(w)).contains(k)
                implies exists|j: int| lo <= j < hi && (#[trigger] m[j]).0 == k by {
                if labels_of(sl).contains(k) {
                    let j = choose|j: int| lo <= j < lo + half && (#[trigger] m[j]).0 == k;
                    assert(lo <= j < hi && m[j].0 == k);
                } else {
                    assert(labels_of(sr).contains(k));
                    let j = choose|j: int| lo + half <= j < hi && (#[trigger] m[j]).0 == k;
                    assert(lo <= j < hi && m[j].0 == k);
                }
            }
        }
        w
    }
}

/// A path occurs in a sorted pair sequence only at the rank that
/// `lower_bound` computes.
proof fn lemma_found_at_pos(m: Seq<(Seq<u8>, Seq<u8>)>, path: Seq<u8>, pos: int, i: int)
    requires
        strictly_sorted(m),
        0 <= i < m.len(),
        m[i].0 == path,
        0 <= pos <= m.len(),
        forall|j: int| 0 <= j < pos ==> lex_lt(#[trigger] m[j].0, path),
        forall|j: int| pos <= j < m.len() ==> lex_le(path, #[trigger] m[j].0),
    ensures
        pos == i,
{
    lemma_lex_trichotomy(m[i].0, path);
    if i < pos {
        assert(lex_lt(m[i].0, path));
    }
    if i > pos {
        assert(lex_le(path, m[pos].0));
        assert(lex_lt(m[pos].0, m[i].0));
        if lex_lt(path, m[pos].0) {
            lemma_lex_transitive(path, m[pos].0, m[i].0);
        }
        lemma_lex_trichotomy(path, m[i].0);
    }
}

/// Membership in `as_map` is existence of a pair with that path.
pub proof fn lemma_as_map_contains(m: Seq<(Seq<u8>, Seq<u8>)>, k: Seq<u8>)
    ensures
        as_map(m).contains_key(k) <==> exists|i: int| 0 <= i < m.len() && (#[trigger] m[i]).0 == k,
    decreases m.len(),
{
    if m.len() > 0 {
        lemma_as_map_contains(m.skip(1), k);
        if m[0].0 == k {
            assert(m[0] == m[0]);
        } else if as_map(m).contains_key(k) {
            let i = choose|i: int| 0 <= i < m.skip(1).len() && (#[trigger] m.skip(1)[i]).0 == k;
            assert(m[i + 1] == m.skip(1)[i]);
        } else if exists|i: int| 0 <= i < m.len() && (#[trigger] m[i]).0 == k {
            let i = choose|i: int| 0 <= i < m.len() && (#[trigger] m[i]).0 == k;
            assert(m.skip(1)[i - 1] == m[i]);
        }
    }
}

/// In a sorted pair sequence the map's value at a path is the hash paired
/// with it.
pub proof fn lemma_as_map_index(m: Seq<(Seq<u8>, Seq<u8>)>, i: int)
    requires
        strictly_sorted(m),
        0 <= i < m.len(),
    ensures
        as_map(m).contains_key(m[i].0),
        as_map(m)[m[i].0] == m[i].1,
    decreases m.len(),
{
    lemma_as_map_contains(m, m[i].0);
    if i > 0 {
        assert(strictly_sorted(m.skip(1))) by {
            assert forall|a: int, b: int| 0 <= a < b < m.skip(1).len()
                implies lex_lt(#[trigger] m.skip(1)[a].0, #[trigger] m.skip(1)[b].0) by {
                assert(m.skip(1)[a] == m[a + 1] && m.skip(1)[b] == m[b + 1]);
            }
        }
        assert(m.skip(1)[i - 1] == m[i]);
        lemma_as_map_index(m.skip(1), i - 1);
        lemma_lex_trichotomy(m[0].0, m[i].0);
        assert(lex_lt(m[0].0, m[i].0));
    }
}

proof fn lemma_sorted_skip(m: Seq<(Seq<u8>, Seq<u8>)>)
    requires
        strictly_sorted(m),
        m.len() > 0,
    ensures
        strictly_sorted(m.skip(1)),
        !as_map(m.skip(1)).contains_key(m[0].0),
        as_map(m.skip(1)) == as_map(m).remove(m[0].0),
{
    assert forall|a: int, b: int| 0 <= a < b < m.skip(1).len()
        implies lex_lt(#[trigger] m.skip(1)[a].0, #[trigger] m.skip(1)[b].0) by {
        assert(m.skip(1)[a] == m[a + 1] && m.skip(1)[b] == m[b + 1]);
    }
    lemma_as_map_contains(m.skip(1), m[0].0);
    if exists|i: int| 0 <= i < m.skip(1).len() && (#[trigger] m.skip(1)[i]).0 == m[0].0 {
        let i = choose|i: int| 0 <= i < m.skip(1).len() && (#[trigger] m.skip(1)[i]).0 == m[0].0;
        assert(m.skip(1)[i] == m[i + 1]);
        assert(lex_lt(m[0].0, m[i + 1].0));
        lemma_lex_trichotomy(m[0].0, m[i + 1].0);
    }
    assert(as_map(m.skip(1)) =~= as_map(m).remove(m[0].0));
}

/// Two well-formed trees binding the same map are the same sequence: the
/// root hash depends only on the final set of path/hash pairs, never on
/// the order or duplication of the operations that produced it.
pub proof fn lemma_root_determinism(m1: Seq<(Seq<u8>, Seq<u8>)>, m2: Seq<(Seq<u8>, Seq<u8>)>)
    requires
        strictly_sorted(m1),
        strictly_sorted(m2),
        as_map(m1) == as_map(m2),
    ensures
        m1 == m2,
        subtree_hash(m1) == subtree_hash(m2),
    decreases m1.len(),
{
    if m1.len() == 0 && m2.len() == 0 {
        assert(m1 =~= m2);
    } else if m1.len() == 0 {
        lemma_as_map_index(m2, 0);
        assert(as_map(m1).dom() =~= Set::<Seq<u8>>::empty());
    } else if m2.len() == 0 {
        lemma_as_map_index(m1, 0);
        assert(as_map(m2).dom() =~= Set::<Seq<u8>>::empty());
    } else {
        lemma_as_map_index(m1, 0);
        lemma_as_map_index(m2, 0);
        lemma_as_map_contains(m2, m1[0].0);
        lemma_as_map_contains(m1, m2[0].0);
        let i = choose|i: int| 0 <= i < m2.len() && (#[trigger] m2[i]).0 == m1[0].0;
        let j = choose|j: int| 0 <= j < m1.len() && (#[trigger] m1[j]).0 == m2[0].0;
        lemma_lex_trichotomy(m1[0].0, m2[0].0);
        if i > 0 && j > 0 {
            assert(lex_lt(m2[0].0, m2[i].0));
            assert(lex_lt(m1[0].0, m1[j].0));
            lemma_lex_transitive(m1[0].0, m1[j].0, m2[i].0);
        }
        assert(m1[0].0 == m2[0].0);
        lemma_as_map_index(m2, 0);
        assert(m1[0].1 == as_map(m1)[m1[0].0]);
        assert(m1[0] == m2[0]);
        lemma_sorted_skip(m1);
        lemma_sorted_skip(m2);
        lemma_root_determinism(m1.skip(1), m2.skip(1));
        assert forall|i: int| 0 <= i < m1.len() implies m1[i] == m2[i] by {
            if i > 0 {
                assert(m1.skip(1)[i - 1] == m1[i]);
                assert(m2.skip(1)[i - 1] == m2[i]);
            }
        }
        assert(m1 =~= m2);
    }
}

/// Two well-formed trees binding the same map yield, for any path, the
/// same canonical witness shape, and hence byte-identical encodings:
/// independent verifiers agree on the proof for a path whatever the
/// operation history behind the tree.
pub proof fn lemma_witness_determinism(
    m1: Seq<(Seq<u8>, Seq<u8>)>,
    m2: Seq<(Seq<u8>, Seq<u8>)>,
    k: Seq<u8>,
)
    requires
        strictly_sorted(m1),
        strictly_sorted(m2),
        as_map(m1) == as_map(m2),
    ensures
        witness_shape(m1, k, rank_of(m1, k)) == witness_shape(m2, k, rank_of(m2, k)),
{
    lemma_root_determinism(m1, m2);
}

/// Overwriting the pair at a path's own rank updates the map at that path.
proof fn lemma_update_as_map(m: Seq<(Seq<u8>, Seq<u8>)>, idx: int, k: Seq<u8>, v: Seq<u8>)
    requires
        strictly_sorted(m),
        0 <= idx < m.len(),
        m[idx].0 == k,
    ensures
        as_map(m.update(idx, (k, v))) == as_map(m).insert(k, v),
    decreases m.len(),
{
    if idx == 0 {
        assert(m.update(0, (k, v)).skip(1) =~= m.skip(1));
        assert(as_map(m.update(0, (k, v))) =~= as_map(m).insert(k, v));
    } else {
        assert(m.update(idx, (k, v)).skip(1) =~= m.skip(1).update(idx - 1, (k, v)));
        lemma_sorted_skip(m);
        assert(m.skip(1)[idx - 1] == m[idx]);
        lemma_update_as_map(m.skip(1), idx - 1, k, v);
        assert(lex_lt(m[0].0, m[idx].0));
        lemma_lex_trichotomy(m[0].0, m[idx].0);
        assert(as_map(m.update(idx, (k, v))) =~= as_map(m).insert(k, v));
    }
}

proof fn lemma_update_sorted(m: Seq<(Seq<u8>, Seq<u8>)>, idx: int, k: Seq<u8>, v: Seq<u8>)
    requires
        strictly_sorted(m),
        0 <= idx < m.len(),
        m[idx].0 == k,
    ensures
        strictly_sorted(m.update(idx, (k, v))),
{
    let m2 = m.update(idx, (k, v));
    assert forall|a: int, b: int| 0 <= a < b < m2.len()
        implies lex_lt(#[trigger] m2[a].0, #[trigger] m2[b].0) by {
        assert(m2[a].0 == m[a].0 && m2[b].0 == m[b].0);
    }
}

/// Inserting a fresh pair at its rank adds exactly that binding to the map.
proof fn lemma_insert_as_map(m: Seq<(Seq<u8>, Seq<u8>)>, idx: int, k: Seq<u8>, v: Seq<u8>)
    requires
        strictly_sorted(m),
        0 <= idx <= m.len(),
        forall|j: int| 0 <= j < idx ==> lex_lt(#[trigger] m[j].0, k),
        forall|j: int| idx <= j < m.len() ==> lex_lt(k, #[trigger] m[j].0),
    ensures
        as_map(m.insert(idx, (k, v))) == as_map(m).insert(k, v),
    decreases m.len(),
{
    if idx == 0 {
        assert(m.insert(0, (k, v)).skip(1) =~= m);
        assert(m.insert(0, (k, v))[0] == (k, v));
        assert(as_map(m.insert(0, (k, v))) =~= as_map(m).insert(k, v));
    } else {
        assert(m.insert(idx, (k, v)).skip(1) =~= m.skip(1).insert(idx - 1, (k, v)));
        assert(m.insert(idx, (k, v))[0] == m[0]);
        lemma_sorted_skip(m);
        assert forall|j: int| 0 <= j < idx - 1
            implies lex_lt(#[trigger] m.skip(1)[j].0, k) by {
            assert(m.skip(1)[j] == m[j + 1]);
        }
        assert forall|j: int| idx - 1 <= j < m.skip(1).len()
            implies lex_lt(k, #[trigger] m.skip(1)[j].0) by {
            assert(m.skip(1)[j] == m[j + 1]);
        }
        lemma_insert_as_map(m.skip(1), idx - 1, k, v);
        assert(lex_lt(m[0].0, k));
        lemma_lex_trichotomy(m[0].0, k);
        assert(as_map(m.insert(idx, (k, v))) =~= as_map(m).insert(k, v));
    }
}

proof fn lemma_insert_sorted(m: Seq<(Seq<u8>, Seq<u8>)>, idx: int, k: Seq<u8>, v: Seq<u8>)
    requires
        strictly_sorted(m),
        0 <= idx <= m.len(),
        forall|j: int| 0 <= j < idx ==> lex_lt(#[trigger] m[j].0, k),
        forall|j: int| idx <= j < m.len() ==> lex_lt(k, #[trigger] m[j].0),
    ensures
        strictly_sorted(m.insert(idx, (k, v))),
{
    let m2 = m.insert(idx, (k, v));
    assert forall|a: int, b: int| 0 <= a < b < m2.len()
        implies lex_lt(#[trigger] m2[a].0, #[trigger] m2[b].0) by {
        if a < idx {
            assert(m2[a] == m[a]);
        } else if a > idx {
            assert(m2[a] == m[a - 1]);
        }
        if b < idx {
            assert(m2[b] == m[b]);
        } else if b > idx {
            assert(m2[b] == m[b - 1]);
        }
        if a < idx && b > idx {
            lemma_lex_transitive(m[a].0, k, m[b - 1].0);
        }
    }
}


/// Recomputes, as a verifier would, the root hash that a witness stands
/// for.
pub fn reconstruct_hash(t: &WitnessNode) -> (r: Vec<u8>)
    ensures
        r@ == reconstruct(shape_of(*t)),
    decreases *t,
{
    match t {
        WitnessNode::Empty => empty_hash_exec(),
        WitnessNode::Fork(l, r) => {
            let lh = reconstruct_hash(&**l);
            let rh = reconstruct_hash(&**r);
            let h = fork_hash_exec(lh.as_slice(), rh.as_slice());
            proof {
                assert(shape_of(*t) == WitnessShape::Fork(
                    Box::new(shape_of(**l)),
                    Box::new(shape_of(**r)),
                ));
            }
            h
        },
        WitnessNode::Labeled(lab, inner) => {
            let ih = reconstruct_hash(&**inner);
            let h = labeled_hash_exec(lab.as_slice(), ih.as_slice());
            proof {
                assert(shape_of(*t) == WitnessShape::Labeled(lab@, Box::new(shape_of(**inner))));
            }
            h
        },
        WitnessNode::Leaf(d) => leaf_hash_exec(d.as_slice()),
        WitnessNode::Pruned(h) => copy_bytes(h.as_slice()),
    }
}

} // verus!
