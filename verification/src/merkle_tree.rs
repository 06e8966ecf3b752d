//! The Merkle tree: levels of hash slots, root lookup, leaf lookup, and
//! incremental insertion with on-demand growth.

use vstd::prelude::*;
use vstd::arithmetic::power2::pow2;
use crate::hasher::Hasher;

verus! {

broadcast use vstd::arithmetic::power2::lemma_pow2_pos;

/// A Merkle tree over the hashing capability `H`.
///
/// `levels` is a sequence of levels, root level first; the last level holds
/// the leaves. Level `i` holds exactly `2^i` slots. A slot is `None` while it
/// is an unfilled leaf (the empty marker, distinct from every real digest)
/// and `Some(digest)` once it carries a hash. Internal slots always carry a
/// hash: the hash of the concatenation of their two children's bytes, where
/// an empty child contributes zero bytes.
///
/// `filled` counts the leaves that carry a hash; leaves fill strictly left to
/// right, so the filled leaves are exactly the first `filled` ones.
pub struct MerkleTree<H: Hasher> {
    levels: Vec<Vec<Option<Vec<u8>>>>,
    filled: usize,
    hasher: core::marker::PhantomData<H>,
}

/// The bytes a slot contributes when it is hashed into its parent: a digest
/// contributes itself, an empty slot contributes zero bytes.
pub open spec fn opt_bytes(slot: Option<Seq<u8>>) -> Seq<u8> {
    match slot {
        Option::None => Seq::empty(),
        Option::Some(b) => b,
    }
}

/// `opt_bytes` on a stored slot.
pub open spec fn slot_bytes(slot: Option<Vec<u8>>) -> Seq<u8> {
    match slot {
        Option::None => Seq::empty(),
        Option::Some(v) => v@,
    }
}

/// Powers of two grow past their exponent.
proof fn lemma_pow2_exceeds(n: nat)
    ensures
        pow2(n) > n,
    decreases n,
{
    vstd::arithmetic::power2::lemma2_to64();
    if n > 0 {
        lemma_pow2_exceeds((n - 1) as nat);
        vstd::arithmetic::power2::lemma_pow2_unfold(n);
    }
}

/// Powers of two are monotone in the exponent.
proof fn lemma_pow2_le(e1: nat, e2: nat)
    requires
        e1 <= e2,
    ensures
        pow2(e1) <= pow2(e2),
{
    if e1 < e2 {
        vstd::arithmetic::power2::lemma_pow2_strictly_increases(e1, e2);
    }
}

/// Append the bytes a slot contributes to a hash input.
fn append_slot_bytes(buf: &mut Vec<u8>, slot: &Option<Vec<u8>>)
    ensures
        final(buf)@ == old(buf)@ + slot_bytes(*slot),
{
    match slot {
        Option::Some(h) => {
            let mut k: usize = 0;
            while k < h.len()
                invariant
                    k <= h@.len(),
                    buf@ == old(buf)@ + h@.subrange(0, k as int),
                decreases h@.len() - k,
            {
                buf.push(h[k]);
                proof {
                    assert(old(buf)@ + h@.subrange(0, k as int) + seq![h@[k as int]] =~= old(buf)@ + h@.subrange(0, k + 1));
                }
                k = k + 1;
            }
            proof {
                assert(h@.subrange(0, h@.len() as int) =~= h@);
            }
        },
        Option::None => {
            proof {
                assert(buf@ + Seq::<u8>::empty() =~= buf@);
            }
        },
    }
}

impl<H: Hasher> MerkleTree<H> {
    /// The number of levels above the leaf level.
    pub closed spec fn height(&self) -> nat {
        (self.levels@.len() - 1) as nat
    }

    /// The number of leaf slots, filled or not.
    pub open spec fn leaf_capacity(&self) -> nat {
        pow2(self.height())
    }

    /// How many leaves carry a hash.
    pub closed spec fn filled_count(&self) -> nat {
        self.filled as nat
    }

    /// The slot at level `i` (0 is the root level), index `j`, as an optional
    /// byte sequence.
    pub closed spec fn slot_at(&self, i: int, j: int) -> Option<Seq<u8>> {
        match self.levels@[i]@[j] {
            Option::None => Option::None,
            Option::Some(v) => Option::Some(v@),
        }
    }

    /// The bytes that the slot at level `i`, index `j` contributes to its
    /// parent's hash input.
    pub open spec fn bytes_at(&self, i: int, j: int) -> Seq<u8> {
        opt_bytes(self.slot_at(i, j))
    }

    /// The leaf slot at index `j`.
    pub open spec fn leaf_at(&self, j: int) -> Option<Seq<u8>> {
        self.slot_at(self.height() as int, j)
    }

    /// The root digest.
    pub open spec fn root_hash(&self) -> Seq<u8> {
        self.bytes_at(0, 0)
    }

    /// The leaves, root-level-independent view: one optional digest per slot.
    pub open spec fn leaves_view(&self) -> Seq<Option<Seq<u8>>> {
        Seq::new(self.leaf_capacity(), |j: int| self.leaf_at(j))
    }

    /// Structural facts that only the representation can state: at least a
    /// root level and a leaf level, level `i` holds `2^i` slots, and the fill
    /// counter never exceeds the capacity.
    pub closed spec fn sized_ok(&self) -> bool {
        &&& 2 <= self.levels@.len()
        &&& forall|i: int|
            0 <= i < self.levels@.len() ==> (#[trigger] self.levels@[i]@.len()) == pow2(i as nat)
        &&& self.filled as nat <= pow2(self.height())
    }

    /// The single parent equation: the slot at level `i`, index `j` carries
    /// the hash of its two children's bytes, concatenated left then right.
    pub open spec fn parent_holds_at(&self, i: int, j: int) -> bool {
        self.slot_at(i, j) == Option::Some(
            H::hash_spec(self.bytes_at(i + 1, 2 * j) + self.bytes_at(i + 1, 2 * j + 1)),
        )
    }

    /// Every internal slot satisfies the parent equation.
    pub open spec fn parent_ok(&self) -> bool {
        forall|i: int, j: int|
            0 <= i < self.height() && 0 <= j < pow2(i as nat) ==> #[trigger] self.parent_holds_at(
                i,
                j,
            )
    }

    /// Leaves fill strictly left to right: the first `filled_count` leaves
    /// carry a hash, every later leaf is the empty marker.
    pub open spec fn fill_ok(&self) -> bool {
        &&& forall|j: int|
            0 <= j < self.filled_count() ==> (#[trigger] self.leaf_at(j)) is Some
        &&& forall|j: int|
            self.filled_count() <= j < self.leaf_capacity() ==> (#[trigger] self.leaf_at(j))
                is None
    }

    /// Well-formedness: the invariant that construction establishes and every
    /// operation preserves.
    pub open spec fn wf(&self) -> bool {
        &&& self.sized_ok()
        &&& self.parent_ok()
        &&& self.fill_ok()
    }

    /// The parent equation over stored slots: `p` carries the hash of the
    /// concatenation of the bytes of `l` and `r`.
    spec fn slot_parent(p: Option<Vec<u8>>, l: Option<Vec<u8>>, r: Option<Vec<u8>>) -> bool {
        &&& p is Some
        &&& p.unwrap()@ == H::hash_spec(slot_bytes(l) + slot_bytes(r))
    }

    /// Create a new Merkle tree with a given height.
    ///
    /// The tree gets `2^(height + 1)` leaf slots, every one the empty marker,
    /// and `height + 2` levels in all: each parent level is built from the
    /// level below it, bottom up, so the parent equation holds everywhere
    /// from the start. The stated bound on `2^(height + 1)` only keeps the
    /// leaf count within an addressable vector.
    #[verifier::loop_isolation(false)]
    pub fn new(height: usize) -> (t: Self)
        requires
            pow2(height as nat + 1) <= usize::MAX,
        ensures
            t.wf(),
            t.height() == height as nat + 1,
            t.filled_count() == 0,
            forall|j: int| 0 <= j < t.leaf_capacity() ==> t.leaf_at(j) is None,
    {
        proof {
            lemma_pow2_exceeds(height as nat + 1);
        }
        let target: usize = height + 1;

        // The leaf capacity, 2^(height + 1).
        let mut cap: usize = 1;
        let mut d: usize = 0;
        proof {
            vstd::arithmetic::power2::lemma2_to64();
        }
        while d < target
            invariant
                d <= target,
                cap == pow2(d as nat),
            decreases target - d,
        {
            proof {
                vstd::arithmetic::power2::lemma_pow2_unfold(d as nat + 1);
                lemma_pow2_le(d as nat + 1, height as nat + 1);
            }
            cap = cap * 2;
            d = d + 1;
        }

        // The leaf level: `cap` empty markers.
        let mut leaves: Vec<Option<Vec<u8>>> = Vec::new();
        while leaves.len() < cap
            invariant
                leaves@.len() <= cap,
                forall|j: int| 0 <= j < leaves@.len() ==> leaves@[j] is None,
            decreases cap - leaves@.len(),
        {
            leaves.push(Option::None);
        }

        // Build each parent level from the level below, prepending it, until
        // a single-slot root level tops the tree.
        let mut levels: Vec<Vec<Option<Vec<u8>>>> = Vec::new();
        levels.push(leaves);
        let mut size: usize = cap;
        let ghost mut e: nat = height as nat + 1;
        while size > 1
            invariant
                size == pow2(e),
                e <= height as nat + 1,
                levels@.len() == height as nat + 2 - e,
                forall|t: int|
                    0 <= t < levels@.len() ==> (#[trigger] levels@[t]@.len()) == pow2((e + t) as nat),
                forall|j: int|
                    0 <= j < levels@[levels@.len() - 1]@.len() ==> (#[trigger] levels@[levels@.len()
                        - 1]@[j]) is None,
                forall|t: int, j: int|
                    0 <= t < levels@.len() - 1 && 0 <= j < levels@[t]@.len()
                        ==> #[trigger] Self::slot_parent(
                        levels@[t]@[j],
                        levels@[t + 1]@[2 * j],
                        levels@[t + 1]@[2 * j + 1],
                    ),
            decreases size,
        {
            proof {
                if e == 0 {
                    assert(pow2(0nat) == 1) by {
                        vstd::arithmetic::power2::lemma2_to64();
                    }
                }
                vstd::arithmetic::power2::lemma_pow2_unfold(e);
            }
            let half = size / 2;
            let mut level: Vec<Option<Vec<u8>>> = Vec::new();
            let mut j: usize = 0;
            while j < half
                invariant
                    j <= half,
                    level@.len() == j,
                    forall|j2: int|
                        0 <= j2 < j ==> #[trigger] Self::slot_parent(
                            level@[j2],
                            levels@[0]@[2 * j2],
                            levels@[0]@[2 * j2 + 1],
                        ),
                decreases half - j,
            {
                let mut buf: Vec<u8> = Vec::new();
                append_slot_bytes(&mut buf, &levels[0][2 * j]);
                append_slot_bytes(&mut buf, &levels[0][2 * j + 1]);
                let h = H::hash(buf.as_slice());
                level.push(Option::Some(h));
                j = j + 1;
            }
            let ghost pre = levels@;
            levels.insert(0, level);
            proof {
                e = (e - 1) as nat;
                assert forall|t: int, j2: int|
                    0 <= t < levels@.len() - 1 && 0 <= j2 < levels@[t]@.len()
                        implies #[trigger] Self::slot_parent(
                        levels@[t]@[j2],
                        levels@[t + 1]@[2 * j2],
                        levels@[t + 1]@[2 * j2 + 1],
                    ) by {
                    if t == 0 {
                        assert(levels@[0] == level);
                        assert(levels@[1] == pre[0]);
                        assert(Self::slot_parent(level@[j2], pre[0]@[2 * j2], pre[0]@[2 * j2 + 1]));
                    } else {
                        let s = t - 1;
                        assert(levels@[t] == pre[s]);
                        assert(levels@[t + 1] == pre[s + 1]);
                        assert(Self::slot_parent(
                            pre[s]@[j2],
                            pre[s + 1]@[2 * j2],
                            pre[s + 1]@[2 * j2 + 1],
                        ));
                    }
                }
            }
            size = half;
        }
        proof {
            if e > 0 {
                vstd::arithmetic::power2::lemma_pow2_unfold(e);
            }
            assert(e == 0);
        }
        let t = MerkleTree { levels, filled: 0usize, hasher: core::marker::PhantomData };
        proof {
            assert forall|i: int, j: int|
                0 <= i < t.height() && 0 <= j < pow2(i as nat) implies #[trigger] t.parent_holds_at(
                i,
                j,
            ) by {
                assert(Self::slot_parent(
                    t.levels@[i]@[j],
                    t.levels@[i + 1]@[2 * j],
                    t.levels@[i + 1]@[2 * j + 1],
                ));
            }
        }
        t
    }

    /// Every internal slot except possibly `(ei, ej)` satisfies the parent
    /// equation. With `ei` outside the level range this is `parent_ok`.
    spec fn parent_ok_except(&self, ei: int, ej: int) -> bool {
        forall|i: int, j: int|
            0 <= i < self.height() && 0 <= j < pow2(i as nat) && !(i == ei && j == ej)
                ==> #[trigger] self.parent_holds_at(i, j)
    }

    /// `parent_holds_at` is the parent equation read off the stored slots.
    proof fn lemma_parent_eq_slots(self, i: int, j: int)
        ensures
            self.parent_holds_at(i, j) <==> Self::slot_parent(
                self.levels@[i]@[j],
                self.levels@[i + 1]@[2 * j],
                self.levels@[i + 1]@[2 * j + 1],
            ),
    {
    }

    /// Rewriting one slot moves the one possibly broken parent equation from
    /// the rewritten slot to its parent: every other equation reads only
    /// unchanged slots.
    proof fn lemma_update_shifts_exception(pre: Self, post: Self, c: int, d: int)
        requires
            pre.sized_ok(),
            post.levels@.len() == pre.levels@.len(),
            0 <= c <= pre.height(),
            0 <= d < pow2(c as nat),
            forall|i: int, j: int|
                0 <= i <= pre.height() && 0 <= j < pow2(i as nat) && !(i == c && j == d)
                    ==> #[trigger] post.slot_at(i, j) == pre.slot_at(i, j),
            pre.parent_ok_except(c, d),
            c < pre.height() ==> post.parent_holds_at(c, d),
        ensures
            c > 0 ==> post.parent_ok_except(c - 1, d / 2),
            c == 0 ==> post.parent_ok(),
    {
        assert forall|i: int, j: int|
            0 <= i < post.height() && 0 <= j < pow2(i as nat) && !(c > 0 && i == c - 1 && j == d
                / 2) implies #[trigger] post.parent_holds_at(i, j) by {
            vstd::arithmetic::power2::lemma_pow2_unfold((i + 1) as nat);
            if i == c && j == d {
            } else {
                assert(pre.parent_holds_at(i, j));
                assert(post.slot_at(i, j) == pre.slot_at(i, j));
                if i + 1 == c && 2 * j == d {
                    assert(j == d / 2);
                    assert(false);
                }
                if i + 1 == c && 2 * j + 1 == d {
                    assert(j == d / 2);
                    assert(false);
                }
                assert(post.slot_at(i + 1, 2 * j) == pre.slot_at(i + 1, 2 * j));
                assert(post.slot_at(i + 1, 2 * j + 1) == pre.slot_at(i + 1, 2 * j + 1));
            }
        }
    }

    /// Place the hash of `data` in the first unfilled leaf and recompute the
    /// path of ancestors from that leaf up to the root, halving the working
    /// index at each level; every slot off the path stays unchanged.
    #[verifier::loop_isolation(false)]
    fn insert_unfilled(&mut self, data: &[u8])
        requires
            old(self).wf(),
            old(self).filled_count() < old(self).leaf_capacity(),
        ensures
            final(self).wf(),
            final(self).height() == old(self).height(),
            final(self).filled_count() == old(self).filled_count() + 1,
            final(self).leaf_at(old(self).filled_count() as int) == Option::Some(
                H::hash_spec(data@),
            ),
            forall|j: int|
                0 <= j < old(self).leaf_capacity() && j != old(self).filled_count() ==> final(self).leaf_at(j) == old(self).leaf_at(j),
    {
        let last = self.levels.len() - 1;
        let room = self.levels[last].len();
        let pos = self.filled;
        proof {
            assert(pos < room);
        }
        let digest = H::hash(data);
        let ghost dg = digest@;
        let ghost pre = *self;
        self.levels[last].set(pos, Option::Some(digest));
        proof {
            assert forall|a: int, b: int|
                0 <= a <= pre.height() && 0 <= b < pow2(a as nat) && !(a == last as int && b
                    == pos as int) implies #[trigger] self.slot_at(a, b) == pre.slot_at(a, b) by {
                if a == last as int {
                    assert(self.levels@[a]@[b] == pre.levels@[a]@[b]);
                } else {
                    assert(self.levels@[a] == pre.levels@[a]);
                }
            }
            assert(self.slot_at(last as int, pos as int) == Option::Some(dg));
            Self::lemma_update_shifts_exception(pre, *self, last as int, pos as int);
        }
        let mut i: usize = last;
        let mut idx: usize = pos;
        while i > 0
            invariant
                i <= last,
                idx < pow2(i as nat),
                self.levels@.len() == pre.levels@.len(),
                forall|t: int|
                    0 <= t < self.levels@.len() ==> (#[trigger] self.levels@[t]@.len())
                        == pre.levels@[t]@.len(),
                self.filled == pre.filled,
                self.parent_ok_except(i as int - 1, idx as int / 2),
                self.slot_at(last as int, pos as int) == Option::Some(dg),
                forall|j: int|
                    0 <= j < pre.leaf_capacity() && j != pos as int ==> #[trigger] self.leaf_at(j)
                        == pre.leaf_at(j),
            decreases i,
        {
            proof {
                vstd::arithmetic::power2::lemma_pow2_unfold(i as nat);
            }
            let parent_idx = idx / 2;
            let mut buf: Vec<u8> = Vec::new();
            append_slot_bytes(&mut buf, &self.levels[i][2 * parent_idx]);
            append_slot_bytes(&mut buf, &self.levels[i][2 * parent_idx + 1]);
            let h = H::hash(buf.as_slice());
            let ghost step_pre = *self;
            self.levels[i - 1].set(parent_idx, Option::Some(h));
            proof {
                assert forall|a: int, b: int|
                    0 <= a <= step_pre.height() && 0 <= b < pow2(a as nat) && !(a == i - 1 && b
                        == parent_idx as int) implies #[trigger] self.slot_at(a, b)
                    == step_pre.slot_at(a, b) by {
                    if a == i - 1 {
                        assert(self.levels@[a]@[b] == step_pre.levels@[a]@[b]);
                    } else {
                        assert(self.levels@[a] == step_pre.levels@[a]);
                    }
                }
                assert(self.slot_at(i as int, 2 * parent_idx as int) == step_pre.slot_at(
                    i as int,
                    2 * parent_idx as int,
                ));
                assert(self.slot_at(i as int, 2 * parent_idx as int + 1) == step_pre.slot_at(
                    i as int,
                    2 * parent_idx as int + 1,
                ));
                assert(self.slot_at(i - 1, parent_idx as int) == Option::Some(
                    H::hash_spec(
                        self.bytes_at(i as int, 2 * parent_idx as int) + self.bytes_at(
                            i as int,
                            2 * parent_idx as int + 1,
                        ),
                    ),
                ));
                assert(self.parent_holds_at(i - 1, parent_idx as int));
                Self::lemma_update_shifts_exception(step_pre, *self, i - 1, parent_idx as int);
                assert forall|j: int|
                    0 <= j < pre.leaf_capacity() && j != pos as int implies #[trigger] self.leaf_at(
                    j,
                ) == pre.leaf_at(j) by {
                    assert(self.slot_at(last as int, j) == step_pre.slot_at(last as int, j));
                    assert(step_pre.leaf_at(j) == pre.leaf_at(j));
                }
                assert(self.slot_at(last as int, pos as int) == step_pre.slot_at(
                    last as int,
                    pos as int,
                ));
            }
            idx = parent_idx;
            i = i - 1;
        }
        proof {
            assert(self.parent_ok());
        }
        let ghost before_fill = *self;
        self.filled = pos + 1;
        proof {
            assert forall|a: int, b: int|
                0 <= a < self.height() && 0 <= b < pow2(a as nat)
                    implies #[trigger] self.parent_holds_at(a, b) by {
                assert(before_fill.parent_holds_at(a, b));
            }
            assert forall|j: int|
                0 <= j < self.filled_count() implies (#[trigger] self.leaf_at(j)) is Some by {
                assert(self.leaf_at(j) == before_fill.leaf_at(j));
                if j != pos as int {
                    assert(before_fill.leaf_at(j) == pre.leaf_at(j));
                    assert(pre.leaf_at(j) is Some);
                } else {
                    assert(before_fill.slot_at(last as int, pos as int) == Option::Some(dg));
                }
            }
            assert forall|j: int|
                self.filled_count() <= j < self.leaf_capacity() implies (#[trigger] self.leaf_at(
                j,
            )) is None by {
                assert(self.leaf_at(j) == before_fill.leaf_at(j));
                assert(before_fill.leaf_at(j) == pre.leaf_at(j));
                assert(pre.leaf_at(j) is None);
            }
            assert forall|j: int|
                0 <= j < pre.leaf_capacity() && j != pos as int implies #[trigger] self.leaf_at(j)
                == pre.leaf_at(j) by {
                assert(self.leaf_at(j) == before_fill.leaf_at(j));
                assert(before_fill.leaf_at(j) == pre.leaf_at(j));
            }
            assert(self.leaf_at(pos as int) == before_fill.slot_at(last as int, pos as int));
            assert(self.leaf_at(pos as int) == Option::Some(dg));
        }
    }

    /// Insert a new value and recompute the affected path.
    ///
    /// The data is hashed and placed in the first unfilled leaf, and the
    /// ancestors of that leaf are recomputed. If every leaf carries a hash
    /// already, the tree first grows: the leaf capacity doubles and a new
    /// root level tops the tree, after which the insertion proceeds into the
    /// first slot of the fresh right half. The stated bound on
    /// `2^(height + 1)` only keeps a doubled leaf level addressable; it is
    /// vacuous while the tree has room.
    pub fn insert(&mut self, data: &[u8])
        requires
            old(self).wf(),
            old(self).filled_count() == old(self).leaf_capacity() ==> pow2(
                old(self).height() + 1,
            ) <= usize::MAX,
        ensures
            final(self).wf(),
            final(self).filled_count() == old(self).filled_count() + 1,
            old(self).filled_count() < old(self).leaf_capacity() ==> {
                &&& final(self).height() == old(self).height()
                &&& final(self).leaf_at(old(self).filled_count() as int) == Option::Some(
                    H::hash_spec(data@),
                )
                &&& forall|j: int|
                    0 <= j < old(self).leaf_capacity() && j != old(self).filled_count() ==> final(self).leaf_at(j) == old(self).leaf_at(j)
            },
            old(self).filled_count() == old(self).leaf_capacity() ==> {
                &&& final(self).height() == old(self).height() + 1
                &&& final(self).leaf_capacity() == 2 * old(self).leaf_capacity()
                &&& final(self).leaf_at(old(self).leaf_capacity() as int) == Option::Some(
                    H::hash_spec(data@),
                )
                &&& forall|j: int|
                    0 <= j < old(self).leaf_capacity() ==> final(self).leaf_at(j) == old(self).leaf_at(j)
            },
    {
        let last = self.levels.len() - 1;
        if self.filled < self.levels[last].len() {
            self.insert_unfilled(data);
        } else {
            self.reseize_and_insert(data);
        }
    }

    /// Double one internal level: append, for each new slot, the hash of its
    /// two children in the level below, which has been doubled already.
    #[verifier::loop_isolation(false)]
    fn extend_level(&mut self, li: usize)
        requires
            li + 1 < old(self).levels@.len(),
            old(self).levels@[li + 1]@.len() == 4 * old(self).levels@[li as int]@.len(),
        ensures
            final(self).levels@.len() == old(self).levels@.len(),
            final(self).filled == old(self).filled,
            forall|t: int|
                0 <= t < final(self).levels@.len() && t != li ==> final(self).levels@[t] == old(self).levels@[t],
            final(self).levels@[li as int]@.len() == 2 * old(self).levels@[li as int]@.len(),
            forall|j: int|
                0 <= j < old(self).levels@[li as int]@.len() ==> #[trigger] final(self).levels@[li as int]@[j] == old(self).levels@[li as int]@[j],
            forall|j: int|
                old(self).levels@[li as int]@.len() <= j < 2 * old(self).levels@[li as int]@.len()
                    ==> #[trigger] Self::slot_parent(
                    final(self).levels@[li as int]@[j],
                    final(self).levels@[li + 1]@[2 * j],
                    final(self).levels@[li + 1]@[2 * j + 1],
                ),
    {
        let n = self.levels.len();
        proof {
            assert(li + 1 < n);
        }
        let sz = self.levels[li].len();
        let below = self.levels[li + 1].len();
        proof {
            assert(below == 4 * sz);
        }
        let target = 2 * sz;
        let ghost pre = *self;
        let mut j: usize = sz;
        while j < target
            invariant
                sz <= j <= target,
                self.levels@.len() == pre.levels@.len(),
                forall|t: int|
                    0 <= t < self.levels@.len() && t != li ==> self.levels@[t] == pre.levels@[t],
                self.levels@[li as int]@.len() == j,
                self.filled == pre.filled,
                forall|j2: int|
                    0 <= j2 < sz ==> #[trigger] self.levels@[li as int]@[j2]
                        == pre.levels@[li as int]@[j2],
                forall|j2: int|
                    sz <= j2 < j ==> #[trigger] Self::slot_parent(
                        self.levels@[li as int]@[j2],
                        self.levels@[li + 1]@[2 * j2],
                        self.levels@[li + 1]@[2 * j2 + 1],
                    ),
            decreases target - j,
        {
            let mut buf: Vec<u8> = Vec::new();
            append_slot_bytes(&mut buf, &self.levels[li + 1][2 * j]);
            append_slot_bytes(&mut buf, &self.levels[li + 1][2 * j + 1]);
            let h = H::hash(buf.as_slice());
            self.levels[li].push(Option::Some(h));
            j = j + 1;
        }
    }

    /// Grow the tree by one level: double every level, filling the new right
    /// half of the leaf level with empty markers and the new right half of
    /// each internal level with the hashes the parent equation asks for, then
    /// prepend a new single-slot root level computed from the doubled old
    /// root level.
    #[verifier::loop_isolation(false)]
    fn grow(&mut self)
        requires
            old(self).wf(),
            old(self).filled_count() == old(self).leaf_capacity(),
            pow2(old(self).height() + 1) <= usize::MAX,
        ensures
            final(self).wf(),
            final(self).height() == old(self).height() + 1,
            final(self).leaf_capacity() == 2 * old(self).leaf_capacity(),
            final(self).filled_count() == old(self).filled_count(),
            forall|j: int|
                0 <= j < old(self).leaf_capacity() ==> #[trigger] final(self).leaf_at(j) == old(self).leaf_at(j),
            forall|j: int|
                old(self).leaf_capacity() <= j < final(self).leaf_capacity() ==> (
                #[trigger] final(self).leaf_at(j)) is None,
    {
        let last = self.levels.len() - 1;
        let cap = self.levels[last].len();
        let ghost pre = *self;
        proof {
            vstd::arithmetic::power2::lemma_pow2_unfold(pre.height() + 1);
        }

        // Double the leaf level with empty markers.
        let mut k: usize = 0;
        while k < cap
            invariant
                k <= cap,
                self.levels@.len() == pre.levels@.len(),
                self.filled == pre.filled,
                forall|t: int|
                    0 <= t < self.levels@.len() && t != last ==> self.levels@[t]
                        == pre.levels@[t],
                self.levels@[last as int]@.len() == cap + k,
                forall|j: int|
                    0 <= j < cap ==> #[trigger] self.levels@[last as int]@[j]
                        == pre.levels@[last as int]@[j],
                forall|j: int|
                    cap <= j < cap + k ==> (#[trigger] self.levels@[last as int]@[j]) is None,
            decreases cap - k,
        {
            self.levels[last].push(Option::None);
            k = k + 1;
        }

        // Double every internal level, bottom up.
        let mut i: usize = last;
        while i > 0
            invariant
                i <= last,
                self.levels@.len() == pre.levels@.len(),
                self.filled == pre.filled,
                forall|t: int| 0 <= t < i ==> self.levels@[t] == pre.levels@[t],
                forall|t: int|
                    i <= t <= last ==> (#[trigger] self.levels@[t]@.len()) == 2
                        * pre.levels@[t]@.len(),
                forall|t: int, j: int|
                    i <= t <= last && 0 <= j < pre.levels@[t]@.len()
                        ==> #[trigger] self.levels@[t]@[j] == pre.levels@[t]@[j],
                forall|j: int|
                    cap <= j < 2 * cap ==> (#[trigger] self.levels@[last as int]@[j]) is None,
                forall|t: int, j: int|
                    i <= t < last && pre.levels@[t]@.len() <= j < 2 * pre.levels@[t]@.len()
                        ==> #[trigger] Self::slot_parent(
                        self.levels@[t]@[j],
                        self.levels@[t + 1]@[2 * j],
                        self.levels@[t + 1]@[2 * j + 1],
                    ),
            decreases i,
        {
            proof {
                vstd::arithmetic::power2::lemma_pow2_unfold(i as nat);
                assert(pre.levels@[i as int]@.len() == pow2(i as nat));
                assert(pre.levels@[i - 1]@.len() == pow2((i - 1) as nat));
            }
            let ghost mid = *self;
            self.extend_level(i - 1);
            proof {
                assert forall|t: int, j: int|
                    i - 1 <= t < last && pre.levels@[t]@.len() <= j < 2 * pre.levels@[t]@.len()
                        implies #[trigger] Self::slot_parent(
                        self.levels@[t]@[j],
                        self.levels@[t + 1]@[2 * j],
                        self.levels@[t + 1]@[2 * j + 1],
                    ) by {
                    if t == i - 1 {
                        assert(self.levels@[t + 1] == mid.levels@[t + 1]);
                    } else {
                        assert(self.levels@[t] == mid.levels@[t]);
                        assert(self.levels@[t + 1] == mid.levels@[t + 1]);
                        assert(Self::slot_parent(
                            mid.levels@[t]@[j],
                            mid.levels@[t + 1]@[2 * j],
                            mid.levels@[t + 1]@[2 * j + 1],
                        ));
                    }
                }
            }
            i = i - 1;
        }

        // Prepend the new root level.
        let mut buf: Vec<u8> = Vec::new();
        append_slot_bytes(&mut buf, &self.levels[0][0]);
        append_slot_bytes(&mut buf, &self.levels[0][1]);
        let h = H::hash(buf.as_slice());
        let mut top: Vec<Option<Vec<u8>>> = Vec::new();
        top.push(Option::Some(h));
        let ghost mid = *self;
        self.levels.insert(0, top);
        proof {
            vstd::arithmetic::power2::lemma2_to64();
            assert forall|t: int|
                0 <= t < self.levels@.len() implies (#[trigger] self.levels@[t]@.len()) == pow2(
                t as nat,
            ) by {
                if t >= 1 {
                    let s = t - 1;
                    assert(self.levels@[t] == mid.levels@[s]);
                    vstd::arithmetic::power2::lemma_pow2_unfold(t as nat);
                }
            }
            assert forall|a: int, b: int|
                0 <= a < self.height() && 0 <= b < pow2(a as nat)
                    implies #[trigger] self.parent_holds_at(a, b) by {
                if a > 0 {
                    vstd::arithmetic::power2::lemma_pow2_unfold(a as nat);
                }
                if a == 0 {
                    assert(Self::slot_parent(
                        self.levels@[0]@[0],
                        self.levels@[1]@[0],
                        self.levels@[1]@[1],
                    ));
                } else {
                    let s = a - 1;
                    assert(self.levels@[a] == mid.levels@[s]);
                    assert(self.levels@[a + 1] == mid.levels@[s + 1]);
                    if b < pre.levels@[s]@.len() {
                        assert(mid.levels@[s]@[b] == pre.levels@[s]@[b]);
                        assert(pre.parent_holds_at(s, b));
                        pre.lemma_parent_eq_slots(s, b);
                        assert(2 * b + 1 < pre.levels@[s + 1]@.len());
                        assert(mid.levels@[s + 1]@[2 * b] == pre.levels@[s + 1]@[2 * b]);
                        assert(mid.levels@[s + 1]@[2 * b + 1] == pre.levels@[s + 1]@[2 * b + 1]);
                        assert(Self::slot_parent(
                            mid.levels@[s]@[b],
                            mid.levels@[s + 1]@[2 * b],
                            mid.levels@[s + 1]@[2 * b + 1],
                        ));
                    } else {
                        assert(Self::slot_parent(
                            mid.levels@[s]@[b],
                            mid.levels@[s + 1]@[2 * b],
                            mid.levels@[s + 1]@[2 * b + 1],
                        ));
                    }
                }
            }
            assert forall|j: int|
                0 <= j < pre.leaf_capacity() implies #[trigger] self.leaf_at(j) == pre.leaf_at(
                j,
            ) by {
                let s = self.height() - 1;
                assert(self.levels@[self.height() as int] == mid.levels@[s]);
            }
            assert forall|j: int|
                pre.leaf_capacity() <= j < self.leaf_capacity() implies (#[trigger] self.leaf_at(
                j,
            )) is None by {
                let s = self.height() - 1;
                assert(self.levels@[self.height() as int] == mid.levels@[s]);
            }
        }
    }

    /// Grow the tree, then insert: the new value lands in the first leaf of
    /// the fresh right half, and every previously filled leaf keeps its slot
    /// and its value.
    fn reseize_and_insert(&mut self, data: &[u8])
        requires
            old(self).wf(),
            old(self).filled_count() == old(self).leaf_capacity(),
            pow2(old(self).height() + 1) <= usize::MAX,
        ensures
            final(self).wf(),
            final(self).height() == old(self).height() + 1,
            final(self).leaf_capacity() == 2 * old(self).leaf_capacity(),
            final(self).filled_count() == old(self).filled_count() + 1,
            final(self).leaf_at(old(self).leaf_capacity() as int) == Option::Some(
                H::hash_spec(data@),
            ),
            forall|j: int|
                0 <= j < old(self).leaf_capacity() ==> final(self).leaf_at(j) == old(self).leaf_at(
                    j,
                ),
    {
        self.grow();
        proof {
            vstd::arithmetic::power2::lemma_pow2_unfold(self.height());
        }
        self.insert_unfilled(data);
    }

    /// Hash data with the tree's injected hashing capability.
    pub fn hash(data: &[u8]) -> (digest: Vec<u8>)
        ensures
            digest@ == H::hash_spec(data@),
    {
        H::hash(data)
    }

    /// The number of leaf slots.
    pub fn leaf_count(&self) -> (n: usize)
        requires
            self.wf(),
        ensures
            n == self.leaf_capacity(),
    {
        let last = self.levels.len() - 1;
        self.levels[last].len()
    }

    /// The root of the tree.
    pub fn root(&self) -> (r: &Vec<u8>)
        requires
            self.wf(),
        ensures
            r@ == self.root_hash(),
    {
        proof {
            assert(self.parent_holds_at(0, 0));
        }
        match &self.levels[0][0] {
            Option::Some(h) => h,
            Option::None => vstd::pervasive::unreached(),
        }
    }

    /// The Merkle combination of a sequence of leaf slots: a single slot
    /// contributes its bytes, and a longer sequence hashes the combination of
    /// its left half followed by the combination of its right half.
    pub open spec fn merkle_hash_of(leaves: Seq<Option<Seq<u8>>>) -> Seq<u8>
        decreases leaves.len(),
    {
        if leaves.len() == 0 {
            Seq::empty()
        } else if leaves.len() == 1 {
            opt_bytes(leaves[0])
        } else {
            H::hash_spec(
                Self::merkle_hash_of(leaves.subrange(0, leaves.len() as int / 2))
                    + Self::merkle_hash_of(
                    leaves.subrange(leaves.len() as int / 2, leaves.len() as int),
                ),
            )
        }
    }

    /// The hash a node carries when every leaf below it is empty: zero bytes
    /// at the leaf level itself, and at each level above, the hash of two
    /// copies of the value one level further down.
    pub open spec fn all_empty_hash(depth: nat) -> Seq<u8>
        decreases depth,
    {
        if depth == 0 {
            Seq::empty()
        } else {
            H::hash_spec(
                Self::all_empty_hash((depth - 1) as nat) + Self::all_empty_hash(
                    (depth - 1) as nat,
                ),
            )
        }
    }

    /// Every slot of a well-formed tree is the Merkle combination of the
    /// leaves below it: the slot at level `i`, index `j` stands over the
    /// `2^(height - i)` leaves starting at `j * 2^(height - i)`.
    pub proof fn lemma_node_is_merkle(self, i: int, j: int)
        requires
            self.wf(),
            0 <= i <= self.height(),
            0 <= j < pow2(i as nat),
        ensures
            self.bytes_at(i, j) == Self::merkle_hash_of(
                self.leaves_view().subrange(
                    j * pow2((self.height() - i) as nat),
                    (j + 1) * pow2((self.height() - i) as nat),
                ),
            ),
        decreases self.height() - i,
    {
        let h = self.height() as int;
        let d = (h - i) as nat;
        let w = pow2(d) as int;
        let lo = j * w;
        let hi = (j + 1) * w;
        vstd::arithmetic::power2::lemma_pow2_adds(i as nat, d);
        assert((j + 1) * w <= pow2(i as nat) * w) by (nonlinear_arith)
            requires
                j + 1 <= pow2(i as nat),
                w >= 0,
        ;
        assert(j * w >= 0) by (nonlinear_arith)
            requires
                j >= 0,
                w >= 0,
        ;
        assert(j * w + w == (j + 1) * w) by (nonlinear_arith);
        let lv = self.leaves_view();
        if i == h {
            vstd::arithmetic::power2::lemma2_to64();
            assert(w == 1);
            assert(lv.subrange(lo, hi).len() == 1);
            assert(lv.subrange(lo, hi)[0] == self.leaf_at(j));
        } else {
            vstd::arithmetic::power2::lemma_pow2_unfold(d);
            let w2 = pow2((d - 1) as nat) as int;
            assert(w == 2 * w2);
            vstd::arithmetic::power2::lemma_pow2_unfold((i + 1) as nat);
            assert(self.parent_holds_at(i, j));
            self.lemma_node_is_merkle(i + 1, 2 * j);
            self.lemma_node_is_merkle(i + 1, 2 * j + 1);
            assert(j * w == 2 * j * w2) by (nonlinear_arith)
                requires
                    w == 2 * w2,
            ;
            assert(j * w + w2 == (2 * j + 1) * w2) by (nonlinear_arith)
                requires
                    w == 2 * w2,
            ;
            assert((j + 1) * w == (2 * j + 1 + 1) * w2) by (nonlinear_arith)
                requires
                    w == 2 * w2,
            ;
            let sub = lv.subrange(lo, hi);
            assert(sub.len() == w);
            assert(sub.subrange(0, w2) =~= lv.subrange(lo, lo + w2));
            assert(sub.subrange(w2, w) =~= lv.subrange(lo + w2, hi));
            assert(Self::merkle_hash_of(sub) == H::hash_spec(
                Self::merkle_hash_of(sub.subrange(0, w2)) + Self::merkle_hash_of(
                    sub.subrange(w2, w),
                ),
            ));
        }
    }

    /// The root of a well-formed tree is the Merkle combination of its
    /// leaves: a pure function of the leaf slots alone.
    pub proof fn lemma_root_from_leaves(self)
        requires
            self.wf(),
        ensures
            self.root_hash() == Self::merkle_hash_of(self.leaves_view()),
    {
        vstd::arithmetic::power2::lemma2_to64();
        self.lemma_node_is_merkle(0, 0);
        assert(self.leaves_view().subrange(0, pow2(self.height()) as int) =~= self.leaves_view());
    }

    /// Two well-formed trees of the same height and with the same leaves have
    /// the same root, whatever their construction history: the root is
    /// deterministic in the committed contents.
    pub proof fn lemma_root_determined(t1: Self, t2: Self)
        requires
            t1.wf(),
            t2.wf(),
            t1.height() == t2.height(),
            forall|j: int|
                0 <= j < t1.leaf_capacity() ==> #[trigger] t1.leaf_at(j) == t2.leaf_at(j),
        ensures
            t1.root_hash() == t2.root_hash(),
    {
        assert(t1.leaves_view() =~= t2.leaves_view());
        t1.lemma_root_from_leaves();
        t2.lemma_root_from_leaves();
    }

    /// Freshly built trees are interchangeable: any two well-formed trees of
    /// one height whose leaves are all empty share one root value.
    pub proof fn lemma_empty_trees_same_root(t1: Self, t2: Self)
        requires
            t1.wf(),
            t2.wf(),
            t1.height() == t2.height(),
            forall|j: int| 0 <= j < t1.leaf_capacity() ==> (#[trigger] t1.leaf_at(j)) is None,
            forall|j: int| 0 <= j < t2.leaf_capacity() ==> (#[trigger] t2.leaf_at(j)) is None,
        ensures
            t1.root_hash() == t2.root_hash(),
    {
        Self::lemma_root_determined(t1, t2);
    }

    /// Every internal slot of a well-formed tree carries the hash of the
    /// concatenation of its two children's bytes.
    pub proof fn lemma_parent_rule(self, i: int, j: int)
        requires
            self.wf(),
            0 <= i < self.height(),
            0 <= j < pow2(i as nat),
        ensures
            self.slot_at(i, j) == Option::Some(
                H::hash_spec(self.bytes_at(i + 1, 2 * j) + self.bytes_at(i + 1, 2 * j + 1)),
            ),
    {
        assert(self.parent_holds_at(i, j));
    }

    /// The Merkle combination of all-empty leaves of width `2^depth` is the
    /// all-empty hash of that depth.
    proof fn lemma_merkle_all_empty(leaves: Seq<Option<Seq<u8>>>, depth: nat)
        requires
            leaves.len() == pow2(depth),
            forall|k: int| 0 <= k < leaves.len() ==> (#[trigger] leaves[k]) is None,
        ensures
            Self::merkle_hash_of(leaves) == Self::all_empty_hash(depth),
        decreases depth,
    {
        vstd::arithmetic::power2::lemma2_to64();
        if depth == 0 {
            assert(leaves.len() == 1);
        } else {
            vstd::arithmetic::power2::lemma_pow2_unfold(depth);
            let w2 = pow2((depth - 1) as nat) as int;
            Self::lemma_merkle_all_empty(leaves.subrange(0, w2), (depth - 1) as nat);
            Self::lemma_merkle_all_empty(
                leaves.subrange(w2, leaves.len() as int),
                (depth - 1) as nat,
            );
        }
    }

    /// A slot whose whole subtree is empty carries exactly the all-empty
    /// hash for its depth, after any number of operations: empty regions of
    /// the tree keep the value they were built with.
    pub proof fn lemma_empty_subtree_hash(self, i: int, j: int)
        requires
            self.wf(),
            0 <= i <= self.height(),
            0 <= j < pow2(i as nat),
            forall|l: int|
                j * pow2((self.height() - i) as nat) <= l < (j + 1) * pow2(
                    (self.height() - i) as nat,
                ) ==> (#[trigger] self.leaf_at(l)) is None,
        ensures
            self.bytes_at(i, j) == Self::all_empty_hash((self.height() - i) as nat),
    {
        let d = (self.height() - i) as nat;
        let w = pow2(d) as int;
        let lo = j * w;
        let hi = (j + 1) * w;
        vstd::arithmetic::power2::lemma_pow2_adds(i as nat, d);
        assert((j + 1) * w <= pow2(i as nat) * w) by (nonlinear_arith)
            requires
                j + 1 <= pow2(i as nat),
                w >= 0,
        ;
        assert(j * w >= 0) by (nonlinear_arith)
            requires
                j >= 0,
                w >= 0,
        ;
        assert(j * w + w == (j + 1) * w) by (nonlinear_arith);
        self.lemma_node_is_merkle(i, j);
        let sub = self.leaves_view().subrange(lo, hi);
        assert forall|k: int| 0 <= k < sub.len() implies (#[trigger] sub[k]) is None by {
            assert(sub[k] == self.leaf_at(lo + k));
        }
        Self::lemma_merkle_all_empty(sub, d);
    }

    /// A tree whose leaves are all empty carries exactly the all-empty hash
    /// of its height as root, so construction is deterministic: the root of a
    /// fresh tree depends on the height and the hash function alone.
    pub proof fn lemma_fresh_tree_root(self)
        requires
            self.wf(),
            forall|j: int| 0 <= j < self.leaf_capacity() ==> (#[trigger] self.leaf_at(j)) is None,
        ensures
            self.root_hash() == Self::all_empty_hash(self.height()),
    {
        vstd::arithmetic::power2::lemma2_to64();
        self.lemma_empty_subtree_hash(0, 0);
    }

    /// Growing a tree by one level moves every slot one level down without
    /// changing its value: as long as the leaves of the smaller tree are kept
    /// in the left half, every old node, and in particular the whole ancestor
    /// chain of every previously inserted leaf, is preserved.
    pub proof fn lemma_growth_preserves_nodes(prev: Self, grown: Self, i: int, j: int)
        requires
            prev.wf(),
            grown.wf(),
            grown.height() == prev.height() + 1,
            forall|l: int|
                0 <= l < prev.leaf_capacity() ==> #[trigger] grown.leaf_at(l) == prev.leaf_at(l),
            0 <= i <= prev.height(),
            0 <= j < pow2(i as nat),
        ensures
            grown.slot_at(i + 1, j) == prev.slot_at(i, j),
    {
        let h = prev.height() as int;
        let d = (h - i) as nat;
        let w = pow2(d) as int;
        let lo = j * w;
        let hi = (j + 1) * w;
        vstd::arithmetic::power2::lemma_pow2_adds(i as nat, d);
        assert((j + 1) * w <= pow2(i as nat) * w) by (nonlinear_arith)
            requires
                j + 1 <= pow2(i as nat),
                w >= 0,
        ;
        assert(j * w >= 0) by (nonlinear_arith)
            requires
                j >= 0,
                w >= 0,
        ;
        assert(j * w + w == (j + 1) * w) by (nonlinear_arith);
        if i == h {
            vstd::arithmetic::power2::lemma2_to64();
            assert(grown.slot_at(i + 1, j) == grown.leaf_at(j));
        } else {
            vstd::arithmetic::power2::lemma_pow2_unfold((i + 1) as nat);
            prev.lemma_node_is_merkle(i, j);
            grown.lemma_node_is_merkle(i + 1, j);
            assert(hi <= pow2(prev.height()));
            lemma_pow2_le(prev.height(), grown.height());
            assert(hi <= pow2(grown.height()));
            assert forall|k: int| 0 <= k < w implies #[trigger] grown.leaves_view().subrange(
                lo,
                hi,
            )[k] == prev.leaves_view().subrange(lo, hi)[k] by {
                assert(grown.leaves_view().subrange(lo, hi)[k] == grown.leaves_view()[lo + k]);
                assert(prev.leaves_view().subrange(lo, hi)[k] == prev.leaves_view()[lo + k]);
                assert(grown.leaves_view()[lo + k] == grown.leaf_at(lo + k));
                assert(prev.leaves_view()[lo + k] == prev.leaf_at(lo + k));
                assert(grown.leaf_at(lo + k) == prev.leaf_at(lo + k));
            }
            assert(grown.leaves_view().subrange(lo, hi) =~= prev.leaves_view().subrange(lo, hi));
            assert(grown.bytes_at(i + 1, j) == prev.bytes_at(i, j));
            assert(prev.parent_holds_at(i, j));
            assert(grown.parent_holds_at(i + 1, j));
        }
    }

    /// The slot of the leaf at `index`: its digest, or `None` while the slot
    /// is unfilled. `index` must be below the leaf capacity.
    pub fn leaf(&self, index: usize) -> (r: Option<&Vec<u8>>)
        requires
            self.wf(),
            index < self.leaf_capacity(),
        ensures
            match r {
                Option::Some(h) => self.leaf_at(index as int) == Option::Some(h@),
                Option::None => self.leaf_at(index as int) is None,
            },
    {
        let last = self.levels.len() - 1;
        match &self.levels[last][index] {
            Option::Some(h) => Option::Some(h),
            Option::None => Option::None,
        }
    }
}


} // verus!
