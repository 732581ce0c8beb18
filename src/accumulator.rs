//! An incremental Merkle accumulator: every level of the tree is kept, so that
//! adding a leaf recomputes only the last node of each level.
use crate::merkle::{
    concat_and_hash, digests_view, empty_root, next_level, parent_level, path_of, root_of, step_at,
    steps_view, Digest, ProofStep,
};
use vstd::prelude::*;

verus! {

/// The view of level `h` of a stack of levels.
pub open spec fn level_view(levels: Seq<Vec<Digest>>, h: int) -> Seq<Seq<u8>> {
    digests_view(levels[h]@)
}

/// `t2` is `t` with its last node replaced, or with one node added, and is not empty.
pub open spec fn extends_at_end(t: Seq<Seq<u8>>, t2: Seq<Seq<u8>>) -> bool {
    &&& t2.len() >= 1
    &&& (t2.len() == t.len() || t2.len() == t.len() + 1)
    &&& forall|i: int| 0 <= i < t2.len() - 1 ==> t2[i] == t[i]
}

/// Changing a level only at its end changes the level above only at its end.
proof fn lemma_parent_of_extended(t: Seq<Seq<u8>>, t2: Seq<Seq<u8>>)
    requires
        extends_at_end(t, t2),
    ensures
        extends_at_end(parent_level(t), parent_level(t2)),
{
    let upper = parent_level(t);
    let upper2 = parent_level(t2);
    assert forall|j: int| 0 <= j < upper2.len() - 1 implies upper2[j] == upper[j] by {
        assert(t2[2 * j] == t[2 * j]);
        assert(t2[2 * j + 1] == t[2 * j + 1]);
    }
}

/// A level and every level above it have the same root.
proof fn lemma_root_through_levels(levels: Seq<Vec<Digest>>, h: int)
    requires
        0 <= h < levels.len(),
        forall|i: int|
            0 <= i < levels.len() - 1 ==> #[trigger] level_view(levels, i + 1) == parent_level(
                level_view(levels, i),
            ),
        forall|i: int| 0 <= i < levels.len() - 1 ==> (#[trigger] levels[i]).len() > 1,
    ensures
        root_of(level_view(levels, 0)) == root_of(level_view(levels, h)),
    decreases h,
{
    if h > 0 {
        lemma_root_through_levels(levels, h - 1);
        let k = h - 1;
        assert(levels[k].len() > 1);
        assert(level_view(levels, k + 1) == parent_level(level_view(levels, k)));
    }
}

/// The levels of a Merkle tree, leaves first, each the parent level of the one below,
/// up to a top level of at most one node.
pub struct MerkleAccumulator {
    levels: Vec<Vec<Digest>>,
}

impl MerkleAccumulator {
    /// The leaf digests, in order.
    pub closed spec fn leaves_view(&self) -> Seq<Seq<u8>> {
        level_view(self.levels@, 0)
    }

    /// Each level is the parent level of the one below; only the top holds at most
    /// one node, and it is empty only when there are no leaves.
    pub closed spec fn wf(&self) -> bool {
        let n = self.levels.len();
        &&& n >= 1
        &&& forall|i: int|
            0 <= i < n - 1 ==> #[trigger] level_view(self.levels@, i + 1) == parent_level(
                level_view(self.levels@, i),
            )
        &&& forall|i: int| 0 <= i < n - 1 ==> (#[trigger] self.levels@[i]).len() > 1
        &&& self.levels@[n - 1].len() <= 1
        &&& (self.levels@[n - 1].len() == 0 ==> n == 1)
    }

    /// The node on the top level; the all-zero digest when there are no leaves.
    pub closed spec fn root_view(&self) -> Seq<u8> {
        let top = level_view(self.levels@, self.levels.len() - 1);
        if top.len() == 0 {
            empty_root()
        } else {
            top[0]
        }
    }

    /// The top node kept by the accumulator is the root computed from scratch
    /// over its leaves.
    pub proof fn lemma_root_view_is_root(&self)
        requires
            self.wf(),
        ensures
            self.root_view() == root_of(self.leaves_view()),
    {
        lemma_root_through_levels(self.levels@, self.levels.len() - 1);
    }

    /// An accumulator over no leaves.
    pub fn new() -> (r: MerkleAccumulator)
        ensures
            r.wf(),
            r.leaves_view() == Seq::<Seq<u8>>::empty(),
    {
        let mut levels: Vec<Vec<Digest>> = Vec::new();
        levels.push(Vec::new());
        let r = MerkleAccumulator { levels };
        assert(r.leaves_view() =~= Seq::<Seq<u8>>::empty());
        r
    }

    /// The leaf digests.
    pub fn leaves(&self) -> (r: &Vec<Digest>)
        requires
            self.wf(),
        ensures
            digests_view(r@) == self.leaves_view(),
    {
        &self.levels[0]
    }

    /// The root over the leaves; the all-zero digest when there are none.
    pub fn root(&self) -> (r: Digest)
        requires
            self.wf(),
        ensures
            r@ == self.root_view(),
            r@ == root_of(self.leaves_view()),
    {
        let top = self.levels.len() - 1;
        proof {
            self.lemma_root_view_is_root();
        }
        if self.levels[top].len() == 0 {
            let z: Digest = [0u8; 32];
            assert(z@ =~= crate::merkle::empty_root());
            z
        } else {
            self.levels[top][0]
        }
    }

    /// The membership proof of leaf `index`, read off the kept levels.
    pub fn prove(&self, index: usize) -> (r: Vec<ProofStep>)
        requires
            self.wf(),
            index < self.leaves_view().len(),
        ensures
            steps_view(r@) == path_of(self.leaves_view(), index as int),
    {
        let top = self.levels.len() - 1;
        let mut h: usize = 0;
        let mut i: usize = index;
        let mut out: Vec<ProofStep> = Vec::new();
        assert(steps_view(out@) + path_of(self.leaves_view(), i as int) =~= path_of(
            self.leaves_view(),
            index as int,
        ));
        while h < top
            invariant
                self.wf(),
                top == self.levels.len() - 1,
                h <= top,
                i < self.levels@[h as int].len(),
                steps_view(out@) + path_of(level_view(self.levels@, h as int), i as int) == path_of(
                    self.leaves_view(),
                    index as int,
                ),
            decreases top - h,
        {
            let ghost lv = level_view(self.levels@, h as int);
            assert(self.levels@[h as int].len() > 1);
            let len = self.levels[h].len();
            let step = if i % 2 == 1 {
                ProofStep { sibling: self.levels[h][i - 1], sibling_on_left: true }
            } else if i + 1 < len {
                ProofStep { sibling: self.levels[h][i + 1], sibling_on_left: false }
            } else {
                ProofStep { sibling: self.levels[h][i], sibling_on_left: false }
            };
            let ghost prev = steps_view(out@);
            out.push(step);
            assert(steps_view(out@) =~= prev.push(step_at(lv, i as int)));
            assert(level_view(self.levels@, h + 1) == parent_level(lv));
            assert(path_of(lv, i as int) =~= seq![step_at(lv, i as int)] + path_of(
                level_view(self.levels@, h + 1),
                (i / 2) as int,
            ));
            assert(steps_view(out@) + path_of(level_view(self.levels@, h + 1), (i / 2) as int) =~= prev
                + path_of(lv, i as int));
            h += 1;
            i = i / 2;
        }
        assert(path_of(level_view(self.levels@, h as int), i as int) =~= Seq::empty());
        assert(steps_view(out@) =~= steps_view(out@) + path_of(
            level_view(self.levels@, h as int),
            i as int,
        ));
        out
    }

    /// Adds a leaf, recomputing the last node of each level.
    pub fn push(&mut self, leaf: Digest)
        requires
            old(self).wf(),
        ensures
            final(self).wf(),
            final(self).leaves_view() == old(self).leaves_view().push(leaf@),
    {
        let ghost old_levels = self.levels@;
        let mut bottom = self.levels.remove(0);
        bottom.push(leaf);
        self.levels.insert(0, bottom);
        assert(level_view(self.levels@, 0) =~= level_view(old_levels, 0).push(leaf@));
        let mut h: usize = 0;
        while self.levels[h].len() > 1
            invariant
                old_levels.len() >= 1,
                forall|i: int|
                    0 <= i < old_levels.len() - 1 ==> #[trigger] level_view(old_levels, i + 1)
                        == parent_level(level_view(old_levels, i)),
                forall|i: int| 0 <= i < old_levels.len() - 1 ==> (#[trigger] old_levels[i]).len() > 1,
                old_levels[old_levels.len() - 1].len() <= 1,
                h < self.levels.len(),
                self.levels.len() == old_levels.len() || (self.levels.len() == old_levels.len() + 1
                    && h == self.levels.len() - 1),
                level_view(self.levels@, 0) == level_view(old_levels, 0).push(leaf@),
                forall|i: int|
                    0 <= i < h ==> #[trigger] level_view(self.levels@, i + 1) == parent_level(
                        level_view(self.levels@, i),
                    ),
                forall|i: int| 0 <= i < h ==> (#[trigger] self.levels@[i]).len() > 1,
                forall|i: int| h < i < self.levels.len() ==> #[trigger] self.levels@[i] == old_levels[i],
                h < old_levels.len() ==> extends_at_end(
                    level_view(old_levels, h as int),
                    level_view(self.levels@, h as int),
                ),
                h >= old_levels.len() ==> self.levels@[h as int].len() == 1,
            decreases old_levels.len() + 1 - h,
        {
            let ghost before = self.levels@;
            if h + 1 == self.levels.len() {
                let up = next_level(&self.levels[h]);
                let ghost up_view = up@;
                self.levels.push(up);
                assert(self.levels@[h as int] == before[h as int]);
                assert(self.levels@[h + 1]@ == up_view);
                assert(level_view(self.levels@, h + 1) == parent_level(level_view(self.levels@, h as int)));
            } else {
                let mut up = self.levels.remove(h + 1);
                let len = self.levels[h].len();
                let c: usize = len / 2 + len % 2;
                let j: usize = c - 1;
                let left = self.levels[h][2 * j];
                let right = if 2 * j + 1 < len {
                    self.levels[h][2 * j + 1]
                } else {
                    self.levels[h][2 * j]
                };
                let node = concat_and_hash(&left, &right);
                proof {
                    lemma_parent_of_extended(
                        level_view(old_levels, h as int),
                        level_view(self.levels@, h as int),
                    );
                    assert(level_view(old_levels, h + 1) == parent_level(
                        level_view(old_levels, h as int),
                    ));
                }
                let ghost old_up = up@;
                if up.len() == c {
                    up.pop();
                }
                up.push(node);
                assert(digests_view(up@) =~= parent_level(level_view(self.levels@, h as int)));
                let ghost up_view = up@;
                self.levels.insert(h + 1, up);
                assert(self.levels@[h as int] == before[h as int]);
                assert(self.levels@[h + 1]@ == up_view);
                assert(level_view(self.levels@, h + 1) == parent_level(level_view(self.levels@, h as int)));
            }
            assert forall|i: int| 0 <= i <= h implies #[trigger] level_view(self.levels@, i + 1)
                == parent_level(level_view(self.levels@, i)) by {
                if i < h {
                    assert(self.levels@[i] == before[i]);
                    assert(self.levels@[i + 1] == before[i + 1]);
                    assert(level_view(before, i + 1) == parent_level(level_view(before, i)));
                } else {
                    assert(i == h);
                }
            }
            assert forall|i: int| 0 <= i <= h implies (#[trigger] self.levels@[i]).len() > 1 by {
                if i < h {
                    assert(self.levels@[i] == before[i]);
                }
            }
            assert forall|i: int| h + 1 < i < self.levels.len() implies #[trigger] self.levels@[i]
                == old_levels[i] by {
                assert(self.levels@[i] == before[i]);
            }
            assert(self.levels@[0] == before[0]);
            h += 1;
        }
        assert(h == self.levels.len() - 1);
    }
}

} // verus!
