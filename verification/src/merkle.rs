//! A binary hash tree over an ordered batch of byte records, with compact
//! membership proofs.
//!
//! Level 0 holds the digest of each record in input order. Each further
//! level pairs consecutive digests and hashes each concatenation; an odd
//! trailing digest is promoted unchanged (not duplicated). The last level
//! holds the single root digest.

use crate::hashing::{bytes_eq, copy_bytes, push_all, sha256, sha256_of};
use vstd::prelude::*;

verus! {

/// The two precondition violations the tree reports.
#[derive(Debug, Clone, Copy, PartialEq, Eq, Structural)]
pub enum HashTreeError {
    /// A tree was requested over an empty record batch.
    EmptyInputError,
    /// A proof was requested for an index with no leaf.
    IndexOutOfRangeError,
}

/// The byte sequences held by a vector of byte vectors, in order.
pub open spec fn rows_view(rows: Seq<Vec<u8>>) -> Seq<Seq<u8>> {
    Seq::new(rows.len(), |i: int| rows[i]@)
}

/// Every digest in `level` is 32 bytes, the fixed size of a SHA-256 digest.
pub open spec fn digests_sized(level: Seq<Seq<u8>>) -> bool {
    forall|i: int| 0 <= i < level.len() ==> (#[trigger] level[i]).len() == 32
}

/// The digest of an internal node: the hash of the two children in order.
pub open spec fn hash_pair(left: Seq<u8>, right: Seq<u8>) -> Seq<u8> {
    sha256_of(left + right)
}

/// Level 0 of the tree: the digest of each record, in input order.
pub open spec fn leaf_hashes(records: Seq<Seq<u8>>) -> Seq<Seq<u8>> {
    Seq::new(records.len(), |i: int| sha256_of(records[i]))
}

/// The level above `level`: consecutive pairs hashed together, and an odd
/// trailing digest promoted unchanged.
pub open spec fn parent_level(level: Seq<Seq<u8>>) -> Seq<Seq<u8>> {
    Seq::new(
        (level.len() + 1) / 2,
        |j: int|
            if 2 * j + 1 < level.len() {
                hash_pair(level[2 * j], level[2 * j + 1])
            } else {
                level[2 * j]
            },
    )
}

/// The root digest reached by repeatedly forming parent levels.
pub open spec fn root_of(level: Seq<Seq<u8>>) -> Seq<u8>
    recommends
        level.len() >= 1,
    decreases level.len(),
{
    if level.len() <= 1 {
        level[0]
    } else {
        root_of(parent_level(level))
    }
}

/// One step of a membership proof: a sibling digest and on which side of
/// the running digest it stands.
pub struct ProofStep {
    pub sibling: Vec<u8>,
    pub sibling_on_right: bool,
}

/// The mathematical content of a step sequence.
pub open spec fn steps_view(steps: Seq<ProofStep>) -> Seq<(Seq<u8>, bool)> {
    Seq::new(steps.len(), |i: int| (steps[i].sibling@, steps[i].sibling_on_right))
}

/// Replays proof steps from a starting digest: each step hashes the running
/// digest with the sibling, in the recorded order. A level crossed by
/// promotion contributes no step, so the running digest passes through it
/// unchanged.
pub open spec fn replay(current: Seq<u8>, steps: Seq<(Seq<u8>, bool)>) -> Seq<u8>
    decreases steps.len(),
{
    if steps.len() == 0 {
        current
    } else {
        let next = if steps[0].1 {
            hash_pair(current, steps[0].0)
        } else {
            hash_pair(steps[0].0, current)
        };
        replay(next, steps.skip(1))
    }
}

/// Replaying one more step applies that step to the digest the earlier
/// steps reach.
pub proof fn lemma_replay_push(current: Seq<u8>, steps: Seq<(Seq<u8>, bool)>, step: (Seq<u8>, bool))
    ensures
        replay(current, steps.push(step)) == (if step.1 {
            hash_pair(replay(current, steps), step.0)
        } else {
            hash_pair(step.0, replay(current, steps))
        }),
    decreases steps.len(),
{
    if steps.len() == 0 {
        reveal_with_fuel(replay, 2);
        assert(steps.push(step).skip(1) =~= steps);
    } else {
        assert(steps.push(step).skip(1) =~= steps.skip(1).push(step));
        let next = if steps[0].1 {
            hash_pair(current, steps[0].0)
        } else {
            hash_pair(steps[0].0, current)
        };
        lemma_replay_push(next, steps.skip(1), step);
    }
}

/// The sibling steps a membership proof records for a node at position
/// `idx` of level `k`, read off the tree's levels upward: the node's
/// sibling where it has one, nothing where the node is an unpaired trailing
/// one, until the root level.
pub open spec fn path_steps(tree: MerkleTree, k: int, idx: int) -> Seq<(Seq<u8>, bool)>
    decreases tree.num_levels() - k,
{
    if k < 0 || k >= tree.num_levels() - 1 {
        Seq::empty()
    } else {
        let lv = tree.level_view(k);
        let here = if idx % 2 == 1 {
            seq![(lv[idx - 1], false)]
        } else if idx + 1 < lv.len() {
            seq![(lv[idx + 1], true)]
        } else {
            Seq::empty()
        };
        here + path_steps(tree, k + 1, idx / 2)
    }
}

/// Every sibling digest a path records is 32 bytes: each is a digest
/// stored in one of the tree's levels.
pub proof fn lemma_path_steps_sized(tree: MerkleTree, k: int, idx: int)
    requires
        tree.wf(),
        k >= 0,
        k < tree.num_levels() - 1 ==> 0 <= idx < tree.level_view(k).len(),
    ensures
        forall|t: int|
            0 <= t < path_steps(tree, k, idx).len() ==> (#[trigger] path_steps(tree, k, idx)[t]).0.len()
                == 32,
    decreases tree.num_levels() - k,
{
    if 0 <= k && k < tree.num_levels() - 1 {
        let lv = tree.level_view(k);
        lemma_parent_index(lv, idx);
        assert(parent_level(lv) == tree.level_view(k + 1));
        lemma_path_steps_sized(tree, k + 1, idx / 2);
        let rest = path_steps(tree, k + 1, idx / 2);
        let whole = path_steps(tree, k, idx);
        assert forall|t: int| 0 <= t < whole.len() implies (#[trigger] whole[t]).0.len() == 32 by {
            if idx % 2 == 1 {
                if t == 0 {
                    assert(lv[idx - 1].len() == 32);
                } else {
                    assert(whole[t] == rest[t - 1]);
                }
            } else if idx + 1 < lv.len() {
                if t == 0 {
                    assert(lv[idx + 1].len() == 32);
                } else {
                    assert(whole[t] == rest[t - 1]);
                }
            } else {
                assert(whole[t] == rest[t]);
            }
        }
    }
}

/// How `path_steps` unfolds one level: the recorded step is the sibling
/// where the node has one, and nothing where it is an unpaired trailing
/// node; the walk continues at the parent's position.
proof fn lemma_path_unfold(tree: MerkleTree, k: int, idx: int)
    requires
        0 <= k < tree.num_levels() - 1,
        0 <= idx < tree.level_view(k).len(),
    ensures
        idx % 2 == 1 ==> path_steps(tree, k, idx) == seq![(tree.level_view(k)[idx - 1], false)]
            + path_steps(tree, k + 1, idx / 2),
        idx % 2 == 0 && idx + 1 < tree.level_view(k).len() ==> path_steps(tree, k, idx) == seq![
            (tree.level_view(k)[idx + 1], true),
        ] + path_steps(tree, k + 1, idx / 2),
        idx % 2 == 0 && idx + 1 >= tree.level_view(k).len() ==> path_steps(tree, k, idx)
            == path_steps(tree, k + 1, idx / 2),
{
    assert(Seq::<(Seq<u8>, bool)>::empty() + path_steps(tree, k + 1, idx / 2) =~= path_steps(
        tree,
        k + 1,
        idx / 2,
    ));
}

/// Concatenation after a push regroups to the right.
proof fn lemma_push_concat(
    acc: Seq<(Seq<u8>, bool)>,
    sv: (Seq<u8>, bool),
    rest: Seq<(Seq<u8>, bool)>,
)
    ensures
        acc.push(sv) + rest == acc + (seq![sv] + rest),
{
    assert(acc.push(sv) + rest =~= acc + (seq![sv] + rest));
}

/// Appending a step extends the step sequence's view pointwise.
proof fn lemma_steps_view_push(before: Seq<ProofStep>, step: ProofStep)
    ensures
        steps_view(before.push(step)) == steps_view(before).push(
            (step.sibling@, step.sibling_on_right),
        ),
{
    assert(steps_view(before.push(step)) =~= steps_view(before).push(
        (step.sibling@, step.sibling_on_right),
    ));
}

/// How a node at position `idx` of a level meets the parent level: its
/// parent stands at `idx / 2` and is the pair hash — or the node itself,
/// when the node is an unpaired trailing one.
proof fn lemma_parent_index(lv: Seq<Seq<u8>>, idx: int)
    requires
        0 <= idx < lv.len(),
    ensures
        0 <= idx / 2 < parent_level(lv).len(),
        idx % 2 == 1 ==> parent_level(lv)[idx / 2] == hash_pair(lv[idx - 1], lv[idx]),
        idx % 2 == 0 && idx + 1 < lv.len() ==> parent_level(lv)[idx / 2] == hash_pair(
            lv[idx],
            lv[idx + 1],
        ),
        idx % 2 == 0 && idx + 1 >= lv.len() ==> parent_level(lv)[idx / 2] == lv[idx],
{
    assert(idx == 2 * (idx / 2) + idx % 2);
}

/// Hashes every record, preserving order: the leaf level of the tree.
fn hash_all(data: &Vec<Vec<u8>>) -> (hashed: Vec<Vec<u8>>)
    ensures
        rows_view(hashed@) == leaf_hashes(rows_view(data@)),
        digests_sized(rows_view(hashed@)),
{
    let ghost records = rows_view(data@);
    let mut hashed: Vec<Vec<u8>> = Vec::new();
    let mut i: usize = 0;
    while i < data.len()
        invariant
            i <= data@.len(),
            records == rows_view(data@),
            rows_view(hashed@) == leaf_hashes(records).take(i as int),
            digests_sized(rows_view(hashed@)),
        decreases data@.len() - i,
    {
        let digest = sha256(&data[i]);
        let ghost before = hashed@;
        hashed.push(digest);
        proof {
            assert(records[i as int] == data@[i as int]@);
            assert(rows_view(before.push(digest)) =~= rows_view(before).push(digest@));
            assert(leaf_hashes(records).take(i as int + 1) =~= leaf_hashes(records).take(
                i as int,
            ).push(sha256_of(records[i as int])));
        }
        i = i + 1;
    }
    proof {
        assert(leaf_hashes(records).take(data@.len() as int) =~= leaf_hashes(records));
    }
    hashed
}

/// Builds the level above `last`: hashes consecutive pairs and promotes an
/// odd trailing digest unchanged.
fn build_parent_level(last: &Vec<Vec<u8>>) -> (next: Vec<Vec<u8>>)
    requires
        digests_sized(rows_view(last@)),
    ensures
        rows_view(next@) == parent_level(rows_view(last@)),
        digests_sized(rows_view(next@)),
{
    let ghost lastv = rows_view(last@);
    let mut next: Vec<Vec<u8>> = Vec::new();
    let mut j: usize = 0;
    while j + 1 < last.len()
        invariant
            lastv == rows_view(last@),
            digests_sized(lastv),
            j % 2 == 0,
            j <= lastv.len(),
            rows_view(next@) == parent_level(lastv).take(j as int / 2),
            digests_sized(rows_view(next@)),
        decreases lastv.len() - j,
    {
        let mut combined: Vec<u8> = Vec::new();
        push_all(&mut combined, &last[j]);
        push_all(&mut combined, &last[j + 1]);
        let parent = sha256(&combined);
        let ghost before = next@;
        next.push(parent);
        proof {
            assert(combined@ =~= lastv[j as int] + lastv[j as int + 1]);
            assert(2 * (j as int / 2) == j as int);
            assert(parent_level(lastv)[j as int / 2] == hash_pair(
                lastv[j as int],
                lastv[j as int + 1],
            ));
            assert(rows_view(before.push(parent)) =~= rows_view(before).push(parent@));
            assert(parent_level(lastv).take(j as int / 2 + 1) =~= parent_level(lastv).take(
                j as int / 2,
            ).push(parent_level(lastv)[j as int / 2]));
        }
        j = j + 2;
    }
    if j < last.len() {
        let promoted = copy_bytes(&last[j]);
        let ghost before = next@;
        next.push(promoted);
        proof {
            assert(2 * (j as int / 2) == j as int);
            assert(parent_level(lastv)[j as int / 2] == lastv[j as int]);
            assert(rows_view(before.push(promoted)) =~= rows_view(before).push(promoted@));
            assert(parent_level(lastv).take(j as int / 2 + 1) =~= parent_level(lastv).take(
                j as int / 2,
            ).push(parent_level(lastv)[j as int / 2]));
            assert(parent_level(lastv).take(j as int / 2 + 1) =~= parent_level(lastv));
        }
    } else {
        proof {
            assert(parent_level(lastv).take(j as int / 2) =~= parent_level(lastv));
        }
    }
    next
}

/// A binary hash tree over an ordered record batch, immutable once built.
pub struct MerkleTree {
    levels: Vec<Vec<Vec<u8>>>,
    root: Vec<u8>,
    leaf_count: usize,
}

impl MerkleTree {
    /// How many levels the tree has, the leaf level and the root level included.
    pub closed spec fn num_levels(self) -> nat {
        self.levels@.len()
    }

    /// The digests stored at level `k`.
    pub closed spec fn level_view(self, k: int) -> Seq<Seq<u8>> {
        rows_view(self.levels@[k]@)
    }

    /// The leaf digests, one per record, in input order.
    pub open spec fn leaves(self) -> Seq<Seq<u8>> {
        self.level_view(0)
    }

    /// The stored root digest.
    pub closed spec fn root_view(self) -> Seq<u8> {
        self.root@
    }

    /// Structural soundness: level 0 is non-empty, every level above is the
    /// parent level of the one below, and the last level holds exactly the
    /// stored root.
    pub closed spec fn wf(self) -> bool {
        &&& self.num_levels() >= 1
        &&& self.leaves().len() >= 1
        &&& (forall|k: int|
            0 <= k < self.num_levels() - 1 ==> (#[trigger] self.level_view(k)).len() >= 2)
        &&& (forall|k: int|
            0 <= k < self.num_levels() - 1 ==> parent_level(#[trigger] self.level_view(k))
                == self.level_view(k + 1))
        &&& self.level_view(self.num_levels() - 1).len() == 1
        &&& self.root_view() == self.level_view(self.num_levels() - 1)[0]
        &&& self.leaf_count == self.leaves().len()
        &&& (forall|k: int| 0 <= k < self.num_levels() ==> digests_sized(#[trigger] self.level_view(k)))
    }

    /// Law (tree shape): what well-formedness guarantees of the stored
    /// levels, stated for every caller. Level 0 holds one digest per
    /// record; each level above is the parent level of the one below
    /// (pairs hashed, odd tail promoted), so its length is half the one
    /// below, rounded up; every level but the last holds at least two
    /// digests; the last holds exactly the stored root; every digest is
    /// 32 bytes.
    pub proof fn lemma_structure(self)
        requires
            self.wf(),
        ensures
            self.num_levels() >= 1,
            self.leaves() == self.level_view(0),
            self.leaves().len() >= 1,
            (forall|k: int|
                0 <= k < self.num_levels() - 1 ==> (#[trigger] self.level_view(k)).len() >= 2),
            (forall|k: int|
                0 <= k < self.num_levels() - 1 ==> parent_level(#[trigger] self.level_view(k))
                    == self.level_view(k + 1)),
            self.level_view(self.num_levels() - 1).len() == 1,
            self.root_view() == self.level_view(self.num_levels() - 1)[0],
            self.root_view().len() == 32,
            (forall|k: int|
                0 <= k < self.num_levels() ==> digests_sized(#[trigger] self.level_view(k))),
    {
        assert(self.level_view(self.num_levels() - 1)[0].len() == 32);
    }

    /// In a well-formed tree, folding any level to its root yields the
    /// stored root digest.
    proof fn lemma_root_reaches(self, k: int)
        requires
            self.wf(),
            0 <= k < self.num_levels(),
        ensures
            root_of(self.level_view(k)) == self.root_view(),
        decreases self.num_levels() - k,
    {
        if k == self.num_levels() - 1 {
        } else {
            assert(parent_level(self.level_view(k)) == self.level_view(k + 1));
            self.lemma_root_reaches(k + 1);
        }
    }

    /// Builds the tree over `data`. Fails only on an empty batch.
    pub fn new(data: &Vec<Vec<u8>>) -> (result: Result<MerkleTree, HashTreeError>)
        ensures
            result is Ok <==> data@.len() > 0,
            (result matches Err(e) ==> e == HashTreeError::EmptyInputError),
            (result matches Ok(tree) ==> {
                &&& tree.wf()
                &&& tree.leaves() == leaf_hashes(rows_view(data@))
                &&& tree.root_view() == root_of(leaf_hashes(rows_view(data@)))
                &&& tree.root_view().len() == 32
            }),
    {
        if data.len() == 0 {
            return Err(HashTreeError::EmptyInputError);
        }
        let ghost records = rows_view(data@);
        let leaf_level = hash_all(data);
        let leaf_count = leaf_level.len();
        proof {
            assert(rows_view(leaf_level@).len() == leaf_level@.len());
            assert(leaf_hashes(records).len() == records.len());
        }
        let mut levels: Vec<Vec<Vec<u8>>> = Vec::new();
        levels.push(leaf_level);
        while levels[levels.len() - 1].len() > 1
            invariant
                levels@.len() >= 1,
                rows_view(levels@[0]@) == leaf_hashes(records),
                leaf_hashes(records).len() == leaf_count,
                leaf_count >= 1,
                (forall|k: int|
                    0 <= k < levels@.len() - 1 ==> (#[trigger] rows_view(levels@[k]@)).len() >= 2),
                (forall|k: int|
                    0 <= k < levels@.len() - 1 ==> parent_level(#[trigger] rows_view(levels@[k]@))
                        == rows_view(levels@[k + 1]@)),
                (forall|k: int|
                    0 <= k < levels@.len() ==> digests_sized(#[trigger] rows_view(levels@[k]@))),
                rows_view(levels@[levels@.len() - 1]@).len() >= 1,
            decreases levels@[levels@.len() - 1]@.len(),
        {
            let last_idx = levels.len() - 1;
            let next = build_parent_level(&levels[last_idx]);
            let ghost before = levels@;
            levels.push(next);
            proof {
                assert forall|k: int| 0 <= k < levels@.len() - 1 implies parent_level(
                    #[trigger] rows_view(levels@[k]@),
                ) == rows_view(levels@[k + 1]@) by {
                    if k < before.len() - 1 {
                        assert(levels@[k] == before[k]);
                        assert(levels@[k + 1] == before[k + 1]);
                    } else {
                        assert(levels@[k] == before[k]);
                        assert(levels@[k + 1] == next);
                    }
                }
                assert forall|k: int| 0 <= k < levels@.len() implies digests_sized(
                    #[trigger] rows_view(levels@[k]@),
                ) by {
                    if k < before.len() {
                        assert(levels@[k] == before[k]);
                    } else {
                        assert(levels@[k] == next);
                    }
                }
            }
        }
        let root = copy_bytes(&levels[levels.len() - 1][0]);
        let tree = MerkleTree { levels, root, leaf_count };
        proof {
            assert(tree.wf());
            tree.lemma_root_reaches(0);
            assert(tree.level_view(tree.num_levels() - 1)[0].len() == 32);
        }
        Ok(tree)
    }

    /// The root digest committing to the whole batch.
    pub fn root_hash(&self) -> (root: &Vec<u8>)
        ensures
            root@ == self.root_view(),
            self.wf() ==> root@.len() == 32,
    {
        proof {
            if self.wf() {
                assert(self.level_view(self.num_levels() - 1)[0].len() == 32);
            }
        }
        &self.root
    }

    /// How many levels the tree has.
    pub fn level_count(&self) -> (n: usize)
        ensures
            n == self.num_levels(),
    {
        self.levels.len()
    }

    /// How many digests stand at level `level`.
    pub fn level_len(&self, level: usize) -> (n: usize)
        requires
            level < self.num_levels(),
        ensures
            n == self.level_view(level as int).len(),
    {
        self.levels[level].len()
    }

    /// How many leaves (records) the tree commits to.
    pub fn leaf_count(&self) -> (n: usize)
        requires
            self.wf(),
        ensures
            n == self.leaves().len(),
    {
        self.leaf_count
    }

    /// Produces a membership proof for the leaf at `leaf_index`. Fails only
    /// when that index has no leaf.
    #[verifier::rlimit(100)]
    #[verifier::spinoff_prover]
    pub fn generate_proof(&self, leaf_index: usize) -> (result: Result<
        MerkleProof,
        HashTreeError,
    >)
        requires
            self.wf(),
        ensures
            result is Ok <==> leaf_index < self.leaves().len(),
            (result matches Err(e) ==> e == HashTreeError::IndexOutOfRangeError),
            (result matches Ok(pf) ==> {
                &&& pf.leaf_hash@ == self.leaves()[leaf_index as int]
                &&& pf.root_hash@ == self.root_view()
                &&& replay(pf.leaf_hash@, steps_view(pf.steps@)) == self.root_view()
                &&& steps_view(pf.steps@) == path_steps(*self, 0, leaf_index as int)
                &&& pf.steps@.len() < self.num_levels()
                &&& pf.leaf_hash@.len() == 32
                &&& pf.root_hash@.len() == 32
                &&& (forall|t: int|
                    0 <= t < steps_view(pf.steps@).len() ==> (#[trigger] steps_view(
                        pf.steps@,
                    )[t]).0.len() == 32)
            }),
    {
        if leaf_index >= self.leaf_count {
            return Err(HashTreeError::IndexOutOfRangeError);
        }
        let ghost leaf = self.leaves()[leaf_index as int];
        let mut steps: Vec<ProofStep> = Vec::new();
        let mut idx: usize = leaf_index;
        let mut level: usize = 0;
        proof {
            assert(steps_view(steps@) + path_steps(*self, 0, leaf_index as int) =~= path_steps(
                *self,
                0,
                leaf_index as int,
            ));
        }
        while level < self.levels.len() - 1
            invariant
                self.wf(),
                level < self.num_levels(),
                idx < self.level_view(level as int).len(),
                replay(leaf, steps_view(steps@)) == self.level_view(level as int)[idx as int],
                steps_view(steps@) + path_steps(*self, level as int, idx as int) == path_steps(
                    *self,
                    0,
                    leaf_index as int,
                ),
                steps@.len() <= level,
            decreases self.num_levels() - level,
        {
            let ghost lv = self.level_view(level as int);
            let ghost before = steps@;
            let level_nodes = &self.levels[level];
            proof {
                assert(parent_level(lv) == self.level_view(level as int + 1));
                lemma_parent_index(lv, idx as int);
                lemma_path_unfold(*self, level as int, idx as int);
            }
            if idx % 2 == 1 {
                let step = ProofStep {
                    sibling: copy_bytes(&level_nodes[idx - 1]),
                    sibling_on_right: false,
                };
                let ghost sv = (step.sibling@, step.sibling_on_right);
                steps.push(step);
                proof {
                    lemma_steps_view_push(before, step);
                    lemma_replay_push(leaf, steps_view(before), sv);
                    lemma_push_concat(
                        steps_view(before),
                        sv,
                        path_steps(*self, level as int + 1, idx as int / 2),
                    );
                }
            } else if idx + 1 < level_nodes.len() {
                let step = ProofStep {
                    sibling: copy_bytes(&level_nodes[idx + 1]),
                    sibling_on_right: true,
                };
                let ghost sv = (step.sibling@, step.sibling_on_right);
                steps.push(step);
                proof {
                    lemma_steps_view_push(before, step);
                    lemma_replay_push(leaf, steps_view(before), sv);
                    lemma_push_concat(
                        steps_view(before),
                        sv,
                        path_steps(*self, level as int + 1, idx as int / 2),
                    );
                }
            }
            idx = idx / 2;
            level = level + 1;
        }
        proof {
            assert(level == self.num_levels() - 1);
            assert(idx == 0);
            assert(steps_view(steps@) + path_steps(*self, level as int, idx as int) =~= steps_view(
                steps@,
            ));
            assert(self.leaves()[leaf_index as int].len() == 32);
            assert(self.level_view(self.num_levels() - 1)[0].len() == 32);
            lemma_path_steps_sized(*self, 0, leaf_index as int);
            assert forall|t: int| 0 <= t < steps_view(steps@).len() implies (#[trigger] steps_view(
                steps@,
            )[t]).0.len() == 32 by {
                assert(steps_view(steps@)[t] == path_steps(*self, 0, leaf_index as int)[t]);
            }
        }
        let out = MerkleProof {
            steps,
            leaf_hash: copy_bytes(&self.levels[0][leaf_index]),
            root_hash: copy_bytes(&self.root),
        };
        Ok(out)
    }
}

/// A proof that one record stands at a given leaf position of a tree:
/// sibling steps from the leaf level upward, with the claimed leaf and root
/// digests. It carries copies, so it outlives the tree it came from.
pub struct MerkleProof {
    pub steps: Vec<ProofStep>,
    pub leaf_hash: Vec<u8>,
    pub root_hash: Vec<u8>,
}

impl MerkleProof {
    /// What acceptance means: the record hashes to the stored leaf digest,
    /// and replaying the sibling steps from that digest reaches the stored
    /// root digest.
    pub open spec fn accepts(self, record: Seq<u8>) -> bool {
        &&& sha256_of(record) == self.leaf_hash@
        &&& replay(self.leaf_hash@, steps_view(self.steps@)) == self.root_hash@
    }

    /// Checks `record` against the proof. Never fails: every mismatch —
    /// wrong record, wrong root, tampered step — comes back as `false`.
    pub fn verify(&self, record: &Vec<u8>) -> (accepted: bool)
        ensures
            accepted == self.accepts(record@),
    {
        let record_hash = sha256(record);
        if !bytes_eq(&record_hash, &self.leaf_hash) {
            return false;
        }
        let mut current = record_hash;
        let mut k: usize = 0;
        while k < self.steps.len()
            invariant
                k <= self.steps@.len(),
                current@ == replay(self.leaf_hash@, steps_view(self.steps@).take(k as int)),
            decreases self.steps@.len() - k,
        {
            let step = &self.steps[k];
            let mut combined: Vec<u8> = Vec::new();
            if step.sibling_on_right {
                push_all(&mut combined, &current);
                push_all(&mut combined, &step.sibling);
            } else {
                push_all(&mut combined, &step.sibling);
                push_all(&mut combined, &current);
            }
            proof {
                let sv = steps_view(self.steps@);
                lemma_replay_push(self.leaf_hash@, sv.take(k as int), sv[k as int]);
                assert(sv.take(k as int).push(sv[k as int]) =~= sv.take(k as int + 1));
                assert(combined@ =~= (if step.sibling_on_right {
                    current@ + step.sibling@
                } else {
                    step.sibling@ + current@
                }));
            }
            current = sha256(&combined);
            k = k + 1;
        }
        proof {
            assert(steps_view(self.steps@).take(self.steps@.len() as int) =~= steps_view(
                self.steps@,
            ));
        }
        bytes_eq(&current, &self.root_hash)
    }

    /// How many sibling steps the proof records; a level crossed by
    /// promotion records none.
    pub fn num_steps(&self) -> (n: usize)
        ensures
            n == self.steps@.len(),
    {
        self.steps.len()
    }
}

/// Law: the root digest is determined by the leaf digests alone — two
/// well-formed trees over the same leaves carry the same root.
pub proof fn lemma_root_determined_by_leaves(t1: MerkleTree, t2: MerkleTree)
    requires
        t1.wf(),
        t2.wf(),
        t1.leaves() == t2.leaves(),
    ensures
        t1.root_view() == t2.root_view(),
{
    t1.lemma_root_reaches(0);
    t2.lemma_root_reaches(0);
}

/// Law: a proof generated for leaf `i` of a tree built over `records`
/// accepts `records[i]`. The premises are exactly what `MerkleTree::new`
/// and `MerkleTree::generate_proof` ensure.
pub proof fn lemma_generated_proof_verifies(
    tree: MerkleTree,
    pf: MerkleProof,
    records: Seq<Seq<u8>>,
    i: int,
)
    requires
        tree.wf(),
        tree.leaves() == leaf_hashes(records),
        0 <= i < records.len(),
        pf.leaf_hash@ == tree.leaves()[i],
        pf.root_hash@ == tree.root_view(),
        replay(pf.leaf_hash@, steps_view(pf.steps@)) == tree.root_view(),
    ensures
        pf.accepts(records[i]),
{
}

/// Law: a proof generated for leaf `i` rejects every record whose digest
/// differs from the digest of `records[i]` — that is, every other record
/// short of a hash collision. The premises are exactly what
/// `MerkleTree::new` and `MerkleTree::generate_proof` ensure.
pub proof fn lemma_other_record_rejected(
    tree: MerkleTree,
    pf: MerkleProof,
    records: Seq<Seq<u8>>,
    i: int,
    other: Seq<u8>,
)
    requires
        tree.wf(),
        tree.leaves() == leaf_hashes(records),
        0 <= i < records.len(),
        pf.leaf_hash@ == tree.leaves()[i],
        sha256_of(other) != sha256_of(records[i]),
    ensures
        !pf.accepts(other),
{
}

/// Law: a proof whose stored leaf digest differs from the record's digest
/// rejects that record — tampering with the leaf digest is caught.
pub proof fn lemma_wrong_leaf_rejected(pf: MerkleProof, record: Seq<u8>)
    requires
        pf.leaf_hash@ != sha256_of(record),
    ensures
        !pf.accepts(record),
{
}

/// Law: a proof whose stored root digest is not the one its own steps
/// replay to rejects every record — tampering with the root digest is
/// caught.
pub proof fn lemma_wrong_root_rejected(pf: MerkleProof, record: Seq<u8>)
    requires
        replay(pf.leaf_hash@, steps_view(pf.steps@)) != pf.root_hash@,
    ensures
        !pf.accepts(record),
{
}

} // verus!
