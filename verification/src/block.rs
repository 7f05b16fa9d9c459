//! A block: a header committing to an ordered transaction batch through a
//! Merkle root, chained to a predecessor block by hash, with a
//! proof-of-work search over the header's nonce.
//!
//! The header hash is the digest of the serialized header: the format
//! version, the predecessor hash, the Merkle root and the nonce, in that
//! order, integers in little-endian bytes.

use crate::hashing::{copy_bytes, push_all, sha256, sha256_of};
use crate::merkle::{leaf_hashes, root_of, rows_view, HashTreeError, MerkleTree};
use vstd::bytes::{
    lemma_auto_spec_u32_to_from_le_bytes, lemma_auto_spec_u64_to_from_le_bytes,
    spec_u32_to_le_bytes, spec_u64_to_le_bytes, u32_to_le_bytes, u64_to_le_bytes,
};
use vstd::prelude::*;

verus! {

/// The fixed header format version every block carries.
pub const FORMAT_VERSION: u32 = 1;

/// A block header: the only field that ever changes after construction is
/// the nonce, mined in place.
pub struct BlockHeader {
    pub version: u32,
    pub prev_block_hash: Vec<u8>,
    pub merkle_root: Vec<u8>,
    pub nonce: u64,
}

/// The serialized form of a header: version, predecessor hash, Merkle root
/// and nonce concatenated, integers in little-endian bytes.
pub open spec fn header_bytes(version: u32, prev: Seq<u8>, root: Seq<u8>, nonce: u64) -> Seq<u8> {
    spec_u32_to_le_bytes(version) + prev + root + spec_u64_to_le_bytes(nonce)
}

/// At least `difficulty` leading zero bits, reading the digest as a
/// big-endian bit string from byte 0: the first `difficulty / 8` bytes are
/// zero, and when `difficulty % 8` is not zero, so are the top
/// `difficulty % 8` bits of the next byte.
pub open spec fn meets_difficulty(digest: Seq<u8>, difficulty: int) -> bool
    recommends
        0 <= difficulty <= 256,
        digest.len() == 32,
{
    &&& (forall|i: int| 0 <= i < difficulty / 8 ==> #[trigger] digest[i] == 0)
    &&& (difficulty % 8 != 0 ==> digest[difficulty / 8] & !(0xffu8 >> ((difficulty % 8) as usize))
        == 0)
}

/// A block: its header, the transaction batch it owns, and the hash tree
/// built over that batch at construction. The tree is never rebuilt, and
/// the header's Merkle root always equals the tree's root.
pub struct Block {
    header: BlockHeader,
    transactions: Vec<Vec<u8>>,
    merkle_tree: MerkleTree,
}

impl Block {
    /// The header format version.
    pub closed spec fn version_spec(self) -> u32 {
        self.header.version
    }

    /// The predecessor block's hash (a caller-chosen sentinel for a genesis
    /// block).
    pub closed spec fn prev_hash_spec(self) -> Seq<u8> {
        self.header.prev_block_hash@
    }

    /// The Merkle root the header commits to.
    pub closed spec fn merkle_root_spec(self) -> Seq<u8> {
        self.header.merkle_root@
    }

    /// The current nonce.
    pub closed spec fn nonce_spec(self) -> u64 {
        self.header.nonce
    }

    /// The transaction batch, as byte sequences in order.
    pub closed spec fn transactions_spec(self) -> Seq<Seq<u8>> {
        rows_view(self.transactions@)
    }

    /// The hash tree built over the batch at construction.
    pub closed spec fn tree_spec(self) -> MerkleTree {
        self.merkle_tree
    }

    /// The serialized header this block would have with nonce `nonce`.
    pub open spec fn header_bytes_at(self, nonce: u64) -> Seq<u8> {
        header_bytes(self.version_spec(), self.prev_hash_spec(), self.merkle_root_spec(), nonce)
    }

    /// The block's hash: the digest of its serialized header.
    pub open spec fn hash_spec(self) -> Seq<u8> {
        sha256_of(self.header_bytes_at(self.nonce_spec()))
    }

    /// Construction-time invariant, kept for the block's whole life: the
    /// tree is well formed, its leaves are the digests of the owned batch,
    /// and the header's Merkle root is the tree's root.
    pub open spec fn wf(self) -> bool {
        &&& self.tree_spec().wf()
        &&& self.tree_spec().leaves() == leaf_hashes(self.transactions_spec())
        &&& self.merkle_root_spec() == self.tree_spec().root_view()
        &&& self.version_spec() == FORMAT_VERSION
        &&& self.transactions_spec().len() >= 1
    }

    /// Builds a block over `transactions`, chained to `prev_block_hash`:
    /// the tree is built once, the root copied into the header, and the
    /// nonce starts at zero. Fails only on an empty batch.
    pub fn new(transactions: Vec<Vec<u8>>, prev_block_hash: Vec<u8>) -> (result: Result<
        Block,
        HashTreeError,
    >)
        ensures
            result is Ok <==> transactions@.len() > 0,
            (result matches Err(e) ==> e == HashTreeError::EmptyInputError),
            (result matches Ok(block) ==> {
                &&& block.wf()
                &&& block.transactions_spec() == rows_view(transactions@)
                &&& block.prev_hash_spec() == prev_block_hash@
                &&& block.merkle_root_spec() == root_of(leaf_hashes(rows_view(transactions@)))
                &&& block.merkle_root_spec().len() == 32
                &&& block.nonce_spec() == 0
                &&& block.version_spec() == FORMAT_VERSION
            }),
    {
        let merkle_tree = match MerkleTree::new(&transactions) {
            Ok(tree) => tree,
            Err(e) => {
                return Err(e);
            },
        };
        let merkle_root = copy_bytes(merkle_tree.root_hash());
        let header = BlockHeader {
            version: FORMAT_VERSION,
            prev_block_hash,
            merkle_root,
            nonce: 0,
        };
        Ok(Block { header, transactions, merkle_tree })
    }

    /// Serializes the header: version, predecessor hash, Merkle root,
    /// nonce, in that order, integers little-endian.
    fn serialize_header(&self) -> (bytes: Vec<u8>)
        ensures
            bytes@ == self.header_bytes_at(self.nonce_spec()),
    {
        let mut buffer = u32_to_le_bytes(self.header.version);
        push_all(&mut buffer, &self.header.prev_block_hash);
        push_all(&mut buffer, &self.header.merkle_root);
        let nonce_bytes = u64_to_le_bytes(self.header.nonce);
        push_all(&mut buffer, &nonce_bytes);
        proof {
            assert(buffer@ =~= self.header_bytes_at(self.nonce_spec()));
        }
        buffer
    }

    /// The block's hash: the digest of the serialized header. It changes
    /// whenever the nonce does.
    pub fn hash(&self) -> (digest: Vec<u8>)
        ensures
            digest@ == self.hash_spec(),
            digest@.len() == 32,
    {
        let serialized = self.serialize_header();
        sha256(&serialized)
    }

    /// Searches for a nonce whose block hash meets `difficulty`, trying the
    /// current nonce first and counting up. The first satisfying nonce is
    /// kept; at difficulty zero the first try already satisfies, so the
    /// nonce never moves. Should the whole remaining nonce space fail the
    /// target — astronomically unlikely for any practical difficulty — the
    /// search stops at the largest nonce.
    pub fn mine(&mut self, difficulty: usize)
        requires
            old(self).wf(),
            difficulty <= 256,
        ensures
            final(self).wf(),
            final(self).version_spec() == old(self).version_spec(),
            final(self).prev_hash_spec() == old(self).prev_hash_spec(),
            final(self).merkle_root_spec() == old(self).merkle_root_spec(),
            final(self).transactions_spec() == old(self).transactions_spec(),
            final(self).tree_spec() == old(self).tree_spec(),
            final(self).nonce_spec() >= old(self).nonce_spec(),
            (forall|n: u64|
                old(self).nonce_spec() <= n < final(self).nonce_spec() ==> !meets_difficulty(
                    sha256_of(old(self).header_bytes_at(n)),
                    difficulty as int,
                )),
            meets_difficulty(final(self).hash_spec(), difficulty as int) || final(self).nonce_spec()
                == u64::MAX,
            difficulty == 0 ==> final(self).nonce_spec() == old(self).nonce_spec(),
    {
        loop
            invariant
                self.wf(),
                difficulty <= 256,
                self.version_spec() == old(self).version_spec(),
                self.prev_hash_spec() == old(self).prev_hash_spec(),
                self.merkle_root_spec() == old(self).merkle_root_spec(),
                self.transactions_spec() == old(self).transactions_spec(),
                self.tree_spec() == old(self).tree_spec(),
                self.nonce_spec() >= old(self).nonce_spec(),
                (forall|n: u64|
                    old(self).nonce_spec() <= n < self.nonce_spec() ==> !meets_difficulty(
                        sha256_of(old(self).header_bytes_at(n)),
                        difficulty as int,
                    )),
                difficulty == 0 ==> self.nonce_spec() == old(self).nonce_spec(),
            ensures
                meets_difficulty(self.hash_spec(), difficulty as int) || self.nonce_spec()
                    == u64::MAX,
            decreases u64::MAX - self.header.nonce,
        {
            let digest = self.hash();
            if check_difficulty(&digest, difficulty) {
                break ;
            }
            proof {
                // Difficulty zero is met by any digest, so this point is
                // reached only for a positive difficulty.
                assert(difficulty != 0);
            }
            if self.header.nonce == u64::MAX {
                break ;
            }
            self.header.nonce = self.header.nonce + 1;
        }
    }

    /// The Merkle root the header commits to.
    pub fn merkle_root(&self) -> (root: &Vec<u8>)
        ensures
            root@ == self.merkle_root_spec(),
            self.wf() ==> root@.len() == 32,
    {
        proof {
            if self.wf() {
                self.merkle_tree.lemma_structure();
            }
        }
        &self.header.merkle_root
    }

    /// The predecessor block's hash.
    pub fn prev_block_hash(&self) -> (prev: &Vec<u8>)
        ensures
            prev@ == self.prev_hash_spec(),
    {
        &self.header.prev_block_hash
    }

    /// The current nonce.
    pub fn nonce(&self) -> (n: u64)
        ensures
            n == self.nonce_spec(),
    {
        self.header.nonce
    }

    /// A read-only view of the transaction batch.
    pub fn transactions(&self) -> (txs: &Vec<Vec<u8>>)
        ensures
            rows_view(txs@) == self.transactions_spec(),
    {
        &self.transactions
    }
}

/// Whether `digest` has at least `difficulty` leading zero bits.
fn check_difficulty(digest: &Vec<u8>, difficulty: usize) -> (ok: bool)
    requires
        digest@.len() == 32,
        difficulty <= 256,
    ensures
        ok == meets_difficulty(digest@, difficulty as int),
{
    let full_zero_bytes = difficulty / 8;
    let remainder_bits = difficulty % 8;
    let mut k: usize = 0;
    while k < full_zero_bytes
        invariant
            k <= full_zero_bytes,
            full_zero_bytes == difficulty / 8,
            difficulty <= 256,
            digest@.len() == 32,
            forall|i: int| 0 <= i < k ==> #[trigger] digest@[i] == 0,
        decreases full_zero_bytes - k,
    {
        if digest[k] != 0 {
            return false;
        }
        k = k + 1;
    }
    if remainder_bits != 0 {
        let mask: u8 = 0xff >> remainder_bits;
        if digest[full_zero_bytes] & !mask != 0 {
            return false;
        }
    }
    true
}

/// Law (chaining sensitivity): two headers alike in version, Merkle root
/// and nonce, whose predecessor hashes have equal length but differ,
/// serialize to different byte strings — so their block hashes are taken
/// over different inputs.
pub proof fn lemma_header_chaining(
    version: u32,
    prev1: Seq<u8>,
    prev2: Seq<u8>,
    root: Seq<u8>,
    nonce: u64,
)
    requires
        prev1.len() == prev2.len(),
        prev1 != prev2,
    ensures
        header_bytes(version, prev1, root, nonce) != header_bytes(version, prev2, root, nonce),
{
    lemma_auto_spec_u32_to_from_le_bytes();
    lemma_auto_spec_u64_to_from_le_bytes();
    let h1 = header_bytes(version, prev1, root, nonce);
    let h2 = header_bytes(version, prev2, root, nonce);
    if h1 == h2 {
        assert forall|i: int| 0 <= i < prev1.len() implies prev1[i] == prev2[i] by {
            assert(h1[4 + i] == prev1[i]);
            assert(h2[4 + i] == prev2[i]);
        }
        assert(prev1 =~= prev2);
    }
}

} // verus!
