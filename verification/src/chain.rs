//! The chain: an ordered, append-only sequence of blocks with a fixed
//! proof-of-work difficulty, owning append and whole-chain validation.

use vstd::prelude::*;
use vstd::string::*;
use crate::block::{
    Block, BlockV, Transaction, block_hash, mined, nonce_meets_target, preimage, sealed, tx_views,
};

verus! {

/// The values of a sequence of blocks, in order.
pub open spec fn block_views(bs: Seq<Block>) -> Seq<BlockV> {
    bs.map_values(|b: Block| b@)
}

/// The ordered sequence of blocks and the difficulty they are mined at.
/// Index 0 is the genesis block, whose previous hash is the sentinel `"0"`.
#[derive(Debug, PartialEq)]
pub struct Blockchain {
    pub blocks: Vec<Block>,
    pub difficulty: usize,
}

/// The mathematical value of a chain.
#[verifier::ext_equal]
pub ghost struct ChainV {
    pub blocks: Seq<BlockV>,
    pub difficulty: usize,
}

impl View for Blockchain {
    type V = ChainV;

    open spec fn view(&self) -> ChainV {
        ChainV { blocks: block_views(self.blocks@), difficulty: self.difficulty }
    }
}

/// What validation checks, block by block: every block after the genesis
/// block is sealed (its stored hash is the digest of its stored fields) and
/// linked (its stored previous hash is the predecessor's stored hash).
pub open spec fn chain_valid(c: ChainV) -> bool {
    forall|i: int|
        1 <= i < c.blocks.len() ==> sealed(#[trigger] c.blocks[i]) && c.blocks[i].previous_hash
            == c.blocks[i - 1].hash
}

/// The invariant of every chain this library builds: nonempty, and valid in
/// the sense of `chain_valid`. `new` establishes it and `add_block` keeps it.
pub open spec fn chain_wf(c: ChainV) -> bool {
    c.blocks.len() >= 1 && chain_valid(c)
}

impl Blockchain {
    /// A fresh chain: exactly one genesis block with no transactions and the
    /// sentinel previous hash `"0"`, at difficulty 2.
    pub fn new() -> (r: Blockchain)
        ensures
            r@.difficulty == 2,
            r@.blocks.len() == 1,
            r@.blocks[0].previous_hash == "0"@,
            r@.blocks[0].transactions.len() == 0,
            r@.blocks[0].nonce == 0,
            sealed(r@.blocks[0]),
            chain_wf(r@),
    {
        let genesis = Block::new_block(Vec::new(), String::from_str("0"));
        let mut blocks: Vec<Block> = Vec::new();
        blocks.push(genesis);
        let r = Blockchain { blocks, difficulty: 2 };
        proof {
            assert(tx_views(Seq::<Transaction>::empty()) =~= Seq::<crate::block::TxV>::empty());
        }
        r
    }

    /// Builds a block over the given transactions, linked to the current
    /// last block, mines it at the chain's difficulty, and appends it. The
    /// chain grows by exactly one block and stays valid; the appended block
    /// is mined at the chain's difficulty unless no nonce at all can meet
    /// the target for its fields — in which case, where the design's
    /// unbounded search would never return, the sealed block is appended as
    /// it stands.
    pub fn add_block(&mut self, transactions: Vec<Transaction>)
        requires
            old(self)@.blocks.len() >= 1,
        ensures
            final(self)@.difficulty == old(self)@.difficulty,
            final(self)@.blocks.len() == old(self)@.blocks.len() + 1,
            final(self)@.blocks.subrange(0, old(self)@.blocks.len() as int) == old(self)@.blocks,
            final(self)@.blocks.last().transactions == tx_views(transactions@),
            final(self)@.blocks.last().previous_hash == old(self)@.blocks.last().hash,
            sealed(final(self)@.blocks.last()),
            mined(final(self)@.blocks.last(), old(self)@.difficulty as nat) || (forall|n: u64|
                !nonce_meets_target(
                    final(self)@.blocks.last(),
                    n,
                    old(self)@.difficulty as nat,
                )),
            chain_wf(old(self)@) ==> chain_wf(final(self)@),
    {
        let last = self.blocks.len() - 1;
        let previous_hash = self.blocks[last].hash.clone();
        let mut new_block = Block::new_block(transactions, previous_hash);
        let ghost built = new_block@;
        let target_met = new_block.mine_block(self.difficulty);
        self.blocks.push(new_block);
        proof {
            let d = old(self)@.difficulty as nat;
            let nb = new_block@;
            if !target_met {
                assert forall|n: u64| !nonce_meets_target(nb, n, d) by {
                    assert(!(n >= built.nonce && nonce_meets_target(built, n, d)));
                    assert(built.nonce == 0);
                    assert(preimage(BlockV { nonce: n, ..nb }) == preimage(
                        BlockV { nonce: n, ..built },
                    ));
                    assert(block_hash(BlockV { nonce: n, ..nb }) == block_hash(
                        BlockV { nonce: n, ..built },
                    ));
                };
            }
            let pre = old(self)@.blocks;
            let post = self@.blocks;
            assert(post =~= pre.push(new_block@));
            assert(post.subrange(0, pre.len() as int) =~= pre);
            if chain_wf(old(self)@) {
                assert forall|i: int|
                    1 <= i < post.len() implies sealed(#[trigger] post[i]) && post[i].previous_hash
                    == post[i - 1].hash by {
                    if i < pre.len() {
                        assert(sealed(pre[i]) && pre[i].previous_hash == pre[i - 1].hash);
                    }
                };
            }
        }
    }

    /// A consistent, independently owned copy of the whole chain: the
    /// read-only snapshot the surrounding service hands to readers.
    pub fn snapshot(&self) -> (r: Blockchain)
        ensures
            r@ == self@,
    {
        let mut blocks: Vec<Block> = Vec::new();
        let mut k: usize = 0;
        while k < self.blocks.len()
            invariant
                k <= self.blocks@.len(),
                blocks@.len() == k,
                forall|m: int| 0 <= m < k ==> (#[trigger] blocks@[m])@ == self.blocks@[m]@,
            decreases self.blocks@.len() - k,
        {
            blocks.push(self.blocks[k].duplicate());
            k += 1;
        }
        let r = Blockchain { blocks, difficulty: self.difficulty };
        proof {
            assert forall|m: int| 0 <= m < r@.blocks.len() implies r@.blocks[m]
                == self@.blocks[m] by {
                assert(block_views(r.blocks@)[m] == r.blocks@[m]@);
                assert(block_views(self.blocks@)[m] == self.blocks@[m]@);
            };
            assert(r@.blocks =~= self@.blocks);
            assert(r@ =~= self@);
        }
        r
    }

    /// Recomputes every non-genesis block's digest and checks its stored
    /// hash and its link to the predecessor; true exactly when the whole
    /// chain is consistent.
    pub fn validate(&self) -> (r: bool)
        ensures
            r == chain_valid(self@),
    {
        let n = self.blocks.len();
        if n == 0 {
            return true;
        }
        let mut i: usize = 1;
        while i < n
            invariant
                1 <= i <= n,
                n == self@.blocks.len(),
                forall|k: int|
                    1 <= k < i ==> sealed(#[trigger] self@.blocks[k])
                        && self@.blocks[k].previous_hash == self@.blocks[k - 1].hash,
            decreases n - i,
        {
            let computed = self.blocks[i].calculate_hash();
            if !(self.blocks[i].hash == computed) {
                proof {
                    assert(self@.blocks[i as int] == self.blocks@[i as int]@);
                    assert(!sealed(self@.blocks[i as int]));
                }
                return false;
            }
            if !(self.blocks[i].previous_hash == self.blocks[i - 1].hash) {
                proof {
                    assert(self@.blocks[i as int] == self.blocks@[i as int]@);
                    assert(self@.blocks[i - 1] == self.blocks@[i - 1]@);
                    assert(self@.blocks[i as int].previous_hash != self@.blocks[i - 1].hash);
                }
                return false;
            }
            i += 1;
        }
        true
    }
}

/// Every chain that satisfies the construction invariant passes validation:
/// a chain built by `new` and any number of `add_block` calls — each of
/// which establishes or preserves `chain_wf` — is reported valid.
pub proof fn lemma_wf_chain_validates(c: ChainV)
    requires
        chain_wf(c),
    ensures
        chain_valid(c),
{
}

/// A non-genesis block whose stored hash no longer matches the digest of
/// its stored fields is caught by validation wherever it sits. This is how
/// mutating a digested field of a past block — transactions, timestamp or
/// nonce — without re-mining is detected: the stored hash then disagrees
/// with the recomputed digest.
pub proof fn lemma_unsealed_block_detected(c: ChainV, i: int)
    requires
        1 <= i < c.blocks.len(),
        !sealed(c.blocks[i]),
    ensures
        !chain_valid(c),
{
}

/// Forging the stored previous hash of any non-genesis block of a valid
/// chain, without touching anything else, breaks validation: the forged
/// link no longer matches the predecessor's stored hash.
pub proof fn lemma_tampered_link_detected(c: ChainV, i: int, forged: Seq<char>)
    requires
        chain_valid(c),
        1 <= i < c.blocks.len(),
        forged != c.blocks[i].previous_hash,
    ensures
        !chain_valid(
            ChainV {
                blocks: c.blocks.update(
                    i,
                    BlockV { previous_hash: forged, ..c.blocks[i] },
                ),
                ..c
            },
        ),
{
    let d = ChainV {
        blocks: c.blocks.update(i, BlockV { previous_hash: forged, ..c.blocks[i] }),
        ..c
    };
    assert(d.blocks[i].previous_hash == forged);
    assert(d.blocks[i - 1].hash == c.blocks[i - 1].hash);
    assert(c.blocks[i].previous_hash == c.blocks[i - 1].hash);
    assert(!(sealed(d.blocks[i]) && d.blocks[i].previous_hash == d.blocks[i - 1].hash));
}

/// Deleting an interior block of a valid chain breaks validation, as long
/// as the deleted block's stored hash differs from its predecessor's — with
/// equal digests the splice would go unseen, and deleting the last block
/// merely truncates the chain, which validation cannot observe.
pub proof fn lemma_interior_deletion_detected(c: ChainV, i: int)
    requires
        chain_valid(c),
        1 <= i < c.blocks.len() - 1,
        c.blocks[i].hash != c.blocks[i - 1].hash,
    ensures
        !chain_valid(ChainV { blocks: c.blocks.remove(i), ..c }),
{
    let d = ChainV { blocks: c.blocks.remove(i), ..c };
    assert(d.blocks[i] == c.blocks[i + 1]);
    assert(d.blocks[i - 1] == c.blocks[i - 1]);
    assert(c.blocks[i + 1].previous_hash == c.blocks[i].hash);
    assert(!(sealed(d.blocks[i]) && d.blocks[i].previous_hash == d.blocks[i - 1].hash));
}

/// Swapping two adjacent non-genesis blocks of a valid chain breaks
/// validation, as long as the earlier one's stored hash differs from its
/// own predecessor's stored hash.
pub proof fn lemma_adjacent_swap_detected(c: ChainV, i: int)
    requires
        chain_valid(c),
        1 <= i,
        i + 1 < c.blocks.len(),
        c.blocks[i].hash != c.blocks[i - 1].hash,
    ensures
        !chain_valid(
            ChainV { blocks: c.blocks.update(i, c.blocks[i + 1]).update(i + 1, c.blocks[i]), ..c },
        ),
{
    let d = ChainV {
        blocks: c.blocks.update(i, c.blocks[i + 1]).update(i + 1, c.blocks[i]),
        ..c
    };
    assert(d.blocks[i] == c.blocks[i + 1]);
    assert(d.blocks[i - 1] == c.blocks[i - 1]);
    assert(c.blocks[i + 1].previous_hash == c.blocks[i].hash);
    assert(!(sealed(d.blocks[i]) && d.blocks[i].previous_hash == d.blocks[i - 1].hash));
}

} // verus!
