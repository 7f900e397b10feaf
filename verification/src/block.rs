//! Blocks: sealed units of the ledger. A block owns its hash computation and
//! its proof-of-work mining step.

use vstd::prelude::*;
use vstd::string::*;
use crate::codec;
use crate::digest;

verus! {

/// One immutable record of value movement. The amount is carried as the bit
/// pattern of an IEEE-754 double so that hashing and storage are exact; the
/// core does not interpret it (a negative or zero amount is not rejected).
#[derive(Debug, PartialEq)]
pub struct Transaction {
    pub sender: String,
    pub recipient: String,
    pub amount_bits: u64,
}

/// The mathematical value of a transaction.
#[verifier::ext_equal]
pub ghost struct TxV {
    pub sender: Seq<char>,
    pub recipient: Seq<char>,
    pub amount_bits: u64,
}

impl View for Transaction {
    type V = TxV;

    open spec fn view(&self) -> TxV {
        TxV { sender: self.sender@, recipient: self.recipient@, amount_bits: self.amount_bits }
    }
}

/// The values of a sequence of transactions, in order.
pub open spec fn tx_views(ts: Seq<Transaction>) -> Seq<TxV> {
    ts.map_values(|t: Transaction| t@)
}

/// A transaction whose strings fit the stored length prefix.
pub open spec fn tx_storable(t: TxV) -> bool {
    t.sender.len() <= u64::MAX && t.recipient.len() <= u64::MAX
}

/// A container of transactions plus linkage and integrity metadata.
#[derive(Debug, PartialEq)]
pub struct Block {
    pub timestamp: i64,
    pub transactions: Vec<Transaction>,
    pub previous_hash: String,
    pub nonce: u64,
    pub hash: String,
}

/// The mathematical value of a block.
#[verifier::ext_equal]
pub ghost struct BlockV {
    pub timestamp: i64,
    pub transactions: Seq<TxV>,
    pub previous_hash: Seq<char>,
    pub nonce: u64,
    pub hash: Seq<char>,
}

impl View for Block {
    type V = BlockV;

    open spec fn view(&self) -> BlockV {
        BlockV {
            timestamp: self.timestamp,
            transactions: tx_views(self.transactions@),
            previous_hash: self.previous_hash@,
            nonce: self.nonce,
            hash: self.hash@,
        }
    }
}

/// A block whose strings and transaction count fit the stored form.
pub open spec fn block_storable(b: BlockV) -> bool {
    b.previous_hash.len() <= u64::MAX && b.hash.len() <= u64::MAX && b.transactions.len()
        <= u64::MAX && forall|k: int|
        0 <= k < b.transactions.len() ==> tx_storable(#[trigger] b.transactions[k])
}

/// The canonical text a block's digest is computed over: every stored field
/// but the hash itself.
pub open spec fn preimage(b: BlockV) -> Seq<char> {
    codec::enc_block_body(b.timestamp, b.transactions, b.previous_hash, b.nonce)
}

/// The digest of a block: hexadecimal SHA-256 of its canonical preimage.
pub open spec fn block_hash(b: BlockV) -> Seq<char> {
    digest::hex_of(digest::sha256_of(preimage(b)))
}

/// A sealed block: the stored hash is the digest of the stored fields.
pub open spec fn sealed(b: BlockV) -> bool {
    b.hash == block_hash(b)
}

/// A text with at least `d` leading `'0'` characters.
pub open spec fn has_zero_prefix(h: Seq<char>, d: nat) -> bool {
    h.len() >= d && forall|k: int| 0 <= k < d ==> h[k] == '0'
}

/// A block that satisfies the proof-of-work target for difficulty `d`.
pub open spec fn mined(b: BlockV, d: nat) -> bool {
    has_zero_prefix(b.hash, d)
}

/// Whether nonce `n`, put in place of the block's stored nonce, would make
/// the block's digest meet the proof-of-work target for difficulty `d`. The
/// block's own nonce and hash fields play no part.
pub open spec fn nonce_meets_target(b: BlockV, n: u64, d: nat) -> bool {
    has_zero_prefix(block_hash(BlockV { nonce: n, ..b }), d)
}

/// Relies on `std::time::SystemTime::now`: the current wall-clock time as
/// whole seconds since the Unix epoch (negative before it, clamped at the
/// representable range), of which nothing is promised.
#[verifier::external_body]
fn now_timestamp() -> i64 {
    match std::time::SystemTime::now().duration_since(std::time::UNIX_EPOCH) {
        Ok(since) => i64::try_from(since.as_secs()).unwrap_or(i64::MAX),
        Err(before) => i64::try_from(before.duration().as_secs()).map_or(i64::MIN, |s| -s),
    }
}

/// True when the text begins with at least `d` zero characters.
pub fn has_leading_zeros(h: &String, d: usize) -> (r: bool)
    ensures
        r == has_zero_prefix(h@, d as nat),
{
    if h.as_str().unicode_len() < d {
        return false;
    }
    let mut k: usize = 0;
    while k < d
        invariant
            k <= d,
            d <= h@.len(),
            forall|m: int| 0 <= m < k ==> h@[m] == '0',
        decreases d - k,
    {
        if h.as_str().get_char(k) != '0' {
            return false;
        }
        k += 1;
    }
    true
}

impl Transaction {
    /// An equal, independently owned copy of the record.
    pub fn duplicate(&self) -> (r: Transaction)
        ensures
            r@ == self@,
    {
        Transaction {
            sender: self.sender.clone(),
            recipient: self.recipient.clone(),
            amount_bits: self.amount_bits,
        }
    }
}

impl Block {
    /// An equal, independently owned copy of the block.
    pub fn duplicate(&self) -> (r: Block)
        ensures
            r@ == self@,
    {
        let mut transactions: Vec<Transaction> = Vec::new();
        let mut k: usize = 0;
        while k < self.transactions.len()
            invariant
                k <= self.transactions@.len(),
                transactions@.len() == k,
                forall|m: int| 0 <= m < k ==> (#[trigger] transactions@[m])@
                    == self.transactions@[m]@,
            decreases self.transactions@.len() - k,
        {
            transactions.push(self.transactions[k].duplicate());
            k += 1;
        }
        let r = Block {
            timestamp: self.timestamp,
            transactions,
            previous_hash: self.previous_hash.clone(),
            nonce: self.nonce,
            hash: self.hash.clone(),
        };
        proof {
            assert forall|m: int| 0 <= m < r@.transactions.len() implies r@.transactions[m]
                == self@.transactions[m] by {
                assert(tx_views(r.transactions@)[m] == r.transactions@[m]@);
                assert(tx_views(self.transactions@)[m] == self.transactions@[m]@);
            };
            assert(r@.transactions =~= self@.transactions);
            assert(r@ =~= self@);
        }
        r
    }

    /// The digest of the block's stored fields: a pure function of
    /// timestamp, transactions, previous hash and nonce.
    pub fn calculate_hash(&self) -> (r: String)
        ensures
            r@ == block_hash(self@),
            r@.len() == 64,
    {
        let mut pre = String::new();
        codec::append_block_body(
            &mut pre,
            self.timestamp,
            &self.transactions,
            &self.previous_hash,
            self.nonce,
        );
        proof {
            assert(pre@ =~= preimage(self@));
        }
        let d = digest::sha256_chars(pre.as_str());
        let r = digest::hex_encode(&d);
        proof {
            digest::lemma_hex_of_len(d@);
        }
        r
    }

    /// Builds a block over the given transactions, linked to the given
    /// previous hash, stamped with the current wall-clock time, with nonce
    /// zero and a hash consistent with its fields.
    pub fn new_block(transactions: Vec<Transaction>, previous_hash: String) -> (r: Block)
        ensures
            r@.transactions == tx_views(transactions@),
            r@.previous_hash == previous_hash@,
            r@.nonce == 0,
            sealed(r@),
    {
        let timestamp = now_timestamp();
        let mut block = Block {
            timestamp,
            transactions,
            previous_hash,
            nonce: 0,
            hash: String::new(),
        };
        let ghost unsealed = block@;
        let h = block.calculate_hash();
        block.hash = h;
        proof {
            assert(preimage(block@) == preimage(unsealed));
        }
        block
    }

    /// Searches nonces upward from the stored one until the block's digest
    /// shows `difficulty` leading zero hexadecimal characters, recomputing
    /// the stored hash each step, and reports whether the target was met:
    /// true exactly when some nonce at or above the starting one meets the
    /// target, and then the block holds the least such nonce. A block that
    /// already meets the target is returned untouched. A target no nonce
    /// reaches exhausts the counter and returns false, where the unbounded
    /// search of the design would never return.
    pub fn mine_block(&mut self, difficulty: usize) -> (r: bool)
        requires
            sealed(old(self)@),
        ensures
            final(self)@.timestamp == old(self)@.timestamp,
            final(self)@.transactions == old(self)@.transactions,
            final(self)@.previous_hash == old(self)@.previous_hash,
            final(self)@.nonce >= old(self)@.nonce,
            sealed(final(self)@),
            r == exists|n: u64|
                n >= old(self)@.nonce && nonce_meets_target(old(self)@, n, difficulty as nat),
            r ==> mined(final(self)@, difficulty as nat),
            r ==> forall|n: u64|
                old(self)@.nonce <= n < final(self)@.nonce ==> !nonce_meets_target(
                    old(self)@,
                    n,
                    difficulty as nat,
                ),
            !r ==> final(self)@.nonce == u64::MAX,
            has_zero_prefix(old(self)@.hash, difficulty as nat) ==> final(self)@ == old(self)@,
    {
        loop
            invariant
                sealed(self@),
                self@.timestamp == old(self)@.timestamp,
                self@.transactions == old(self)@.transactions,
                self@.previous_hash == old(self)@.previous_hash,
                self@.nonce >= old(self)@.nonce,
                forall|n: u64|
                    old(self)@.nonce <= n < self@.nonce ==> !nonce_meets_target(
                        old(self)@,
                        n,
                        difficulty as nat,
                    ),
                has_zero_prefix(old(self)@.hash, difficulty as nat) ==> self@ == old(self)@,
            decreases u64::MAX - self.nonce,
        {
            let ghost cur = self@;
            proof {
                assert(preimage(cur) == preimage(BlockV { nonce: cur.nonce, ..old(self)@ }));
                assert(block_hash(cur) == block_hash(BlockV { nonce: cur.nonce, ..old(self)@ }));
            }
            if has_leading_zeros(&self.hash, difficulty) {
                proof {
                    assert(nonce_meets_target(old(self)@, cur.nonce, difficulty as nat));
                }
                return true;
            }
            proof {
                assert(!nonce_meets_target(old(self)@, cur.nonce, difficulty as nat));
            }
            if self.nonce == u64::MAX {
                proof {
                    assert forall|n: u64| n >= old(self)@.nonce implies !nonce_meets_target(
                        old(self)@,
                        n,
                        difficulty as nat,
                    ) by {
                        if n == u64::MAX {
                            assert(!nonce_meets_target(old(self)@, n, difficulty as nat));
                        }
                    };
                }
                return false;
            }
            self.nonce = self.nonce + 1;
            let ghost stepped = self@;
            let h = self.calculate_hash();
            self.hash = h;
            proof {
                assert(preimage(self@) == preimage(stepped));
            }
        }
    }
}

} // verus!
