//! The ledger's canonical text: one fixed, human-readable rendering of
//! transactions, blocks and chains, used both as the digest preimage and as
//! the durable on-disk representation.
//!
//! Every field stands on its own line; a string field is length-prefixed so
//! that its characters are carried verbatim. The parser accepts exactly the
//! canonical renderings, and decoding the rendering of a chain yields the
//! chain back.

use vstd::prelude::*;
use vstd::string::*;
use crate::block::{Block, BlockV, Transaction, TxV, tx_views, tx_storable, block_storable};
use crate::text::{
    dec_digits, dec_signed, is_digit, parse_i64_at, parse_u64_at, u64_to_string, i64_to_string,
    parse_u64, parse_i64, lemma_parse_u64_of_dec, lemma_parse_i64_of_dec,
};

verus! {

/// A number field: canonical decimal digits, then a line break.
pub open spec fn enc_u64_ln(n: nat) -> Seq<char> {
    dec_digits(n) + seq!['\n']
}

/// A signed number field: canonical decimal, then a line break.
pub open spec fn enc_i64_ln(n: int) -> Seq<char> {
    dec_signed(n) + seq!['\n']
}

/// A string field: the character count, a space, the characters themselves,
/// then a line break.
pub open spec fn enc_str(t: Seq<char>) -> Seq<char> {
    dec_digits(t.len()) + seq![' '] + t + seq!['\n']
}

/// A transaction: sender, recipient, amount bit pattern.
pub open spec fn enc_tx(t: TxV) -> Seq<char> {
    enc_str(t.sender) + enc_str(t.recipient) + enc_u64_ln(t.amount_bits as nat)
}

/// A sequence of transactions, in order.
pub open spec fn enc_txs(ts: Seq<TxV>) -> Seq<char>
    decreases ts.len(),
{
    if ts.len() == 0 {
        Seq::<char>::empty()
    } else {
        enc_tx(ts[0]) + enc_txs(ts.drop_first())
    }
}

/// The fields a block's digest covers: timestamp, transaction count, the
/// transactions, the previous hash, the nonce.
pub open spec fn enc_block_body(
    timestamp: i64,
    ts: Seq<TxV>,
    previous_hash: Seq<char>,
    nonce: u64,
) -> Seq<char> {
    enc_i64_ln(timestamp as int) + enc_u64_ln(ts.len()) + enc_txs(ts) + enc_str(previous_hash)
        + enc_u64_ln(nonce as nat)
}

/// A stored block: the digested fields, then the stored hash.
pub open spec fn enc_block(b: BlockV) -> Seq<char> {
    enc_block_body(b.timestamp, b.transactions, b.previous_hash, b.nonce) + enc_str(b.hash)
}

/// A sequence of blocks, in order.
pub open spec fn enc_blocks(bs: Seq<BlockV>) -> Seq<char>
    decreases bs.len(),
{
    if bs.len() == 0 {
        Seq::<char>::empty()
    } else {
        enc_block(bs[0]) + enc_blocks(bs.drop_first())
    }
}

/// Appending one transaction extends the rendering on the right.
pub proof fn lemma_enc_txs_snoc(ts: Seq<TxV>, t: TxV)
    ensures
        enc_txs(ts.push(t)) == enc_txs(ts) + enc_tx(t),
    decreases ts.len(),
{
    if ts.len() == 0 {
        let single = ts.push(t);
        assert(single.drop_first() =~= Seq::<TxV>::empty());
        assert(enc_txs(single.drop_first()) == Seq::<char>::empty());
        assert(enc_txs(single) == enc_tx(t) + enc_txs(single.drop_first()));
        assert(enc_txs(ts) == Seq::<char>::empty());
        assert(enc_tx(t) + Seq::<char>::empty() =~= Seq::<char>::empty() + enc_tx(t));
    } else {
        assert(ts.push(t).drop_first() =~= ts.drop_first().push(t));
        lemma_enc_txs_snoc(ts.drop_first(), t);
        assert(enc_txs(ts.push(t)) == enc_tx(ts[0]) + (enc_txs(ts.drop_first()) + enc_tx(t)));
        assert(enc_tx(ts[0]) + (enc_txs(ts.drop_first()) + enc_tx(t)) =~= (enc_tx(ts[0])
            + enc_txs(ts.drop_first())) + enc_tx(t));
    }
}

/// Appending one block extends the rendering on the right.
pub proof fn lemma_enc_blocks_snoc(bs: Seq<BlockV>, b: BlockV)
    ensures
        enc_blocks(bs.push(b)) == enc_blocks(bs) + enc_block(b),
    decreases bs.len(),
{
    if bs.len() == 0 {
        let single = bs.push(b);
        assert(single.drop_first() =~= Seq::<BlockV>::empty());
        assert(enc_blocks(single.drop_first()) == Seq::<char>::empty());
        assert(enc_blocks(single) == enc_block(b) + enc_blocks(single.drop_first()));
        assert(enc_blocks(bs) == Seq::<char>::empty());
        assert(enc_block(b) + Seq::<char>::empty() =~= Seq::<char>::empty() + enc_block(b));
    } else {
        assert(bs.push(b).drop_first() =~= bs.drop_first().push(b));
        lemma_enc_blocks_snoc(bs.drop_first(), b);
        assert(enc_blocks(bs.push(b)) == enc_block(bs[0]) + (enc_blocks(bs.drop_first())
            + enc_block(b)));
        assert(enc_block(bs[0]) + (enc_blocks(bs.drop_first()) + enc_block(b)) =~= (enc_block(
            bs[0],
        ) + enc_blocks(bs.drop_first())) + enc_block(b));
    }
}

/// Writes a number field.
pub fn append_u64_ln(out: &mut String, n: u64)
    ensures
        final(out)@ == old(out)@ + enc_u64_ln(n as nat),
{
    out.append(u64_to_string(n).as_str());
    out.append("\n");
    proof {
        reveal_strlit("\n");
        assert(out@ =~= old(out)@ + enc_u64_ln(n as nat));
    }
}

/// Writes a signed number field.
pub fn append_i64_ln(out: &mut String, n: i64)
    ensures
        final(out)@ == old(out)@ + enc_i64_ln(n as int),
{
    out.append(i64_to_string(n).as_str());
    out.append("\n");
    proof {
        reveal_strlit("\n");
        assert(out@ =~= old(out)@ + enc_i64_ln(n as int));
    }
}

/// Writes a string field.
pub fn append_str_field(out: &mut String, t: &str)
    ensures
        final(out)@ == old(out)@ + enc_str(t@),
        t@.len() <= u64::MAX,
{
    let n = t.unicode_len();
    out.append(u64_to_string(n as u64).as_str());
    out.append(" ");
    out.append(t);
    out.append("\n");
    proof {
        reveal_strlit(" ");
        reveal_strlit("\n");
        assert(out@ =~= old(out)@ + enc_str(t@));
    }
}

/// Writes one transaction.
pub fn append_tx(out: &mut String, t: &Transaction)
    ensures
        final(out)@ == old(out)@ + enc_tx(t@),
        tx_storable(t@),
{
    append_str_field(out, t.sender.as_str());
    append_str_field(out, t.recipient.as_str());
    append_u64_ln(out, t.amount_bits);
    proof {
        assert(out@ =~= old(out)@ + enc_tx(t@));
    }
}

/// Writes a sequence of transactions, in order.
pub fn append_txs(out: &mut String, ts: &Vec<Transaction>)
    ensures
        final(out)@ == old(out)@ + enc_txs(tx_views(ts@)),
        forall|k: int| 0 <= k < ts@.len() ==> tx_storable(#[trigger] ts@[k]@),
{
    let ghost tvs = tx_views(ts@);
    let mut k: usize = 0;
    while k < ts.len()
        invariant
            k <= ts@.len(),
            tvs == tx_views(ts@),
            out@ == old(out)@ + enc_txs(tvs.subrange(0, k as int)),
            forall|m: int| 0 <= m < k ==> tx_storable(#[trigger] ts@[m]@),
        decreases ts@.len() - k,
    {
        append_tx(out, &ts[k]);
        proof {
            assert(tvs.subrange(0, (k + 1) as int) =~= tvs.subrange(0, k as int).push(tvs[k as int]));
            lemma_enc_txs_snoc(tvs.subrange(0, k as int), tvs[k as int]);
            assert(out@ =~= old(out)@ + enc_txs(tvs.subrange(0, (k + 1) as int)));
        }
        k += 1;
    }
    proof {
        assert(tvs.subrange(0, tvs.len() as int) =~= tvs);
    }
}

/// Writes the digested fields of a block.
pub fn append_block_body(
    out: &mut String,
    timestamp: i64,
    ts: &Vec<Transaction>,
    previous_hash: &String,
    nonce: u64,
)
    ensures
        final(out)@ == old(out)@ + enc_block_body(
            timestamp,
            tx_views(ts@),
            previous_hash@,
            nonce,
        ),
        previous_hash@.len() <= u64::MAX,
        ts@.len() <= u64::MAX,
        forall|k: int| 0 <= k < ts@.len() ==> tx_storable(#[trigger] ts@[k]@),
{
    append_i64_ln(out, timestamp);
    append_u64_ln(out, ts.len() as u64);
    append_txs(out, ts);
    append_str_field(out, previous_hash.as_str());
    append_u64_ln(out, nonce);
    proof {
        let tvs = tx_views(ts@);
        assert(tvs.len() == ts@.len());
        assert(out@ =~= old(out)@ + enc_block_body(timestamp, tvs, previous_hash@, nonce));
    }
}

/// Writes one stored block.
pub fn append_block(out: &mut String, b: &Block)
    ensures
        final(out)@ == old(out)@ + enc_block(b@),
        block_storable(b@),
{
    append_block_body(out, b.timestamp, &b.transactions, &b.previous_hash, b.nonce);
    append_str_field(out, b.hash.as_str());
    proof {
        assert(out@ =~= old(out)@ + enc_block(b@));
        assert forall|k: int| 0 <= k < b@.transactions.len() implies tx_storable(
            #[trigger] b@.transactions[k],
        ) by {
            assert(b@.transactions[k] == b.transactions@[k]@);
        };
    }
}

} // verus!

// ---------------------------------------------------------------------------
// Parsing: the spec parser accepts exactly the canonical renderings; the
// executable decoder returns exactly what the spec parser says.
// ---------------------------------------------------------------------------

use crate::chain::{Blockchain, ChainV};

verus! {

/// Decoding failed: the text is not the canonical rendering of any chain.
#[derive(Clone, Copy, Debug, PartialEq, Eq)]
pub struct FormatFailure;

/// One expected character at position `i`.
pub open spec fn expect_at(s: Seq<char>, i: int, c: char) -> Option<int> {
    if 0 <= i < s.len() && s[i] == c {
        Some(i + 1)
    } else {
        None
    }
}

/// A number field: canonical digits, then a line break.
pub open spec fn parse_u64_ln_at(s: Seq<char>, i: int) -> Option<(u64, int)> {
    match parse_u64_at(s, i) {
        Some((x, j)) => match expect_at(s, j, '\n') {
            Some(j2) => Some((x, j2)),
            None => None,
        },
        None => None,
    }
}

/// A signed number field: canonical decimal, then a line break.
pub open spec fn parse_i64_ln_at(s: Seq<char>, i: int) -> Option<(i64, int)> {
    match parse_i64_at(s, i) {
        Some((x, j)) => match expect_at(s, j, '\n') {
            Some(j2) => Some((x, j2)),
            None => None,
        },
        None => None,
    }
}

/// A string field: character count, space, the characters, line break.
pub open spec fn parse_str_at(s: Seq<char>, i: int) -> Option<(Seq<char>, int)> {
    match parse_u64_at(s, i) {
        Some((n, j)) => match expect_at(s, j, ' ') {
            Some(j2) => if j2 + n <= s.len() {
                match expect_at(s, j2 + n, '\n') {
                    Some(j3) => Some((s.subrange(j2, j2 + n), j3)),
                    None => None,
                }
            } else {
                None
            },
            None => None,
        },
        None => None,
    }
}

/// One transaction: sender, recipient, amount bit pattern.
pub open spec fn parse_tx_at(s: Seq<char>, i: int) -> Option<(TxV, int)> {
    match parse_str_at(s, i) {
        Some((sender, i1)) => match parse_str_at(s, i1) {
            Some((recipient, i2)) => match parse_u64_ln_at(s, i2) {
                Some((amount_bits, i3)) => Some(
                    (TxV { sender, recipient, amount_bits }, i3),
                ),
                None => None,
            },
            None => None,
        },
        None => None,
    }
}

/// Exactly `n` transactions, in order.
pub open spec fn parse_txs_at(s: Seq<char>, i: int, n: u64) -> Option<(Seq<TxV>, int)>
    decreases n,
{
    if n == 0 {
        Some((Seq::<TxV>::empty(), i))
    } else {
        match parse_tx_at(s, i) {
            Some((t, j)) => match parse_txs_at(s, j, (n - 1) as u64) {
                Some((rest, j2)) => Some((seq![t] + rest, j2)),
                None => None,
            },
            None => None,
        }
    }
}

/// One stored block: the digested fields, then the stored hash.
pub open spec fn parse_block_at(s: Seq<char>, i: int) -> Option<(BlockV, int)> {
    match parse_i64_ln_at(s, i) {
        Some((timestamp, i1)) => match parse_u64_ln_at(s, i1) {
            Some((n, i2)) => match parse_txs_at(s, i2, n) {
                Some((transactions, i3)) => match parse_str_at(s, i3) {
                    Some((previous_hash, i4)) => match parse_u64_ln_at(s, i4) {
                        Some((nonce, i5)) => match parse_str_at(s, i5) {
                            Some((hash, i6)) => Some(
                                (
                                    BlockV {
                                        timestamp,
                                        transactions,
                                        previous_hash,
                                        nonce,
                                        hash,
                                    },
                                    i6,
                                ),
                            ),
                            None => None,
                        },
                        None => None,
                    },
                    None => None,
                },
                None => None,
            },
            None => None,
        },
        None => None,
    }
}

/// Exactly `n` blocks, in order.
pub open spec fn parse_blocks_at(s: Seq<char>, i: int, n: u64) -> Option<(Seq<BlockV>, int)>
    decreases n,
{
    if n == 0 {
        Some((Seq::<BlockV>::empty(), i))
    } else {
        match parse_block_at(s, i) {
            Some((b, j)) => match parse_blocks_at(s, j, (n - 1) as u64) {
                Some((rest, j2)) => Some((seq![b] + rest, j2)),
                None => None,
            },
            None => None,
        }
    }
}

/// A whole stored chain: difficulty, block count, the blocks, nothing
/// after. A block count of zero is refused: a well-formed chain has a
/// genesis block at index 0.
pub open spec fn spec_decode(s: Seq<char>) -> Option<ChainV> {
    match parse_u64_ln_at(s, 0) {
        Some((d, i1)) => if d <= usize::MAX as u64 {
            match parse_u64_ln_at(s, i1) {
                Some((n, i2)) => if n == 0 {
                    None
                } else {
                    match parse_blocks_at(s, i2, n) {
                        Some((blocks, i3)) => if i3 == s.len() {
                            Some(ChainV { blocks, difficulty: d as usize })
                        } else {
                            None
                        },
                        None => None,
                    }
                },
                None => None,
            }
        } else {
            None
        },
        None => None,
    }
}

/// A whole stored chain, rendered: difficulty, block count, the blocks.
pub open spec fn enc_chain(c: ChainV) -> Seq<char> {
    enc_u64_ln(c.difficulty as nat) + enc_u64_ln(c.blocks.len()) + enc_blocks(c.blocks)
}

/// A chain whose counts and strings fit the stored length prefixes. Every
/// chain held in a `Blockchain` satisfies this; `to_text` certifies it.
pub open spec fn chain_storable(c: ChainV) -> bool {
    c.blocks.len() <= u64::MAX && forall|k: int|
        0 <= k < c.blocks.len() ==> block_storable(#[trigger] c.blocks[k])
}

/// Relies on `String::push`: appends exactly the one character.
#[verifier::external_body]
fn push_char(out: &mut String, c: char)
    ensures
        final(out)@ == old(out)@.push(c),
{
    out.push(c);
}

/// Reads one expected character.
fn expect(s: &Vec<char>, i: usize, c: char) -> (r: Option<usize>)
    requires
        i <= s@.len(),
    ensures
        match r {
            Some(j) => expect_at(s@, i as int, c) == Some(j as int) && j <= s@.len(),
            None => expect_at(s@, i as int, c) is None,
        },
{
    if i < s.len() && s[i] == c {
        Some(i + 1)
    } else {
        None
    }
}

/// Reads a number field.
fn p_u64_ln(s: &Vec<char>, i: usize) -> (r: Option<(u64, usize)>)
    requires
        i <= s@.len(),
    ensures
        match r {
            Some(p) => parse_u64_ln_at(s@, i as int) == Some((p.0, p.1 as int)) && p.1 <= s@.len(),
            None => parse_u64_ln_at(s@, i as int) is None,
        },
{
    match parse_u64(s, i) {
        Some((x, j)) => match expect(s, j, '\n') {
            Some(j2) => Some((x, j2)),
            None => None,
        },
        None => None,
    }
}

/// Reads a signed number field.
fn p_i64_ln(s: &Vec<char>, i: usize) -> (r: Option<(i64, usize)>)
    requires
        i <= s@.len(),
    ensures
        match r {
            Some(p) => parse_i64_ln_at(s@, i as int) == Some((p.0, p.1 as int)) && p.1 <= s@.len(),
            None => parse_i64_ln_at(s@, i as int) is None,
        },
{
    match parse_i64(s, i) {
        Some((x, j)) => match expect(s, j, '\n') {
            Some(j2) => Some((x, j2)),
            None => None,
        },
        None => None,
    }
}

/// Reads a string field.
fn p_str(s: &Vec<char>, i: usize) -> (r: Option<(String, usize)>)
    requires
        i <= s@.len(),
    ensures
        match r {
            Some(p) => parse_str_at(s@, i as int) == Some((p.0@, p.1 as int)) && p.1 <= s@.len(),
            None => parse_str_at(s@, i as int) is None,
        },
{
    match parse_u64(s, i) {
        Some((n, j)) => match expect(s, j, ' ') {
            Some(j2) => {
                if n > (s.len() - j2) as u64 {
                    return None;
                }
                let end = j2 + (n as usize);
                let mut content = String::new();
                let mut k = j2;
                while k < end
                    invariant
                        j2 <= k <= end <= s@.len(),
                        content@ == s@.subrange(j2 as int, k as int),
                    decreases end - k,
                {
                    push_char(&mut content, s[k]);
                    proof {
                        assert(s@.subrange(j2 as int, (k + 1) as int) =~= s@.subrange(
                            j2 as int,
                            k as int,
                        ).push(s@[k as int]));
                    }
                    k += 1;
                }
                match expect(s, end, '\n') {
                    Some(j3) => Some((content, j3)),
                    None => None,
                }
            },
            None => None,
        },
        None => None,
    }
}

/// Reads one transaction.
fn p_tx(s: &Vec<char>, i: usize) -> (r: Option<(Transaction, usize)>)
    requires
        i <= s@.len(),
    ensures
        match r {
            Some(p) => parse_tx_at(s@, i as int) == Some((p.0@, p.1 as int)) && p.1 <= s@.len(),
            None => parse_tx_at(s@, i as int) is None,
        },
{
    match p_str(s, i) {
        Some((sender, i1)) => match p_str(s, i1) {
            Some((recipient, i2)) => match p_u64_ln(s, i2) {
                Some((amount_bits, i3)) => {
                    let t = Transaction { sender, recipient, amount_bits };
                    proof {
                        let spec_t = parse_tx_at(s@, i as int).unwrap().0;
                        assert(t@ =~= spec_t);
                    }
                    Some((t, i3))
                },
                None => None,
            },
            None => None,
        },
        None => None,
    }
}

/// Reads exactly `n` transactions.
fn p_txs(s: &Vec<char>, i: usize, n: u64) -> (r: Option<(Vec<Transaction>, usize)>)
    requires
        i <= s@.len(),
    ensures
        match r {
            Some(p) => parse_txs_at(s@, i as int, n) == Some((tx_views(p.0@), p.1 as int)) && p.1
                <= s@.len(),
            None => parse_txs_at(s@, i as int, n) is None,
        },
    decreases n,
{
    if n == 0 {
        let empty: Vec<Transaction> = Vec::new();
        proof {
            assert(tx_views(empty@) =~= Seq::<TxV>::empty());
        }
        return Some((empty, i));
    }
    match p_tx(s, i) {
        Some((t, j)) => match p_txs(s, j, n - 1) {
            Some((mut rest, j2)) => {
                let ghost trest = rest@;
                rest.insert(0, t);
                proof {
                    assert(tx_views(rest@) =~= seq![t@] + tx_views(trest));
                }
                Some((rest, j2))
            },
            None => None,
        },
        None => None,
    }
}

/// Reads one stored block.
fn p_block(s: &Vec<char>, i: usize) -> (r: Option<(Block, usize)>)
    requires
        i <= s@.len(),
    ensures
        match r {
            Some(p) => parse_block_at(s@, i as int) == Some((p.0@, p.1 as int)) && p.1 <= s@.len(),
            None => parse_block_at(s@, i as int) is None,
        },
{
    match p_i64_ln(s, i) {
        Some((timestamp, i1)) => match p_u64_ln(s, i1) {
            Some((n, i2)) => match p_txs(s, i2, n) {
                Some((transactions, i3)) => match p_str(s, i3) {
                    Some((previous_hash, i4)) => match p_u64_ln(s, i4) {
                        Some((nonce, i5)) => match p_str(s, i5) {
                            Some((hash, i6)) => {
                                let b = Block {
                                    timestamp,
                                    transactions,
                                    previous_hash,
                                    nonce,
                                    hash,
                                };
                                proof {
                                    let spec_b = parse_block_at(s@, i as int).unwrap().0;
                                    assert(b@ =~= spec_b);
                                }
                                Some((b, i6))
                            },
                            None => None,
                        },
                        None => None,
                    },
                    None => None,
                },
                None => None,
            },
            None => None,
        },
        None => None,
    }
}

/// Reads exactly `n` blocks.
fn p_blocks(s: &Vec<char>, i: usize, n: u64) -> (r: Option<(Vec<Block>, usize)>)
    requires
        i <= s@.len(),
    ensures
        match r {
            Some(p) => parse_blocks_at(s@, i as int, n) == Some(
                (crate::chain::block_views(p.0@), p.1 as int),
            ) && p.1 <= s@.len(),
            None => parse_blocks_at(s@, i as int, n) is None,
        },
    decreases n,
{
    if n == 0 {
        let empty: Vec<Block> = Vec::new();
        proof {
            assert(crate::chain::block_views(empty@) =~= Seq::<BlockV>::empty());
        }
        return Some((empty, i));
    }
    match p_block(s, i) {
        Some((b, j)) => match p_blocks(s, j, n - 1) {
            Some((mut rest, j2)) => {
                let ghost brest = rest@;
                rest.insert(0, b);
                proof {
                    assert(crate::chain::block_views(rest@) =~= seq![b@] + crate::chain::block_views(
                        brest,
                    ));
                }
                Some((rest, j2))
            },
            None => None,
        },
        None => None,
    }
}

impl Blockchain {
    /// The canonical text of the whole chain, the durable representation:
    /// difficulty, block count, then every block in order.
    pub fn to_text(&self) -> (r: String)
        ensures
            r@ == enc_chain(self@),
            chain_storable(self@),
    {
        let mut out = String::new();
        append_u64_ln(&mut out, self.difficulty as u64);
        append_u64_ln(&mut out, self.blocks.len() as u64);
        let ghost bvs = crate::chain::block_views(self.blocks@);
        let ghost head = out@;
        let mut k: usize = 0;
        while k < self.blocks.len()
            invariant
                k <= self.blocks@.len(),
                bvs == crate::chain::block_views(self.blocks@),
                head == enc_u64_ln(self@.difficulty as nat) + enc_u64_ln(bvs.len()),
                out@ == head + enc_blocks(bvs.subrange(0, k as int)),
                forall|m: int| 0 <= m < k ==> block_storable(#[trigger] bvs[m]),
            decreases self.blocks@.len() - k,
        {
            append_block(&mut out, &self.blocks[k]);
            proof {
                assert(bvs.subrange(0, (k + 1) as int) =~= bvs.subrange(0, k as int).push(
                    bvs[k as int],
                ));
                lemma_enc_blocks_snoc(bvs.subrange(0, k as int), bvs[k as int]);
                assert(out@ =~= head + enc_blocks(bvs.subrange(0, (k + 1) as int)));
            }
            k += 1;
        }
        proof {
            assert(bvs.subrange(0, bvs.len() as int) =~= bvs);
            assert(out@ =~= enc_chain(self@));
        }
        out
    }

    /// Decodes a previously stored chain from its text, read as characters.
    /// Succeeds exactly on the canonical rendering of a chain with at least
    /// one block, and then returns that chain; any other text — a zero-block
    /// rendering included, since a well-formed chain has a genesis block —
    /// is a format failure. The decoded chain is not validated; callers
    /// decide whether to trust it.
    pub fn from_text(s: &Vec<char>) -> (r: Result<Blockchain, FormatFailure>)
        ensures
            match r {
                Ok(c) => spec_decode(s@) == Some(c@),
                Err(_) => spec_decode(s@) is None,
            },
    {
        match p_u64_ln(s, 0) {
            Some((d, i1)) => {
                if d > usize::MAX as u64 {
                    return Err(FormatFailure);
                }
                match p_u64_ln(s, i1) {
                    Some((n, i2)) => if n == 0 {
                        Err(FormatFailure)
                    } else {
                        match p_blocks(s, i2, n) {
                            Some((blocks, i3)) => {
                                if i3 == s.len() {
                                    let c = Blockchain { blocks, difficulty: d as usize };
                                    proof {
                                        let spec_c = spec_decode(s@).unwrap();
                                        assert(c@ =~= spec_c);
                                    }
                                    Ok(c)
                                } else {
                                    Err(FormatFailure)
                                }
                            },
                            None => Err(FormatFailure),
                        }
                    },
                    None => Err(FormatFailure),
                }
            },
            None => Err(FormatFailure),
        }
    }
}

} // verus!

// ---------------------------------------------------------------------------
// Round trip: the spec parser recovers every canonical rendering exactly.
// ---------------------------------------------------------------------------

verus! {

/// A stretch of text equal to a two-part concatenation splits into its parts.
pub proof fn lemma_split_two(s: Seq<char>, i: int, a: Seq<char>, b: Seq<char>)
    requires
        0 <= i,
        i + a.len() + b.len() <= s.len(),
        s.subrange(i, i + a.len() + b.len()) == a + b,
    ensures
        s.subrange(i, i + a.len() as int) == a,
        s.subrange(i + a.len() as int, i + a.len() + b.len()) == b,
{
    let whole = s.subrange(i, i + a.len() + b.len());
    assert forall|k: int| 0 <= k < a.len() implies s.subrange(i, i + a.len() as int)[k] == a[k] by {
        assert(s.subrange(i, i + a.len() as int)[k] == s[i + k]);
        assert(s[i + k] == whole[k]);
        assert(whole[k] == (a + b)[k]);
    };
    assert(s.subrange(i, i + a.len() as int) =~= a);
    assert forall|k: int|
        0 <= k < b.len() implies s.subrange(i + a.len() as int, i + a.len() + b.len())[k]
        == b[k] by {
        assert(s.subrange(i + a.len() as int, i + a.len() + b.len())[k] == s[i + a.len() + k]);
        assert(s[i + a.len() + k] == whole[a.len() + k]);
        assert(whole[a.len() + k] == (a + b)[a.len() + k]);
    };
    assert(s.subrange(i + a.len() as int, i + a.len() + b.len()) =~= b);
}

/// Parsing recovers a rendered number field.
pub proof fn lemma_parse_u64_ln_of_enc(s: Seq<char>, i: int, x: u64)
    requires
        0 <= i,
        i + enc_u64_ln(x as nat).len() <= s.len(),
        s.subrange(i, i + enc_u64_ln(x as nat).len() as int) == enc_u64_ln(x as nat),
    ensures
        parse_u64_ln_at(s, i) == Some((x, i + enc_u64_ln(x as nat).len() as int)),
{
    let d = dec_digits(x as nat);
    let m = d.len() as int;
    lemma_split_two(s, i, d, seq!['\n']);
    assert(s[i + m] == s.subrange(i + m, i + m + 1)[0]);
    assert(s[i + m] == '\n');
    assert(!is_digit('\n'));
    lemma_parse_u64_of_dec(s, i, x);
    assert(expect_at(s, i + m, '\n') == Some(i + m + 1));
}

/// Parsing recovers a rendered signed number field.
pub proof fn lemma_parse_i64_ln_of_enc(s: Seq<char>, i: int, x: i64)
    requires
        0 <= i,
        i + enc_i64_ln(x as int).len() <= s.len(),
        s.subrange(i, i + enc_i64_ln(x as int).len() as int) == enc_i64_ln(x as int),
    ensures
        parse_i64_ln_at(s, i) == Some((x, i + enc_i64_ln(x as int).len() as int)),
{
    let d = dec_signed(x as int);
    let m = d.len() as int;
    lemma_split_two(s, i, d, seq!['\n']);
    assert(s[i + m] == s.subrange(i + m, i + m + 1)[0]);
    assert(s[i + m] == '\n');
    assert(!is_digit('\n'));
    lemma_parse_i64_of_dec(s, i, x);
    assert(expect_at(s, i + m, '\n') == Some(i + m + 1));
}

/// Parsing recovers a rendered string field.
pub proof fn lemma_parse_str_of_enc(s: Seq<char>, i: int, t: Seq<char>)
    requires
        0 <= i,
        t.len() <= u64::MAX,
        i + enc_str(t).len() <= s.len(),
        s.subrange(i, i + enc_str(t).len() as int) == enc_str(t),
    ensures
        parse_str_at(s, i) == Some((t, i + enc_str(t).len() as int)),
{
    let x: u64 = t.len() as u64;
    let d = dec_digits(t.len());
    let m = d.len() as int;
    let tl = t.len() as int;
    // enc_str(t) is (((digits + space) + characters) + line break)
    lemma_split_two(s, i, d + seq![' '] + t, seq!['\n']);
    lemma_split_two(s, i, d + seq![' '], t);
    lemma_split_two(s, i, d, seq![' ']);
    assert(s[i + m] == s.subrange(i + m, i + m + 1)[0]);
    assert(s[i + m] == ' ');
    assert(!is_digit(' '));
    assert(s[i + m + 1 + tl] == s.subrange(i + m + 1 + tl, i + m + 2 + tl)[0]);
    assert(s[i + m + 1 + tl] == '\n');
    assert(dec_digits(x as nat) == d);
    lemma_parse_u64_of_dec(s, i, x);
    assert(expect_at(s, i + m, ' ') == Some(i + m + 1));
    assert(s.subrange(i + m + 1, i + m + 1 + x as int) == t);
    assert(expect_at(s, i + m + 1 + tl, '\n') == Some(i + m + 2 + tl));
}

/// Parsing recovers a rendered transaction.
pub proof fn lemma_parse_tx_of_enc(s: Seq<char>, i: int, t: TxV)
    requires
        0 <= i,
        tx_storable(t),
        i + enc_tx(t).len() <= s.len(),
        s.subrange(i, i + enc_tx(t).len() as int) == enc_tx(t),
    ensures
        parse_tx_at(s, i) == Some((t, i + enc_tx(t).len() as int)),
{
    let e1 = enc_str(t.sender);
    let e2 = enc_str(t.recipient);
    let e3 = enc_u64_ln(t.amount_bits as nat);
    lemma_split_two(s, i, e1 + e2, e3);
    lemma_split_two(s, i, e1, e2);
    lemma_parse_str_of_enc(s, i, t.sender);
    lemma_parse_str_of_enc(s, i + e1.len() as int, t.recipient);
    lemma_parse_u64_ln_of_enc(s, i + e1.len() + e2.len(), t.amount_bits);
    let parsed = parse_tx_at(s, i).unwrap().0;
    assert(parsed =~= t);
}

/// Parsing recovers a rendered sequence of transactions.
pub proof fn lemma_parse_txs_of_enc(s: Seq<char>, i: int, ts: Seq<TxV>)
    requires
        0 <= i,
        ts.len() <= u64::MAX,
        forall|k: int| 0 <= k < ts.len() ==> tx_storable(#[trigger] ts[k]),
        i + enc_txs(ts).len() <= s.len(),
        s.subrange(i, i + enc_txs(ts).len() as int) == enc_txs(ts),
    ensures
        parse_txs_at(s, i, ts.len() as u64) == Some((ts, i + enc_txs(ts).len() as int)),
    decreases ts.len(),
{
    if ts.len() == 0 {
        assert(parse_txs_at(s, i, 0) == Some((Seq::<TxV>::empty(), i)));
        assert(ts =~= Seq::<TxV>::empty());
    } else {
        let e1 = enc_tx(ts[0]);
        let rest = ts.drop_first();
        let e2 = enc_txs(rest);
        assert(enc_txs(ts) == e1 + e2);
        lemma_split_two(s, i, e1, e2);
        lemma_parse_tx_of_enc(s, i, ts[0]);
        lemma_parse_txs_of_enc(s, i + e1.len() as int, rest);
        assert(seq![ts[0]] + rest =~= ts);
        assert((ts.len() as u64 - 1) as u64 == rest.len() as u64);
    }
}

/// Parsing recovers a rendered block.
pub proof fn lemma_parse_block_of_enc(s: Seq<char>, i: int, b: BlockV)
    requires
        0 <= i,
        block_storable(b),
        i + enc_block(b).len() <= s.len(),
        s.subrange(i, i + enc_block(b).len() as int) == enc_block(b),
    ensures
        parse_block_at(s, i) == Some((b, i + enc_block(b).len() as int)),
{
    let e1 = enc_i64_ln(b.timestamp as int);
    let e2 = enc_u64_ln(b.transactions.len());
    let e3 = enc_txs(b.transactions);
    let e4 = enc_str(b.previous_hash);
    let e5 = enc_u64_ln(b.nonce as nat);
    let e6 = enc_str(b.hash);
    lemma_split_two(s, i, e1 + e2 + e3 + e4 + e5, e6);
    lemma_split_two(s, i, e1 + e2 + e3 + e4, e5);
    lemma_split_two(s, i, e1 + e2 + e3, e4);
    lemma_split_two(s, i, e1 + e2, e3);
    lemma_split_two(s, i, e1, e2);
    let n: u64 = b.transactions.len() as u64;
    lemma_parse_i64_ln_of_enc(s, i, b.timestamp);
    assert(enc_u64_ln(n as nat) == e2);
    lemma_parse_u64_ln_of_enc(s, i + e1.len() as int, n);
    lemma_parse_txs_of_enc(s, i + e1.len() + e2.len(), b.transactions);
    lemma_parse_str_of_enc(s, i + e1.len() + e2.len() + e3.len(), b.previous_hash);
    lemma_parse_u64_ln_of_enc(s, i + e1.len() + e2.len() + e3.len() + e4.len(), b.nonce);
    lemma_parse_str_of_enc(s, i + e1.len() + e2.len() + e3.len() + e4.len() + e5.len(), b.hash);
    let parsed = parse_block_at(s, i).unwrap().0;
    assert(parsed =~= b);
}

/// Parsing recovers a rendered sequence of blocks.
pub proof fn lemma_parse_blocks_of_enc(s: Seq<char>, i: int, bs: Seq<BlockV>)
    requires
        0 <= i,
        bs.len() <= u64::MAX,
        forall|k: int| 0 <= k < bs.len() ==> block_storable(#[trigger] bs[k]),
        i + enc_blocks(bs).len() <= s.len(),
        s.subrange(i, i + enc_blocks(bs).len() as int) == enc_blocks(bs),
    ensures
        parse_blocks_at(s, i, bs.len() as u64) == Some((bs, i + enc_blocks(bs).len() as int)),
    decreases bs.len(),
{
    if bs.len() == 0 {
        assert(parse_blocks_at(s, i, 0) == Some((Seq::<BlockV>::empty(), i)));
        assert(bs =~= Seq::<BlockV>::empty());
    } else {
        let e1 = enc_block(bs[0]);
        let rest = bs.drop_first();
        let e2 = enc_blocks(rest);
        assert(enc_blocks(bs) == e1 + e2);
        lemma_split_two(s, i, e1, e2);
        lemma_parse_block_of_enc(s, i, bs[0]);
        lemma_parse_blocks_of_enc(s, i + e1.len() as int, rest);
        assert(seq![bs[0]] + rest =~= bs);
        assert((bs.len() as u64 - 1) as u64 == rest.len() as u64);
    }
}

/// Storage round trip: decoding the canonical text of a chain with at
/// least one block yields that chain back — identical block sequence and
/// difficulty — so a persist followed by a restore loses nothing. Every
/// chain held in a `Blockchain` is storable (`to_text` says so of its
/// receiver), and every chain the library builds has a genesis block.
pub proof fn lemma_storage_round_trip(c: ChainV)
    requires
        chain_storable(c),
        c.blocks.len() >= 1,
    ensures
        spec_decode(enc_chain(c)) == Some(c),
{
    let s = enc_chain(c);
    let e1 = enc_u64_ln(c.difficulty as nat);
    let n: u64 = c.blocks.len() as u64;
    let e2 = enc_u64_ln(n as nat);
    let e3 = enc_blocks(c.blocks);
    assert(s.subrange(0, s.len() as int) =~= s);
    lemma_split_two(s, 0, e1 + e2, e3);
    lemma_split_two(s, 0, e1, e2);
    let d: u64 = c.difficulty as u64;
    assert(enc_u64_ln(d as nat) == e1);
    lemma_parse_u64_ln_of_enc(s, 0, d);
    lemma_parse_u64_ln_of_enc(s, e1.len() as int, n);
    lemma_parse_blocks_of_enc(s, e1.len() + e2.len() as int, c.blocks);
    assert(d <= usize::MAX as u64);
    let parsed = spec_decode(s).unwrap();
    assert(parsed =~= c);
}

} // verus!
