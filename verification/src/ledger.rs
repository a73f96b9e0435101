//! The ledger engine: genesis construction, the pending-transaction pool,
//! proof-of-work mining, chain-validity checking and balance accounting.

use vstd::prelude::*;
use vstd::string::StringExecFns;
use crate::types::{
    Transaction, Block, Blockchain, TxView, BlockView, BlockchainView, tx_views, block_views,
    clone_txs, str_eq,
};
use crate::codec::{enc_header, header_bytes};
use crate::hashing::{digest_hex, sha256_hex};

verus! {

/// The digest a block's stored hash must equal: the hex rendering of the
/// SHA-256 of the block's header bytes. The stored hash itself is not part
/// of its own input.
pub open spec fn hash_of_header(b: BlockView) -> Seq<char> {
    digest_hex(enc_header(b))
}

/// Proof-of-work: the first `difficulty` characters of the hash are `'0'`.
pub open spec fn meets_difficulty(h: Seq<char>, difficulty: int) -> bool {
    difficulty <= h.len() && forall|i: int| 0 <= i < difficulty ==> h[i] == '0'
}

/// The reserved sender identity of the synthetic reward transactions.
pub open spec fn reserved_sender() -> Seq<char> {
    "BLOCKCHAIN"@
}

/// The reward transaction a mining operation prepends to the pool snapshot.
pub open spec fn reward_tx(addr: Seq<char>, amount: i64) -> TxView {
    TxView { sender: reserved_sender(), receiver: addr, amount }
}

/// The same block with another nonce; the header digest depends on the
/// nonce, so this is what a mining search varies.
pub open spec fn with_nonce(b: BlockView, n: u64) -> BlockView {
    BlockView { nonce: n, ..b }
}

/// The candidate a mining operation builds before searching nonces: the next
/// index, the drawn timestamp, the reward transaction followed by the pool
/// snapshot, and a link to the tip. The hash field plays no part in the
/// header digest.
pub open spec fn candidate_block(
    pre: BlockchainView,
    addr: Seq<char>,
    timestamp: u64,
    nonce: u64,
) -> BlockView {
    BlockView {
        index: (pre.chain.last().index + 1) as u64,
        timestamp,
        transactions: seq![reward_tx(addr, pre.mining_reward)] + pre.pending_transactions,
        previous_hash: pre.chain.last().hash,
        nonce,
        hash: Seq::empty(),
    }
}

/// No nonce at all gives the candidate built at `timestamp` a header digest
/// with `difficulty` leading zeros: the one way a mining search can fail.
pub open spec fn no_qualifying_nonce(
    pre: BlockchainView,
    addr: Seq<char>,
    timestamp: u64,
    difficulty: int,
) -> bool {
    forall|n: u64|
        !meets_difficulty(
            hash_of_header(#[trigger] candidate_block(pre, addr, timestamp, n)),
            difficulty,
        )
}

/// The block at `i` stores the digest of its own header.
pub open spec fn hash_ok_at(chain: Seq<BlockView>, i: int) -> bool {
    chain[i].hash == hash_of_header(chain[i])
}

/// The block at `i` points back at its predecessor's stored hash.
pub open spec fn link_ok_at(chain: Seq<BlockView>, i: int) -> bool {
    chain[i].previous_hash == chain[i - 1].hash
}

/// What `is_chain_valid` checks: self-consistency and linkage of every block
/// after genesis.
pub open spec fn chain_consistent(chain: Seq<BlockView>) -> bool {
    forall|i: int| 1 <= i < chain.len() ==> #[trigger] hash_ok_at(chain, i) && link_ok_at(chain, i)
}

/// The ledger invariant: a genesis block of index zero with previous hash
/// `"0"` and no transactions, increasing indices, every block linked to its
/// predecessor and storing its own header digest, and proof-of-work on every
/// block after genesis.
pub open spec fn well_formed(v: BlockchainView) -> bool {
    &&& v.chain.len() >= 1
    &&& v.chain[0].index == 0
    &&& v.chain[0].previous_hash == "0"@
    &&& v.chain[0].transactions.len() == 0
    &&& forall|i: int| 0 <= i < v.chain.len() ==> #[trigger] hash_ok_at(v.chain, i)
    &&& forall|i: int|
        1 <= i < v.chain.len() ==> #[trigger] link_ok_at(v.chain, i) && v.chain[i].index
            == v.chain[i - 1].index + 1 && meets_difficulty(v.chain[i].hash, v.difficulty as int)
}

/// What one transaction does to one address's balance.
pub open spec fn tx_delta(t: TxView, addr: Seq<char>) -> int {
    (if t.sender == addr {
        -(t.amount as int)
    } else {
        0
    }) + (if t.receiver == addr {
        t.amount as int
    } else {
        0
    })
}

/// The balance an address draws from a list of transactions.
pub open spec fn txs_balance(txs: Seq<TxView>, addr: Seq<char>) -> int
    decreases txs.len(),
{
    if txs.len() == 0 {
        0
    } else {
        txs_balance(txs.drop_last(), addr) + tx_delta(txs.last(), addr)
    }
}

/// The balance an address draws from every transaction in every block.
pub open spec fn chain_balance(chain: Seq<BlockView>, addr: Seq<char>) -> int
    decreases chain.len(),
{
    if chain.len() == 0 {
        0
    } else {
        chain_balance(chain.drop_last(), addr) + txs_balance(chain.last().transactions, addr)
    }
}

pub open spec fn within_i128(v: int) -> bool {
    i128::MIN <= v <= i128::MAX
}

/// Every partial sum that a balance scan walks through fits the machine
/// arithmetic. This bounds nothing but the running total.
pub open spec fn balance_fits(chain: Seq<BlockView>, addr: Seq<char>) -> bool {
    forall|i: int, j: int|
        0 <= i < chain.len() && 0 <= j <= chain[i].transactions.len() ==> within_i128(
            chain_balance(chain.take(i), addr) + txs_balance(
                #[trigger] chain[i].transactions.take(j),
                addr,
            ),
        )
}

/// Whether a stored hash carries the demanded number of leading zeros.
pub fn check_difficulty(h: &String, difficulty: usize) -> (r: bool)
    ensures
        r == meets_difficulty(h@, difficulty as int),
{
    let len = h.as_str().unicode_len();
    if difficulty > len {
        return false;
    }
    let mut i: usize = 0;
    while i < difficulty
        invariant
            i <= difficulty,
            difficulty <= h@.len(),
            forall|j: int| 0 <= j < i ==> h@[j] == '0',
        decreases difficulty - i,
    {
        if h.as_str().get_char(i) != '0' {
            return false;
        }
        i = i + 1;
    }
    true
}

/// Why a mining operation can fail: the nonce space was exhausted without a
/// hash that meets the difficulty.
#[derive(Debug, Clone, Copy, PartialEq, Eq, Structural)]
pub enum MineError {
    NonceExhausted,
}

/// The first defect a validity scan finds, with the offending block's index.
#[derive(Debug, Clone, Copy, PartialEq, Eq, Structural)]
pub enum ValidityViolation {
    HashMismatch(usize),
    LinkBroken(usize),
}

impl Block {
    /// A block with the given header fields, nonce zero, and its hash field
    /// set to the digest of that header.
    pub fn new(index: u64, timestamp: u64, transactions: Vec<Transaction>, previous_hash: String)
        -> (r: Block)
        ensures
            r@.index == index,
            r@.timestamp == timestamp,
            r@.transactions == tx_views(transactions@),
            r@.previous_hash == previous_hash@,
            r@.nonce == 0,
            r@.hash == hash_of_header(r@),
    {
        let mut block = Block {
            index,
            timestamp,
            transactions,
            previous_hash,
            nonce: 0,
            hash: String::new(),
        };
        let h = block.calculate_hash();
        proof {
            let before = block@;
            let after = BlockView { hash: h@, ..before };
            assert(enc_header(after) == enc_header(before));
        }
        block.hash = h;
        block
    }

    /// Recomputes the digest of the block's header fields.
    pub fn calculate_hash(&self) -> (r: String)
        ensures
            r@ == hash_of_header(self@),
            r@.len() == 64,
    {
        let bytes = header_bytes(self);
        sha256_hex(&bytes)
    }

    /// Searches nonces upward from the current one for a hash with
    /// `difficulty` leading zeros, skipping none. On success the block keeps
    /// the least qualifying nonce and stores that hash; it fails only when
    /// the difficulty exceeds the hash length or the whole remaining nonce
    /// space yields no qualifying digest, and then the block is left as it
    /// was.
    pub fn mine_block(&mut self, difficulty: usize) -> (found: bool)
        ensures
            final(self).index == old(self).index,
            final(self).timestamp == old(self).timestamp,
            final(self).transactions == old(self).transactions,
            final(self).previous_hash == old(self).previous_hash,
            found ==> {
                &&& final(self)@.hash == hash_of_header(final(self)@)
                &&& meets_difficulty(final(self)@.hash, difficulty as int)
                &&& final(self).nonce >= old(self).nonce
                &&& forall|n: u64|
                    old(self).nonce <= n < final(self).nonce ==> !meets_difficulty(
                        hash_of_header(#[trigger] with_nonce(old(self)@, n)),
                        difficulty as int,
                    )
            },
            !found ==> {
                &&& final(self).nonce == old(self).nonce
                &&& final(self).hash == old(self).hash
                &&& (difficulty > 64 || forall|n: u64|
                    n >= old(self).nonce ==> !meets_difficulty(
                        hash_of_header(#[trigger] with_nonce(old(self)@, n)),
                        difficulty as int,
                    ))
            },
    {
        if difficulty > 64 {
            // A hash is 64 hexadecimal characters; more leading zeros than
            // that can never be found.
            return false;
        }
        let start_nonce = self.nonce;
        loop
            invariant
                difficulty <= 64,
                self.index == old(self).index,
                self.timestamp == old(self).timestamp,
                self.transactions == old(self).transactions,
                self.previous_hash == old(self).previous_hash,
                self.hash == old(self).hash,
                start_nonce == old(self).nonce,
                self.nonce >= start_nonce,
                self@ == with_nonce(old(self)@, self.nonce),
                forall|n: u64|
                    start_nonce <= n < self.nonce ==> !meets_difficulty(
                        hash_of_header(#[trigger] with_nonce(old(self)@, n)),
                        difficulty as int,
                    ),
            decreases u64::MAX - self.nonce,
        {
            let h = self.calculate_hash();
            if check_difficulty(&h, difficulty) {
                self.hash = h;
                proof {
                    assert(enc_header(self@) == enc_header(with_nonce(old(self)@, self.nonce)));
                }
                return true;
            }
            if self.nonce == u64::MAX {
                proof {
                    assert forall|n: u64| n >= start_nonce implies !meets_difficulty(
                        hash_of_header(#[trigger] with_nonce(old(self)@, n)),
                        difficulty as int,
                    ) by {
                        if n == u64::MAX {
                            assert(self@ == with_nonce(old(self)@, n));
                        }
                    }
                }
                self.nonce = start_nonce;
                return false;
            }
            self.nonce = self.nonce + 1;
        }
    }
}

impl Blockchain {
    /// A fresh ledger: the given mining parameters, an empty pool, and a
    /// newly built genesis block as the whole chain.
    pub fn new(difficulty: usize, mining_reward: i64) -> (r: Blockchain)
        ensures
            well_formed(r@),
            r@.difficulty == difficulty,
            r@.mining_reward == mining_reward,
            r@.chain.len() == 1,
            r@.pending_transactions.len() == 0,
            r@.chain[0].index == 0,
            r@.chain[0].previous_hash == "0"@,
            r@.chain[0].transactions.len() == 0,
            r@.chain[0].nonce == 0,
    {
        let mut blockchain = Blockchain {
            chain: Vec::new(),
            pending_transactions: Vec::new(),
            difficulty,
            mining_reward,
        };
        blockchain.create_genesis_block();
        blockchain
    }

    /// Appends block zero: index zero, previous hash `"0"`, no transactions,
    /// hash equal to its own header digest. No proof-of-work is applied to
    /// genesis, by policy.
    pub fn create_genesis_block(&mut self)
        ensures
            final(self)@.chain.len() == old(self)@.chain.len() + 1,
            final(self)@.chain == old(self)@.chain.push(final(self)@.chain.last()),
            final(self)@.chain.last().index == 0,
            final(self)@.chain.last().previous_hash == "0"@,
            final(self)@.chain.last().transactions.len() == 0,
            final(self)@.chain.last().nonce == 0,
            hash_ok_at(final(self)@.chain, final(self)@.chain.len() - 1),
            final(self)@.pending_transactions == old(self)@.pending_transactions,
            final(self).difficulty == old(self).difficulty,
            final(self).mining_reward == old(self).mining_reward,
    {
        let genesis_block = Block::new(0, Self::get_timestamp(), Vec::new(), String::from_str("0"));
        self.chain.push(genesis_block);
        proof {
            assert(block_views(self.chain@) =~= block_views(old(self).chain@).push(
                genesis_block@,
            ));
        }
    }

    /// The most recently appended block.
    pub fn get_latest_block(&self) -> (r: &Block)
        requires
            self@.chain.len() >= 1,
        ensures
            r@ == self@.chain.last(),
    {
        &self.chain[self.chain.len() - 1]
    }

    /// Appends a transaction to the pending pool. Never fails: there is no
    /// balance check, and overdraft is permitted by design.
    pub fn add_transaction(&mut self, sender: String, receiver: String, amount: i64)
        ensures
            final(self)@.pending_transactions == old(self)@.pending_transactions.push(
                TxView { sender: sender@, receiver: receiver@, amount },
            ),
            final(self)@.chain == old(self)@.chain,
            final(self).difficulty == old(self).difficulty,
            final(self).mining_reward == old(self).mining_reward,
            well_formed(old(self)@) ==> well_formed(final(self)@),
    {
        let transaction = Transaction { sender, receiver, amount };
        self.pending_transactions.push(transaction);
        proof {
            assert(tx_views(self.pending_transactions@) =~= tx_views(
                old(self).pending_transactions@,
            ).push(self.pending_transactions@.last()@));
        }
    }

    /// What a successful mining operation appends: the next index, a link to
    /// the previous tip, the reward transaction followed by the pool
    /// snapshot, a stored hash equal to the header digest, and proof-of-work
    /// at the ledger's difficulty.
    pub open spec fn mined_block_ok(pre: BlockchainView, b: BlockView, addr: Seq<char>) -> bool {
        &&& b.index == pre.chain.last().index + 1
        &&& b.previous_hash == pre.chain.last().hash
        &&& b.transactions == seq![reward_tx(addr, pre.mining_reward)] + pre.pending_transactions
        &&& b.hash == hash_of_header(b)
        &&& meets_difficulty(b.hash, pre.difficulty as int)
    }

    /// Mines the pending pool into a new block for `mining_reward_address`.
    /// On success the block is appended and the pool is cleared; on failure
    /// the ledger is untouched.
    pub fn mine_pending_transactions(&mut self, mining_reward_address: String) -> (r: Result<
        (),
        MineError,
    >)
        requires
            old(self)@.chain.len() >= 1,
            old(self)@.chain.last().index < u64::MAX,
        ensures
            match r {
                Ok(()) => {
                    &&& final(self)@.chain == old(self)@.chain.push(final(self)@.chain.last())
                    &&& Self::mined_block_ok(
                        old(self)@,
                        final(self)@.chain.last(),
                        mining_reward_address@,
                    )
                    &&& final(self)@.pending_transactions.len() == 0
                    &&& final(self).difficulty == old(self).difficulty
                    &&& final(self).mining_reward == old(self).mining_reward
                    &&& (well_formed(old(self)@) ==> well_formed(final(self)@))
                },
                Err(_) => {
                    &&& *final(self) == *old(self)
                    &&& (old(self)@.difficulty > 64 || exists|ts: u64|
                        no_qualifying_nonce(
                            old(self)@,
                            mining_reward_address@,
                            ts,
                            old(self)@.difficulty as int,
                        ))
                },
            },
    {
        let reward = Transaction {
            sender: String::from_str("BLOCKCHAIN"),
            receiver: mining_reward_address,
            amount: self.mining_reward,
        };
        let mut txs: Vec<Transaction> = Vec::new();
        txs.push(reward);
        let mut rest = clone_txs(&self.pending_transactions);
        txs.append(&mut rest);
        proof {
            assert(tx_views(txs@) =~= seq![
                reward_tx(mining_reward_address@, self.mining_reward),
            ] + tx_views(self.pending_transactions@));
        }
        let latest_index: u64 = self.get_latest_block().index;
        let latest_hash: String = self.get_latest_block().hash.clone();
        let mut new_block = Block::new(latest_index + 1, Self::get_timestamp(), txs, latest_hash);
        if new_block.mine_block(self.difficulty) {
            proof {
                assert(new_block@.transactions == tx_views(new_block.transactions@));
            }
            self.chain.push(new_block);
            self.pending_transactions = Vec::new();
            proof {
                let oldc = block_views(old(self).chain@);
                let newc = block_views(self.chain@);
                assert(newc =~= oldc.push(new_block@));
                assert(tx_views(self.pending_transactions@) =~= Seq::<TxView>::empty());
                if well_formed(old(self)@) {
                    assert forall|i: int| 0 <= i < newc.len() implies #[trigger] hash_ok_at(
                        newc,
                        i,
                    ) by {
                        if i < oldc.len() {
                            assert(hash_ok_at(oldc, i));
                        }
                    }
                    assert forall|i: int| 1 <= i < newc.len() implies #[trigger] link_ok_at(
                        newc,
                        i,
                    ) && newc[i].index == newc[i - 1].index + 1 && meets_difficulty(
                        newc[i].hash,
                        self.difficulty as int,
                    ) by {
                        if i < oldc.len() {
                            assert(link_ok_at(oldc, i));
                        } else {
                            assert(newc[i - 1] == oldc.last());
                        }
                    }
                }
            }
            Ok(())
        } else {
            proof {
                let pre = old(self)@;
                let addr = mining_reward_address@;
                let d = pre.difficulty as int;
                if pre.difficulty <= 64 {
                    let ts = new_block.timestamp;
                    assert forall|n: u64| !meets_difficulty(
                        hash_of_header(#[trigger] candidate_block(pre, addr, ts, n)),
                        d,
                    ) by {
                        assert(!meets_difficulty(hash_of_header(with_nonce(new_block@, n)), d));
                        assert(enc_header(with_nonce(new_block@, n)) == enc_header(
                            candidate_block(pre, addr, ts, n),
                        ));
                    }
                    assert(no_qualifying_nonce(pre, addr, ts, d));
                }
            }
            Err(MineError::NonceExhausted)
        }
    }

    /// Scans the chain from block one: first checks that each block stores
    /// its own header digest, then that it links to its predecessor, and
    /// reports the first defect found. Historical proof-of-work is not
    /// rechecked, matching the engine's documented policy.
    #[verifier::rlimit(50)]
    pub fn is_chain_valid(&self) -> (r: Result<(), ValidityViolation>)
        ensures
            r is Ok <==> chain_consistent(self@.chain),
            match r {
                Ok(()) => chain_consistent(self@.chain),
                Err(ValidityViolation::HashMismatch(k)) => {
                    &&& 1 <= k < self@.chain.len()
                    &&& !hash_ok_at(self@.chain, k as int)
                    &&& forall|i: int|
                        1 <= i < k ==> #[trigger] hash_ok_at(self@.chain, i) && link_ok_at(
                            self@.chain,
                            i,
                        )
                },
                Err(ValidityViolation::LinkBroken(k)) => {
                    &&& 1 <= k < self@.chain.len()
                    &&& hash_ok_at(self@.chain, k as int)
                    &&& !link_ok_at(self@.chain, k as int)
                    &&& forall|i: int|
                        1 <= i < k ==> #[trigger] hash_ok_at(self@.chain, i) && link_ok_at(
                            self@.chain,
                            i,
                        )
                },
            },
    {
        let mut i: usize = 1;
        while i < self.chain.len()
            invariant
                1 <= i,
                self@.chain.len() >= 1 ==> i <= self@.chain.len(),
                self@.chain.len() < 1 ==> i == 1,
                forall|j: int| 1 <= j < i ==> #[trigger] hash_ok_at(self@.chain, j),
                forall|j: int| 1 <= j < i ==> #[trigger] link_ok_at(self@.chain, j),
            decreases self@.chain.len() - i,
        {
            proof {
                assert(self@.chain[i as int] == self.chain@[i as int]@);
                assert(self@.chain[i - 1] == self.chain@[i - 1]@);
            }
            let recomputed = self.chain[i].calculate_hash();
            if !str_eq(self.chain[i].hash.as_str(), recomputed.as_str()) {
                proof {
                    assert(!hash_ok_at(self@.chain, i as int));
                }
                return Err(ValidityViolation::HashMismatch(i));
            }
            if !str_eq(self.chain[i].previous_hash.as_str(), self.chain[i - 1].hash.as_str()) {
                proof {
                    assert(hash_ok_at(self@.chain, i as int));
                    assert(!link_ok_at(self@.chain, i as int));
                }
                return Err(ValidityViolation::LinkBroken(i));
            }
            proof {
                assert(hash_ok_at(self@.chain, i as int));
                assert(link_ok_at(self@.chain, i as int));
            }
            i = i + 1;
        }
        proof {
            assert forall|j: int| 1 <= j < self@.chain.len() implies #[trigger] hash_ok_at(
                self@.chain,
                j,
            ) && link_ok_at(self@.chain, j) by {
                assert(hash_ok_at(self@.chain, j));
                assert(link_ok_at(self@.chain, j));
            }
        }
        Ok(())
    }

    /// Sums, over every transaction in every block, `-amount` where the
    /// address is the sender and `+amount` where it is the receiver. The
    /// pending pool does not count.
    #[verifier::rlimit(50)]
    pub fn get_balance(&self, address: &str) -> (r: i128)
        requires
            balance_fits(self@.chain, address@),
        ensures
            r as int == chain_balance(self@.chain, address@),
    {
        let ghost chain = self@.chain;
        let mut balance: i128 = 0;
        let mut i: usize = 0;
        proof {
            assert(chain.take(0) =~= Seq::<BlockView>::empty());
        }
        while i < self.chain.len()
            invariant
                i <= chain.len(),
                chain == self@.chain,
                balance_fits(chain, address@),
                balance as int == chain_balance(chain.take(i as int), address@),
            decreases chain.len() - i,
        {
            let ghost txs = chain[i as int].transactions;
            let mut j: usize = 0;
            proof {
                assert(txs.take(0) =~= Seq::<TxView>::empty());
            }
            while j < self.chain[i].transactions.len()
                invariant
                    i < chain.len(),
                    j <= txs.len(),
                    chain == self@.chain,
                    txs == chain[i as int].transactions,
                    balance_fits(chain, address@),
                    balance as int == chain_balance(chain.take(i as int), address@) + txs_balance(
                        txs.take(j as int),
                        address@,
                    ),
                decreases txs.len() - j,
            {
                let amount = self.chain[i].transactions[j].amount;
                let mut delta: i128 = 0;
                if str_eq(self.chain[i].transactions[j].sender.as_str(), address) {
                    delta = delta - (amount as i128);
                }
                if str_eq(self.chain[i].transactions[j].receiver.as_str(), address) {
                    delta = delta + (amount as i128);
                }
                proof {
                    assert(delta as int == tx_delta(txs[j as int], address@));
                    assert(txs.take(j + 1) =~= txs.take(j as int).push(txs[j as int]));
                    assert(txs.take(j + 1).drop_last() =~= txs.take(j as int));
                    assert(within_i128(
                        chain_balance(chain.take(i as int), address@) + txs_balance(
                            txs.take(j + 1),
                            address@,
                        ),
                    ));
                }
                balance = balance + delta;
                j = j + 1;
            }
            proof {
                assert(txs.take(txs.len() as int) =~= txs);
                assert(chain.take(i + 1) =~= chain.take(i as int).push(chain[i as int]));
                assert(chain.take(i + 1).drop_last() =~= chain.take(i as int));
            }
            i = i + 1;
        }
        proof {
            assert(chain.take(chain.len() as int) =~= chain);
        }
        balance
    }

    /// Relies on `std::time::SystemTime`: seconds since the Unix epoch, or
    /// zero should the clock read earlier than the epoch. Nothing is promised
    /// of the value.
    #[verifier::external_body]
    pub fn get_timestamp() -> u64 {
        match std::time::SystemTime::now().duration_since(std::time::UNIX_EPOCH) {
            Ok(d) => d.as_secs(),
            Err(_) => 0,
        }
    }
}

/// A well-formed ledger passes the validity scan: the invariant that genesis
/// establishes and mining preserves implies everything `is_chain_valid`
/// checks.
pub proof fn lemma_well_formed_valid(v: BlockchainView)
    requires
        well_formed(v),
    ensures
        chain_consistent(v.chain),
{
    assert forall|i: int| 1 <= i < v.chain.len() implies #[trigger] hash_ok_at(v.chain, i)
        && link_ok_at(v.chain, i) by {
        assert(hash_ok_at(v.chain, i));
        assert(link_ok_at(v.chain, i));
    }
}

/// The total amount a list of transactions issues from the reserved reward
/// identity.
pub open spec fn txs_issued(txs: Seq<TxView>) -> int
    decreases txs.len(),
{
    if txs.len() == 0 {
        0
    } else {
        txs_issued(txs.drop_last()) + if txs.last().sender == reserved_sender() {
            txs.last().amount as int
        } else {
            0
        }
    }
}

/// The total reward amount issued across all blocks of a chain.
pub open spec fn chain_issued(chain: Seq<BlockView>) -> int
    decreases chain.len(),
{
    if chain.len() == 0 {
        0
    } else {
        chain_issued(chain.drop_last()) + txs_issued(chain.last().transactions)
    }
}

/// The sum of one transaction's effect over a list of addresses.
pub open spec fn sum_tx_delta(addrs: Seq<Seq<char>>, t: TxView) -> int
    decreases addrs.len(),
{
    if addrs.len() == 0 {
        0
    } else {
        tx_delta(t, addrs[0]) + sum_tx_delta(addrs.drop_first(), t)
    }
}

/// The sum of a transaction list's balances over a list of addresses.
pub open spec fn sum_txs_balance(addrs: Seq<Seq<char>>, txs: Seq<TxView>) -> int
    decreases addrs.len(),
{
    if addrs.len() == 0 {
        0
    } else {
        txs_balance(txs, addrs[0]) + sum_txs_balance(addrs.drop_first(), txs)
    }
}

/// The sum of a chain's balances over a list of addresses.
pub open spec fn sum_chain_balance(addrs: Seq<Seq<char>>, chain: Seq<BlockView>) -> int
    decreases addrs.len(),
{
    if addrs.len() == 0 {
        0
    } else {
        chain_balance(chain, addrs[0]) + sum_chain_balance(addrs.drop_first(), chain)
    }
}

proof fn lemma_contains_head_tail(s: Seq<Seq<char>>, x: Seq<char>)
    requires
        s.len() > 0,
    ensures
        s.contains(x) <==> (s[0] == x || s.drop_first().contains(x)),
{
    if s.contains(x) {
        let k = choose|k: int| 0 <= k < s.len() && s[k] == x;
        if k > 0 {
            assert(s.drop_first()[k - 1] == x);
            assert(s.drop_first().contains(x));
        }
    }
    if s.drop_first().contains(x) {
        let k = choose|k: int| 0 <= k < s.drop_first().len() && s.drop_first()[k] == x;
        assert(s[k + 1] == x);
        assert(s.contains(x));
    }
    if s[0] == x {
        assert(s.contains(x));
    }
}

proof fn lemma_sum_txs_balance_empty(addrs: Seq<Seq<char>>)
    ensures
        sum_txs_balance(addrs, Seq::empty()) == 0,
    decreases addrs.len(),
{
    if addrs.len() > 0 {
        lemma_sum_txs_balance_empty(addrs.drop_first());
    }
}

proof fn lemma_sum_txs_balance_unfold(addrs: Seq<Seq<char>>, txs: Seq<TxView>)
    requires
        txs.len() > 0,
    ensures
        sum_txs_balance(addrs, txs) == sum_txs_balance(addrs, txs.drop_last()) + sum_tx_delta(
            addrs,
            txs.last(),
        ),
    decreases addrs.len(),
{
    if addrs.len() > 0 {
        lemma_sum_txs_balance_unfold(addrs.drop_first(), txs);
    }
}

proof fn lemma_sum_chain_balance_empty(addrs: Seq<Seq<char>>)
    ensures
        sum_chain_balance(addrs, Seq::empty()) == 0,
    decreases addrs.len(),
{
    if addrs.len() > 0 {
        lemma_sum_chain_balance_empty(addrs.drop_first());
    }
}

proof fn lemma_sum_chain_balance_unfold(addrs: Seq<Seq<char>>, chain: Seq<BlockView>)
    requires
        chain.len() > 0,
    ensures
        sum_chain_balance(addrs, chain) == sum_chain_balance(addrs, chain.drop_last())
            + sum_txs_balance(addrs, chain.last().transactions),
    decreases addrs.len(),
{
    if addrs.len() > 0 {
        lemma_sum_chain_balance_unfold(addrs.drop_first(), chain);
    }
}

proof fn lemma_sum_tx_delta_value(addrs: Seq<Seq<char>>, t: TxView)
    requires
        addrs.no_duplicates(),
    ensures
        sum_tx_delta(addrs, t) == (if addrs.contains(t.sender) {
            -(t.amount as int)
        } else {
            0
        }) + (if addrs.contains(t.receiver) {
            t.amount as int
        } else {
            0
        }),
    decreases addrs.len(),
{
    if addrs.len() == 0 {
        if addrs.contains(t.sender) {
            let k = choose|k: int| 0 <= k < addrs.len() && addrs[k] == t.sender;
            assert(false);
        }
        if addrs.contains(t.receiver) {
            let k = choose|k: int| 0 <= k < addrs.len() && addrs[k] == t.receiver;
            assert(false);
        }
    } else {
        let tail = addrs.drop_first();
        assert(tail.no_duplicates()) by {
            assert(forall|i: int| 0 <= i < tail.len() ==> tail[i] == addrs[i + 1]);
        }
        lemma_sum_tx_delta_value(tail, t);
        lemma_contains_head_tail(addrs, t.sender);
        lemma_contains_head_tail(addrs, t.receiver);
        if tail.contains(addrs[0]) {
            let k = choose|k: int| 0 <= k < tail.len() && tail[k] == addrs[0];
            assert(addrs[k + 1] == addrs[0]);
            assert(false);
        }
    }
}

/// Under which a list of addresses accounts for a transaction list: every
/// sender is either the reserved reward identity or listed, and every
/// receiver is listed.
pub open spec fn addrs_cover_txs(addrs: Seq<Seq<char>>, txs: Seq<TxView>) -> bool {
    forall|j: int|
        0 <= j < txs.len() ==> (#[trigger] txs[j].sender == reserved_sender() || addrs.contains(
            txs[j].sender,
        )) && addrs.contains(txs[j].receiver)
}

proof fn lemma_sum_txs_balance_issued(addrs: Seq<Seq<char>>, txs: Seq<TxView>)
    requires
        addrs.no_duplicates(),
        !addrs.contains(reserved_sender()),
        addrs_cover_txs(addrs, txs),
    ensures
        sum_txs_balance(addrs, txs) == txs_issued(txs),
    decreases txs.len(),
{
    if txs.len() == 0 {
        lemma_sum_txs_balance_empty(addrs);
        assert(txs =~= Seq::<TxView>::empty());
    } else {
        let t = txs.last();
        assert(addrs_cover_txs(addrs, txs.drop_last())) by {
            assert(forall|j: int|
                0 <= j < txs.drop_last().len() ==> #[trigger] txs.drop_last()[j] == txs[j]);
        }
        lemma_sum_txs_balance_issued(addrs, txs.drop_last());
        lemma_sum_txs_balance_unfold(addrs, txs);
        lemma_sum_tx_delta_value(addrs, t);
        assert(t == txs[txs.len() - 1]);
    }
}

/// Under which a list of addresses accounts for every transaction in a
/// chain.
pub open spec fn addrs_cover_chain(addrs: Seq<Seq<char>>, chain: Seq<BlockView>) -> bool {
    forall|i: int| 0 <= i < chain.len() ==> addrs_cover_txs(addrs, #[trigger] chain[i].transactions)
}

/// Balance conservation up to reward issuance: over any duplicate-free list
/// of addresses that accounts for every party to every transaction in the
/// chain and leaves out the reserved reward identity, the balances sum to
/// exactly the total reward amount issued. Ordinary transactions move value
/// between two listed addresses and so cancel out.
pub proof fn lemma_balance_conservation(chain: Seq<BlockView>, addrs: Seq<Seq<char>>)
    requires
        addrs.no_duplicates(),
        !addrs.contains(reserved_sender()),
        addrs_cover_chain(addrs, chain),
    ensures
        sum_chain_balance(addrs, chain) == chain_issued(chain),
    decreases chain.len(),
{
    if chain.len() == 0 {
        lemma_sum_chain_balance_empty(addrs);
        assert(chain =~= Seq::<BlockView>::empty());
    } else {
        assert(addrs_cover_chain(addrs, chain.drop_last())) by {
            assert(forall|i: int|
                0 <= i < chain.drop_last().len() ==> #[trigger] chain.drop_last()[i] == chain[i]);
        }
        lemma_balance_conservation(chain.drop_last(), addrs);
        lemma_sum_chain_balance_unfold(addrs, chain);
        assert(chain.last() == chain[chain.len() - 1]);
        lemma_sum_txs_balance_issued(addrs, chain.last().transactions);
    }
}

} // verus!
