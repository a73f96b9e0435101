//! The ledger's data model: transactions, blocks and the blockchain value,
//! together with the mathematical views that the contracts speak of.

use vstd::prelude::*;

verus! {

/// A transfer of some amount from one address to another. Identity is
/// structural: there is no signature and no unique id.
#[derive(Debug, Clone, PartialEq)]
pub struct Transaction {
    pub sender: String,
    pub receiver: String,
    pub amount: i64,
}

/// One mined block: a header (everything but `hash`) plus the stored digest
/// of that header.
#[derive(Debug, Clone, PartialEq)]
pub struct Block {
    pub index: u64,
    pub timestamp: u64,
    pub transactions: Vec<Transaction>,
    pub previous_hash: String,
    pub nonce: u64,
    pub hash: String,
}

/// The ledger: an append-only chain of blocks, the pool of transactions not
/// yet mined, and the mining parameters fixed at construction.
#[derive(Debug, PartialEq)]
pub struct Blockchain {
    pub chain: Vec<Block>,
    pub pending_transactions: Vec<Transaction>,
    pub difficulty: usize,
    pub mining_reward: i64,
}

/// The mathematical value of a transaction.
pub ghost struct TxView {
    pub sender: Seq<char>,
    pub receiver: Seq<char>,
    pub amount: i64,
}

/// The mathematical value of a block.
pub ghost struct BlockView {
    pub index: u64,
    pub timestamp: u64,
    pub transactions: Seq<TxView>,
    pub previous_hash: Seq<char>,
    pub nonce: u64,
    pub hash: Seq<char>,
}

/// The mathematical value of the whole ledger.
pub ghost struct BlockchainView {
    pub chain: Seq<BlockView>,
    pub pending_transactions: Seq<TxView>,
    pub difficulty: usize,
    pub mining_reward: i64,
}

impl View for Transaction {
    type V = TxView;

    open spec fn view(&self) -> TxView {
        TxView { sender: self.sender@, receiver: self.receiver@, amount: self.amount }
    }
}

/// The views of a sequence of transactions, in order.
pub open spec fn tx_views(txs: Seq<Transaction>) -> Seq<TxView> {
    txs.map_values(|t: Transaction| t@)
}

impl View for Block {
    type V = BlockView;

    open spec fn view(&self) -> BlockView {
        BlockView {
            index: self.index,
            timestamp: self.timestamp,
            transactions: tx_views(self.transactions@),
            previous_hash: self.previous_hash@,
            nonce: self.nonce,
            hash: self.hash@,
        }
    }
}

/// The views of a sequence of blocks, in order.
pub open spec fn block_views(blocks: Seq<Block>) -> Seq<BlockView> {
    blocks.map_values(|b: Block| b@)
}

impl View for Blockchain {
    type V = BlockchainView;

    open spec fn view(&self) -> BlockchainView {
        BlockchainView {
            chain: block_views(self.chain@),
            pending_transactions: tx_views(self.pending_transactions@),
            difficulty: self.difficulty,
            mining_reward: self.mining_reward,
        }
    }
}

/// Relies on `str`'s `PartialEq`: two string slices are equal exactly when
/// their characters are.
#[verifier::external_body]
pub(crate) fn str_eq(a: &str, b: &str) -> (r: bool)
    ensures
        r == (a@ == b@),
{
    a == b
}

/// A copy of a transaction, equal to the original in value.
pub fn clone_tx(t: &Transaction) -> (r: Transaction)
    ensures
        r@ == t@,
{
    Transaction { sender: t.sender.clone(), receiver: t.receiver.clone(), amount: t.amount }
}

/// A copy of a transaction list, equal to the original in value.
pub fn clone_txs(txs: &Vec<Transaction>) -> (r: Vec<Transaction>)
    ensures
        tx_views(r@) == tx_views(txs@),
{
    let mut out: Vec<Transaction> = Vec::new();
    let mut i: usize = 0;
    while i < txs.len()
        invariant
            i <= txs@.len(),
            out@.len() == i,
            forall|k: int| 0 <= k < i ==> out@[k]@ == txs@[k]@,
        decreases txs@.len() - i,
    {
        out.push(clone_tx(&txs[i]));
        i = i + 1;
    }
    proof {
        assert(tx_views(out@) =~= tx_views(txs@));
    }
    out
}

} // verus!
