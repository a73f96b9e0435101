//! Persistence: the saved image of a ledger holds the chain and the pending
//! pool, and nothing else. The mining parameters are not stored; a load
//! takes them from the caller. Reading and writing the byte store is the
//! caller's business; this module only produces and consumes the bytes.

use vstd::prelude::*;
use crate::types::{Blockchain, TxView, BlockView};
use crate::codec::{
    enc_blocks, enc_txs, dec_blocks, dec_txs, blocks_fit, txs_fit, write_blocks, write_txs,
    read_blocks, read_txs, lemma_subrange_concat, lemma_dec_blocks_enc, lemma_dec_txs_enc,
};

verus! {

/// The persisted payload: the chain, then the pending pool.
pub open spec fn enc_payload(chain: Seq<BlockView>, pending: Seq<TxView>) -> Seq<u8> {
    enc_blocks(chain) + enc_txs(pending)
}

/// Decodes a persisted payload; every byte must be accounted for.
pub open spec fn dec_payload(bytes: Seq<u8>) -> Option<(Seq<BlockView>, Seq<TxView>)> {
    match dec_blocks(bytes, 0) {
        Some((chain, p)) => match dec_txs(bytes, p) {
            Some((pending, e)) => {
                if e == bytes.len() {
                    Some((chain, pending))
                } else {
                    None
                }
            },
            None => None,
        },
        None => None,
    }
}

/// A load fails only on bytes that do not decode; the ledger in memory is
/// untouched by such a failure.
#[derive(Debug, Clone, Copy, PartialEq, Eq, Structural)]
pub enum PersistenceError {
    MalformedData,
}

impl Blockchain {
    /// The bytes a save writes out.
    pub fn save_bytes(&self) -> (r: Vec<u8>)
        ensures
            r@ == enc_payload(self@.chain, self@.pending_transactions),
            blocks_fit(self@.chain),
            txs_fit(self@.pending_transactions),
    {
        let mut out: Vec<u8> = Vec::new();
        write_blocks(&mut out, &self.chain);
        write_txs(&mut out, &self.pending_transactions);
        out
    }

    /// Rebuilds a ledger from saved bytes. The difficulty and mining reward
    /// come from the caller, never from the payload.
    pub fn load_bytes(bytes: &Vec<u8>, difficulty: usize, mining_reward: i64) -> (r: Result<
        Blockchain,
        PersistenceError,
    >)
        ensures
            match r {
                Ok(bc) => {
                    &&& dec_payload(bytes@) == Some((bc@.chain, bc@.pending_transactions))
                    &&& bc@.difficulty == difficulty
                    &&& bc@.mining_reward == mining_reward
                },
                Err(_) => dec_payload(bytes@) is None,
            },
    {
        match read_blocks(bytes, 0) {
            Some((chain, p)) => match read_txs(bytes, p) {
                Some((pending, e)) => {
                    if e == bytes.len() {
                        Ok(
                            Blockchain {
                                chain,
                                pending_transactions: pending,
                                difficulty,
                                mining_reward,
                            },
                        )
                    } else {
                        Err(PersistenceError::MalformedData)
                    }
                },
                None => Err(PersistenceError::MalformedData),
            },
            None => Err(PersistenceError::MalformedData),
        }
    }
}

/// Loading what was saved gives the chain and the pool back unchanged. The
/// side conditions hold of every payload an actual ledger produces.
pub proof fn lemma_save_load_round_trip(chain: Seq<BlockView>, pending: Seq<TxView>)
    requires
        blocks_fit(chain),
        txs_fit(pending),
    ensures
        dec_payload(enc_payload(chain, pending)) == Some((chain, pending)),
{
    let bytes = enc_payload(chain, pending);
    assert(bytes.subrange(0, (enc_blocks(chain).len() + enc_txs(pending).len()) as int) =~= bytes);
    lemma_subrange_concat(bytes, 0, enc_blocks(chain), enc_txs(pending));
    lemma_dec_blocks_enc(bytes, 0, chain);
    lemma_dec_txs_enc(bytes, enc_blocks(chain).len() as int, pending);
}

} // verus!
