//! The command dispatcher's transition function. A single consumer owns the
//! ledger and applies one command at a time, in arrival order, producing
//! exactly one reply per command. The queue, the reply channels and the byte
//! store live with the caller; this function is the whole of what the
//! dispatcher does to the ledger.

use vstd::prelude::*;
use crate::types::{Blockchain, TxView};
use crate::codec::{blocks_fit, txs_fit};
use crate::ledger::{
    MineError, ValidityViolation, chain_consistent, balance_fits, chain_balance,
    no_qualifying_nonce,
};
use crate::persist::{PersistenceError, enc_payload, dec_payload};

verus! {

/// The commands the dispatcher consumes. Persistence commands carry bytes,
/// not paths: the caller reads and writes the byte store.
pub enum Command {
    AddTransaction { sender: String, receiver: String, amount: i64 },
    MineBlock { address: String },
    GetBalance { address: String },
    ValidateChain,
    SaveChain,
    LoadChain { data: Vec<u8> },
}

/// The one reply a command produces.
#[derive(Debug, PartialEq)]
pub enum Reply {
    Ack,
    Balance(i128),
    Validity(Result<(), ValidityViolation>),
    ChainData(Vec<u8>),
    MineFailed(MineError),
    LoadFailed(PersistenceError),
}

/// Applies one command to the ledger and produces its reply. Commands that
/// fail leave the ledger exactly as it was.
pub fn apply_command(bc: &mut Blockchain, cmd: Command) -> (r: Reply)
    requires
        old(bc)@.chain.len() >= 1,
        cmd matches Command::MineBlock { address } ==> old(bc)@.chain.last().index < u64::MAX,
        cmd matches Command::GetBalance { address } ==> balance_fits(old(bc)@.chain, address@),
    ensures
        match cmd {
            Command::AddTransaction { sender, receiver, amount } => {
                &&& r == Reply::Ack
                &&& final(bc)@.pending_transactions == old(bc)@.pending_transactions.push(
                    TxView { sender: sender@, receiver: receiver@, amount },
                )
                &&& final(bc)@.chain == old(bc)@.chain
                &&& final(bc).difficulty == old(bc).difficulty
                &&& final(bc).mining_reward == old(bc).mining_reward
            },
            Command::MineBlock { address } => match r {
                Reply::Ack => {
                    &&& final(bc)@.chain == old(bc)@.chain.push(final(bc)@.chain.last())
                    &&& Blockchain::mined_block_ok(old(bc)@, final(bc)@.chain.last(), address@)
                    &&& final(bc)@.pending_transactions.len() == 0
                    &&& final(bc).difficulty == old(bc).difficulty
                    &&& final(bc).mining_reward == old(bc).mining_reward
                },
                Reply::MineFailed(_) => {
                    &&& *final(bc) == *old(bc)
                    &&& (old(bc)@.difficulty > 64 || exists|ts: u64|
                        no_qualifying_nonce(old(bc)@, address@, ts, old(bc)@.difficulty as int))
                },
                _ => false,
            },
            Command::GetBalance { address } => match r {
                Reply::Balance(v) => v as int == chain_balance(old(bc)@.chain, address@)
                    && *final(bc) == *old(bc),
                _ => false,
            },
            Command::ValidateChain => match r {
                Reply::Validity(res) => (res is Ok <==> chain_consistent(old(bc)@.chain))
                    && *final(bc) == *old(bc),
                _ => false,
            },
            Command::SaveChain => match r {
                Reply::ChainData(d) => {
                    &&& d@ == enc_payload(old(bc)@.chain, old(bc)@.pending_transactions)
                    &&& blocks_fit(old(bc)@.chain)
                    &&& txs_fit(old(bc)@.pending_transactions)
                    &&& *final(bc) == *old(bc)
                },
                _ => false,
            },
            Command::LoadChain { data } => match r {
                Reply::Ack => {
                    &&& dec_payload(data@) == Some(
                        (final(bc)@.chain, final(bc)@.pending_transactions),
                    )
                    &&& final(bc).difficulty == old(bc).difficulty
                    &&& final(bc).mining_reward == old(bc).mining_reward
                },
                Reply::LoadFailed(_) => dec_payload(data@) is None && *final(bc) == *old(bc),
                _ => false,
            },
        },
{
    match cmd {
        Command::AddTransaction { sender, receiver, amount } => {
            bc.add_transaction(sender, receiver, amount);
            Reply::Ack
        },
        Command::MineBlock { address } => match bc.mine_pending_transactions(address) {
            Ok(()) => Reply::Ack,
            Err(e) => Reply::MineFailed(e),
        },
        Command::GetBalance { address } => Reply::Balance(bc.get_balance(address.as_str())),
        Command::ValidateChain => Reply::Validity(bc.is_chain_valid()),
        Command::SaveChain => Reply::ChainData(bc.save_bytes()),
        Command::LoadChain { data } => {
            let difficulty = bc.difficulty;
            let mining_reward = bc.mining_reward;
            match Blockchain::load_bytes(&data, difficulty, mining_reward) {
                Ok(loaded) => {
                    *bc = loaded;
                    Reply::Ack
                },
                Err(e) => Reply::LoadFailed(e),
            }
        },
    }
}

} // verus!
