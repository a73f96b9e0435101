use rustchain::ledger::ValidityViolation;
use rustchain::types::{Block, Blockchain};

#[test]
fn genesis_invariant() {
    let bc = Blockchain::new(2, 100);
    assert_eq!(bc.chain.len(), 1);
    assert_eq!(bc.chain[0].index, 0);
    assert_eq!(bc.chain[0].previous_hash, "0");
    assert!(bc.chain[0].transactions.is_empty());
    assert!(bc.pending_transactions.is_empty());
    assert_eq!(bc.chain[0].hash, bc.chain[0].calculate_hash());
}

#[test]
fn mine_one_block_with_transaction() {
    let mut bc = Blockchain::new(1, 100);
    bc.add_transaction(String::from("Alice"), String::from("Bob"), 50);
    assert_eq!(bc.pending_transactions.len(), 1);
    bc.mine_pending_transactions(String::from("Miner1")).unwrap();
    assert_eq!(bc.chain.len(), 2);
    assert!(bc.chain[1].hash.starts_with("0"));
    assert!(bc.pending_transactions.is_empty());
    assert_eq!(bc.get_balance("Miner1"), 100);
    assert_eq!(bc.get_balance("Alice"), -50);
    assert_eq!(bc.get_balance("Bob"), 50);
}

#[test]
fn reward_transaction_comes_first() {
    let mut bc = Blockchain::new(1, 7);
    bc.add_transaction(String::from("A"), String::from("B"), 1);
    bc.mine_pending_transactions(String::from("M")).unwrap();
    let txs = &bc.chain[1].transactions;
    assert_eq!(txs.len(), 2);
    assert_eq!(txs[0].sender, "BLOCKCHAIN");
    assert_eq!(txs[0].receiver, "M");
    assert_eq!(txs[0].amount, 7);
    assert_eq!(txs[1].sender, "A");
}

#[test]
fn mining_twice_with_empty_pool() {
    let mut bc = Blockchain::new(1, 100);
    bc.mine_pending_transactions(String::from("Miner1")).unwrap();
    assert_eq!(bc.chain.len(), 2);
    assert_eq!(bc.chain[1].transactions.len(), 1);
    bc.mine_pending_transactions(String::from("Miner1")).unwrap();
    assert_eq!(bc.chain.len(), 3);
    assert_eq!(bc.chain[2].transactions.len(), 1);
    assert_eq!(bc.get_balance("Miner1"), 200);
}

#[test]
fn valid_chain_is_reported_valid() {
    let mut bc = Blockchain::new(1, 100);
    bc.add_transaction(String::from("Alice"), String::from("Bob"), 50);
    bc.mine_pending_transactions(String::from("Miner1")).unwrap();
    bc.add_transaction(String::from("Bob"), String::from("Carol"), 25);
    bc.mine_pending_transactions(String::from("Miner1")).unwrap();
    assert_eq!(bc.is_chain_valid(), Ok(()));
}

#[test]
fn tampered_amount_breaks_the_hash() {
    let mut bc = Blockchain::new(1, 100);
    bc.add_transaction(String::from("Alice"), String::from("Bob"), 50);
    bc.mine_pending_transactions(String::from("Miner1")).unwrap();
    bc.chain[1].transactions[1].amount = 5000;
    assert_eq!(bc.is_chain_valid(), Err(ValidityViolation::HashMismatch(1)));
}

#[test]
fn tampered_link_is_reported_broken() {
    let mut bc = Blockchain::new(1, 100);
    bc.mine_pending_transactions(String::from("Miner1")).unwrap();
    bc.chain[1].previous_hash = String::from("somewhere else");
    bc.chain[1].hash = bc.chain[1].calculate_hash();
    assert_eq!(bc.is_chain_valid(), Err(ValidityViolation::LinkBroken(1)));
}

#[test]
fn first_defect_wins() {
    let mut bc = Blockchain::new(1, 100);
    bc.mine_pending_transactions(String::from("M")).unwrap();
    bc.mine_pending_transactions(String::from("M")).unwrap();
    bc.chain[1].hash = String::from("bad");
    bc.chain[2].previous_hash = String::from("also bad");
    assert_eq!(bc.is_chain_valid(), Err(ValidityViolation::HashMismatch(1)));
}

#[test]
fn balance_of_unknown_address_is_zero() {
    let mut bc = Blockchain::new(1, 100);
    bc.add_transaction(String::from("Alice"), String::from("Bob"), 50);
    bc.mine_pending_transactions(String::from("Miner1")).unwrap();
    assert_eq!(bc.get_balance("Nobody"), 0);
}

#[test]
fn self_transfer_nets_to_zero() {
    let mut bc = Blockchain::new(1, 100);
    bc.add_transaction(String::from("Alice"), String::from("Alice"), 50);
    bc.mine_pending_transactions(String::from("Miner1")).unwrap();
    assert_eq!(bc.get_balance("Alice"), 0);
}

#[test]
fn pending_pool_does_not_count_toward_balances() {
    let mut bc = Blockchain::new(1, 100);
    bc.add_transaction(String::from("Alice"), String::from("Bob"), 50);
    assert_eq!(bc.get_balance("Bob"), 0);
}

#[test]
fn reserved_identity_pays_out_the_rewards() {
    let mut bc = Blockchain::new(1, 100);
    bc.mine_pending_transactions(String::from("M")).unwrap();
    bc.mine_pending_transactions(String::from("N")).unwrap();
    assert_eq!(bc.get_balance("BLOCKCHAIN"), -200);
    assert_eq!(bc.get_balance("M") + bc.get_balance("N"), 200);
}

#[test]
fn balances_sum_to_the_rewards_issued() {
    let mut bc = Blockchain::new(1, 100);
    bc.add_transaction(String::from("Alice"), String::from("Bob"), 50);
    bc.mine_pending_transactions(String::from("Miner1")).unwrap();
    bc.add_transaction(String::from("Bob"), String::from("Carol"), 25);
    bc.add_transaction(String::from("Alice"), String::from("Carol"), 35);
    bc.mine_pending_transactions(String::from("Miner1")).unwrap();
    let sum = bc.get_balance("Miner1")
        + bc.get_balance("Alice")
        + bc.get_balance("Bob")
        + bc.get_balance("Carol");
    assert_eq!(sum, 200);
    assert_eq!(bc.get_balance("BLOCKCHAIN"), -200);
}

#[test]
fn mine_block_finds_a_matching_nonce() {
    let mut block = Block::new(1, 12345, Vec::new(), String::from("abc"));
    assert_eq!(block.hash, block.calculate_hash());
    let found = block.mine_block(2);
    assert!(found);
    assert!(block.hash.starts_with("00"));
    assert_eq!(block.hash, block.calculate_hash());
    assert_eq!(block.index, 1);
    assert_eq!(block.timestamp, 12345);
}

#[test]
fn impossible_difficulty_leaves_the_block_alone() {
    let mut block = Block::new(1, 1, Vec::new(), String::from("p"));
    let before_hash = block.hash.clone();
    let found = block.mine_block(65);
    assert!(!found);
    assert_eq!(block.hash, before_hash);
    assert_eq!(block.nonce, 0);
}

#[test]
fn mining_fails_when_the_difficulty_cannot_be_met() {
    let mut bc = Blockchain::new(70, 100);
    let before = bc.chain.len();
    assert!(bc.mine_pending_transactions(String::from("M")).is_err());
    assert_eq!(bc.chain.len(), before);
    assert!(bc.pending_transactions.is_empty());
}

#[test]
fn negative_amounts_are_permitted() {
    let mut bc = Blockchain::new(1, 100);
    bc.add_transaction(String::from("Alice"), String::from("Bob"), -30);
    bc.mine_pending_transactions(String::from("M")).unwrap();
    assert_eq!(bc.get_balance("Alice"), 30);
    assert_eq!(bc.get_balance("Bob"), -30);
}
