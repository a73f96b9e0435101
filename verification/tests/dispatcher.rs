use rustchain::dispatch::{apply_command, Command, Reply};
use rustchain::types::Blockchain;

#[test]
fn commands_apply_in_order() {
    let mut bc = Blockchain::new(1, 100);
    let r = apply_command(
        &mut bc,
        Command::AddTransaction {
            sender: String::from("Alice"),
            receiver: String::from("Bob"),
            amount: 50,
        },
    );
    assert_eq!(r, Reply::Ack);
    assert_eq!(bc.pending_transactions.len(), 1);

    let r = apply_command(
        &mut bc,
        Command::MineBlock {
            address: String::from("Miner1"),
        },
    );
    assert_eq!(r, Reply::Ack);
    assert_eq!(bc.chain.len(), 2);

    let r = apply_command(
        &mut bc,
        Command::GetBalance {
            address: String::from("Miner1"),
        },
    );
    assert_eq!(r, Reply::Balance(100));

    let r = apply_command(&mut bc, Command::ValidateChain);
    assert_eq!(r, Reply::Validity(Ok(())));
}

#[test]
fn save_and_load_through_the_dispatcher() {
    let mut bc = Blockchain::new(1, 100);
    apply_command(
        &mut bc,
        Command::MineBlock {
            address: String::from("M"),
        },
    );
    let data = match apply_command(&mut bc, Command::SaveChain) {
        Reply::ChainData(d) => d,
        other => panic!("unexpected reply: {:?}", other),
    };

    let mut other = Blockchain::new(1, 100);
    let r = apply_command(&mut other, Command::LoadChain { data });
    assert_eq!(r, Reply::Ack);
    assert_eq!(other, bc);
}

#[test]
fn a_failed_load_leaves_the_ledger_alone() {
    let mut bc = Blockchain::new(1, 100);
    apply_command(
        &mut bc,
        Command::MineBlock {
            address: String::from("M"),
        },
    );
    let before_len = bc.chain.len();
    let r = apply_command(
        &mut bc,
        Command::LoadChain {
            data: vec![1, 2, 3],
        },
    );
    assert!(matches!(r, Reply::LoadFailed(_)));
    assert_eq!(bc.chain.len(), before_len);
}
