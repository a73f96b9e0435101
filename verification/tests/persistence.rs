use rustchain::persist::PersistenceError;
use rustchain::types::Blockchain;

#[test]
fn save_and_load_round_trip() {
    let mut bc = Blockchain::new(1, 100);
    bc.add_transaction(String::from("Alice"), String::from("Bob"), 50);
    bc.mine_pending_transactions(String::from("Miner1")).unwrap();
    bc.add_transaction(String::from("Bob"), String::from("Carol"), 10);
    let data = bc.save_bytes();
    let loaded = Blockchain::load_bytes(&data, 1, 100).unwrap();
    assert_eq!(loaded, bc);
}

#[test]
fn load_takes_the_callers_parameters() {
    let bc = Blockchain::new(1, 100);
    let data = bc.save_bytes();
    let loaded = Blockchain::load_bytes(&data, 5, 250).unwrap();
    assert_eq!(loaded.difficulty, 5);
    assert_eq!(loaded.mining_reward, 250);
    assert_eq!(loaded.chain, bc.chain);
    assert_eq!(loaded.pending_transactions, bc.pending_transactions);
}

#[test]
fn empty_strings_and_unicode_round_trip() {
    let mut bc = Blockchain::new(1, 1);
    bc.add_transaction(String::from(""), String::from("Bö🦀"), -7);
    let data = bc.save_bytes();
    let loaded = Blockchain::load_bytes(&data, 1, 1).unwrap();
    assert_eq!(loaded, bc);
}

#[test]
fn garbage_does_not_load() {
    let data = vec![0xffu8, 0x00, 0x13, 0x37];
    assert_eq!(
        Blockchain::load_bytes(&data, 1, 100),
        Err(PersistenceError::MalformedData)
    );
}

#[test]
fn truncated_payload_does_not_load() {
    let bc = Blockchain::new(1, 100);
    let mut data = bc.save_bytes();
    data.truncate(data.len() - 1);
    assert_eq!(
        Blockchain::load_bytes(&data, 1, 100),
        Err(PersistenceError::MalformedData)
    );
}

#[test]
fn trailing_bytes_do_not_load() {
    let bc = Blockchain::new(1, 100);
    let mut data = bc.save_bytes();
    data.push(0);
    assert_eq!(
        Blockchain::load_bytes(&data, 1, 100),
        Err(PersistenceError::MalformedData)
    );
}

#[test]
fn empty_payload_does_not_load() {
    let data: Vec<u8> = Vec::new();
    assert_eq!(
        Blockchain::load_bytes(&data, 1, 100),
        Err(PersistenceError::MalformedData)
    );
}
