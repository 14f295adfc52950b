use state_bench::accumulator::{Accumulator, Batch};
use state_bench::operation::Operation;

const EMPTY_CODE_HASH: &str = "c5d2460186f7233c927e7db2dcc703c0e500b653ca82273b7bfad8045d85a470";

fn addr(last: u8) -> Vec<u8> {
    let mut a = vec![0u8; 20];
    a[19] = last;
    a
}

fn word(last: u8) -> Vec<u8> {
    let mut w = vec![0u8; 32];
    w[31] = last;
    w
}

fn create(a: u8, balance: u8, nonce: u64) -> Operation {
    Operation::CreateAccount { address: addr(a), balance: word(balance), nonce }
}

fn code(a: u8, bytes: &[u8]) -> Operation {
    Operation::SetCode { address: addr(a), code: bytes.to_vec() }
}

fn store(a: u8, slot: u8, value: u8) -> Operation {
    Operation::SetStorage { address: addr(a), slot: word(slot), value: word(value) }
}

fn run(ops: Vec<Operation>) -> Batch {
    let mut acc = Accumulator::new();
    for op in ops {
        acc.apply(op);
    }
    acc.finish()
}

#[test]
fn last_storage_write_wins() {
    let b = run(vec![store(1, 1, 10), store(1, 1, 20), store(1, 1, 30)]);
    assert_eq!(b.updates.len(), 1);
    assert_eq!(b.updates[0].storage.len(), 1);
    assert_eq!(b.updates[0].storage[0], (word(1), word(30)));
}

#[test]
fn distinct_slots_are_kept_in_first_write_order() {
    let b = run(vec![store(1, 2, 10), store(1, 1, 20), store(1, 2, 30)]);
    assert_eq!(b.updates[0].storage, vec![(word(2), word(30)), (word(1), word(20))]);
}

#[test]
fn counters_count_operations_with_duplicates() {
    let b = run(vec![
        create(1, 1, 0),
        create(1, 2, 1),
        code(2, &[0x60]),
        store(1, 1, 1),
        store(1, 1, 2),
        store(2, 1, 3),
    ]);
    assert_eq!(b.accounts_created, 2);
    assert_eq!(b.contracts_created, 1);
    assert_eq!(b.storage_slots, 3);
    assert_eq!(b.updates.len(), 2);
}

#[test]
fn updates_follow_first_appearance_of_addresses() {
    let b = run(vec![store(3, 1, 1), create(1, 1, 0), store(3, 2, 2), code(2, &[1])]);
    let order: Vec<u8> = b.updates.iter().map(|u| u.address[19]).collect();
    assert_eq!(order, vec![3, 1, 2]);
}

#[test]
fn create_account_takes_the_empty_code_hash() {
    let b = run(vec![create(1, 100, 5)]);
    let info = b.updates[0].info.clone().unwrap();
    assert_eq!(hex::encode(&info.code_hash), EMPTY_CODE_HASH);
    assert_eq!(info.balance, word(100));
    assert_eq!(info.nonce, 5);
    assert!(b.updates[0].code.is_none());
}

#[test]
fn set_code_without_account_has_zero_balance_and_nonce() {
    let bytecode = [0x60u8, 0x00, 0x60, 0x00];
    let b = run(vec![code(1, &bytecode)]);
    let info = b.updates[0].info.clone().unwrap();
    assert_eq!(info.balance, vec![0u8; 32]);
    assert_eq!(info.nonce, 0);
    assert_eq!(info.code_hash, alloy_primitives::keccak256(bytecode).0.to_vec());
    assert_ne!(info.code_hash, bytecode.to_vec());
    assert_eq!(b.updates[0].code, Some(bytecode.to_vec()));
}

#[test]
fn set_code_after_create_keeps_balance_and_nonce() {
    let b = run(vec![create(1, 7, 3), code(1, &[0xfe])]);
    let info = b.updates[0].info.clone().unwrap();
    assert_eq!(info.balance, word(7));
    assert_eq!(info.nonce, 3);
    assert_eq!(info.code_hash, alloy_primitives::keccak256([0xfeu8]).0.to_vec());
}

#[test]
fn create_after_set_code_keeps_the_code_hash() {
    let b = run(vec![code(1, &[0xfe]), create(1, 9, 4)]);
    let info = b.updates[0].info.clone().unwrap();
    assert_eq!(info.balance, word(9));
    assert_eq!(info.nonce, 4);
    assert_eq!(info.code_hash, alloy_primitives::keccak256([0xfeu8]).0.to_vec());
}

#[test]
fn finalize_changes_nothing() {
    let b = run(vec![store(1, 1, 1), Operation::Finalize]);
    assert_eq!(b.storage_slots, 1);
    assert_eq!(b.updates.len(), 1);
}

#[test]
fn empty_accumulator_finishes_empty() {
    let b = run(vec![]);
    assert!(b.updates.is_empty());
    assert_eq!((b.accounts_created, b.contracts_created, b.storage_slots), (0, 0, 0));
}

fn addr_with_head(head: u8, last: u8) -> Vec<u8> {
    let mut a = addr(last);
    a[0] = head;
    a
}

fn word_with_head(head: u8, last: u8) -> Vec<u8> {
    let mut w = word(last);
    w[0] = head;
    w
}

#[test]
fn addresses_sharing_low_bytes_stay_apart() {
    let ops = vec![
        Operation::CreateAccount { address: addr_with_head(1, 5), balance: word(1), nonce: 1 },
        Operation::CreateAccount { address: addr_with_head(2, 5), balance: word(2), nonce: 2 },
        Operation::CreateAccount { address: addr_with_head(1, 5), balance: word(3), nonce: 3 },
    ];
    let b = run(ops);
    assert_eq!(b.updates.len(), 2);
    assert_eq!(b.updates[0].address, addr_with_head(1, 5));
    assert_eq!(b.updates[0].info.clone().unwrap().nonce, 3);
    assert_eq!(b.updates[1].address, addr_with_head(2, 5));
    assert_eq!(b.updates[1].info.clone().unwrap().nonce, 2);
}

#[test]
fn slots_sharing_low_bytes_stay_apart() {
    let ops = vec![
        Operation::SetStorage { address: addr(1), slot: word_with_head(1, 9), value: word(1) },
        Operation::SetStorage { address: addr(1), slot: word_with_head(2, 9), value: word(2) },
        Operation::SetStorage { address: addr(1), slot: word_with_head(1, 9), value: word(3) },
    ];
    let b = run(ops);
    assert_eq!(
        b.updates[0].storage,
        vec![(word_with_head(1, 9), word(3)), (word_with_head(2, 9), word(2))]
    );
}

#[test]
fn many_addresses_and_slots() {
    let mut ops = Vec::new();
    for i in 0..200u8 {
        ops.push(store(i, i, i));
        ops.push(store(i, i.wrapping_add(1), 1));
    }
    for i in 0..200u8 {
        ops.push(store(i, i, 7));
    }
    let b = run(ops);
    assert_eq!(b.updates.len(), 200);
    assert_eq!(b.storage_slots, 600);
    for (i, u) in b.updates.iter().enumerate() {
        assert_eq!(u.address, addr(i as u8));
        assert_eq!(u.storage[0], (word(i as u8), word(7)));
        assert_eq!(u.storage.len(), 2);
    }
}

#[test]
fn last_storage_write_wins_among_other_operations() {
    let b = run(vec![
        store(1, 1, 10),
        create(1, 5, 1),
        store(2, 1, 99),
        store(1, 2, 50),
        store(1, 1, 20),
        code(1, &[0x60]),
        store(1, 2, 51),
    ]);
    assert_eq!(b.updates[0].storage, vec![(word(1), word(20)), (word(2), word(51))]);
}

#[test]
fn set_code_as_only_operation_on_address_amid_others() {
    let bytecode = [0x60u8, 0x01];
    let b = run(vec![create(2, 3, 4), code(1, &bytecode), store(2, 1, 1), create(3, 1, 1)]);
    let u = b.updates.iter().find(|u| u.address == addr(1)).unwrap();
    let info = u.info.clone().unwrap();
    assert_eq!(info.balance, vec![0u8; 32]);
    assert_eq!(info.nonce, 0);
    assert_eq!(info.code_hash, alloy_primitives::keccak256(bytecode).0.to_vec());
    assert_eq!(u.code, Some(bytecode.to_vec()));
}
