use revelation_chain::block::{Block, BlockHeader};
use revelation_chain::block_validation::{validate_and_apply_block, BlockError};
use revelation_chain::crypto::{pubkey_hash, public_key, sign};
use revelation_chain::difficulty::calculate_next_target;
use revelation_chain::genesis::genesis_block;
use revelation_chain::merkle::merkle_root;
use revelation_chain::params::block_reward;
use revelation_chain::pow::mine;
use revelation_chain::transaction::{Transaction, TxInput, TxOutput};
use revelation_chain::utxo::{
    collect_inputs, has_duplicates, outpoints_contain, OutPoint, UndoLog, UtxoEntry, UtxoSet,
};
use revelation_chain::validation::{
    check_transaction, sum_outputs, validate_transaction, TxError,
};

const KEY: &[u8] = b"the owner's key";
const OTHER: &[u8] = b"somebody else's key";

fn address(seed: &[u8]) -> Vec<u8> {
    pubkey_hash(&public_key(seed))
}

fn entry(value: u64, owner: &[u8], height: u64, coinbase: bool) -> UtxoEntry {
    UtxoEntry {
        value,
        pubkey_hash: address(owner),
        creation_height: height,
        is_coinbase: coinbase,
    }
}

fn spend(seed: &[u8], from: &[(Vec<u8>, u32)], outputs: &[(u64, Vec<u8>)]) -> Transaction {
    let pubkey = public_key(seed);
    let mut tx = Transaction {
        inputs: from
            .iter()
            .map(|(txid, index)| TxInput {
                txid: txid.clone(),
                index: *index,
                pubkey: pubkey.clone(),
                signature: vec![],
                address_index: 0,
            })
            .collect(),
        outputs: outputs
            .iter()
            .map(|(value, to)| TxOutput { value: *value, pubkey_hash: to.clone() })
            .collect(),
    };
    let signature = sign(seed, &tx.sighash());
    for input in tx.inputs.iter_mut() {
        input.signature = signature.clone();
    }
    tx
}

fn contents(utxos: &UtxoSet) -> Vec<(Vec<u8>, u32, u64, Vec<u8>, u64, bool)> {
    let mut all: Vec<_> = utxos
        .snapshot()
        .into_iter()
        .map(|(p, e)| (p.txid, p.index, e.value, e.pubkey_hash, e.creation_height, e.is_coinbase))
        .collect();
    all.sort();
    all
}

fn funded() -> UtxoSet {
    let mut utxos = UtxoSet::new();
    utxos.insert(vec![1; 32], 0, entry(1_000, KEY, 3, false));
    utxos.insert(vec![1; 32], 1, entry(500, KEY, 3, false));
    utxos.insert(vec![2; 32], 0, entry(5_000_000_000, KEY, 5, true));
    utxos.insert(vec![3; 32], 0, entry(70, OTHER, 1, false));
    utxos
}

#[test]
fn utxo_set_holds_one_entry_per_outpoint() {
    let mut utxos = UtxoSet::new();
    assert_eq!(utxos.len(), 0);
    assert!(utxos.get(&[1; 32], 0).is_none());
    assert!(!utxos.contains(&[1; 32], 0));

    assert!(utxos.insert(vec![1; 32], 0, entry(10, KEY, 1, false)).is_none());
    assert!(utxos.insert(vec![1; 32], 1, entry(20, KEY, 1, false)).is_none());
    assert!(utxos.insert(vec![2; 32], 0, entry(30, KEY, 2, true)).is_none());
    assert_eq!(utxos.len(), 3);
    assert_eq!(utxos.count(), 3);
    assert_eq!(utxos.get(&[1; 32], 1).unwrap().value, 20);
    assert!(utxos.get(&[2; 32], 0).unwrap().is_coinbase);
    assert!(utxos.contains(&[1; 32], 0));
    assert!(!utxos.contains(&[1; 32], 2));
    assert!(!utxos.contains(&[1; 31], 0));

    let before = utxos.insert(vec![1; 32], 1, entry(21, OTHER, 9, false)).unwrap();
    assert_eq!(before.value, 20);
    assert_eq!(utxos.len(), 3);
    let now = utxos.get(&[1; 32], 1).unwrap();
    assert_eq!(now.value, 21);
    assert_eq!(now.creation_height, 9);
    assert_eq!(now.pubkey_hash, address(OTHER));

    assert_eq!(utxos.remove(&[1; 32], 0).unwrap().value, 10);
    assert!(utxos.remove(&[1; 32], 0).is_none());
    assert_eq!(utxos.len(), 2);
    assert!(!utxos.contains(&[1; 32], 0));
    assert!(utxos.contains(&[1; 32], 1));
    assert!(utxos.contains(&[2; 32], 0));

    let (txid, index, e) = utxos.entry_at(0);
    assert!(utxos.contains(txid, index));
    assert_eq!(utxos.get(txid, index).unwrap().value, e.value);
}

#[test]
fn apply_spends_inputs_and_creates_outputs() {
    let mut utxos = funded();
    let tx = spend(KEY, &[(vec![1; 32], 0), (vec![1; 32], 1)], &[(900, address(OTHER)), (0, vec![9; 32])]);
    let mut log = UndoLog::new();
    utxos.apply_transaction(&tx, 42, &mut log);
    assert_eq!(log.len(), 4);
    assert!(!utxos.contains(&[1; 32], 0));
    assert!(!utxos.contains(&[1; 32], 1));
    assert!(utxos.contains(&[2; 32], 0));
    let id = tx.txid();
    let first = utxos.get(&id, 0).unwrap();
    assert_eq!(first.value, 900);
    assert_eq!(first.pubkey_hash, address(OTHER));
    assert_eq!(first.creation_height, 42);
    assert!(!first.is_coinbase);
    let second = utxos.get(&id, 1).unwrap();
    assert_eq!(second.value, 0);
    assert_eq!(second.pubkey_hash, vec![9; 32]);
    assert!(utxos.get(&id, 2).is_none());
    assert_eq!(utxos.len(), 4);
}

#[test]
fn apply_marks_coinbase_outputs() {
    let mut utxos = UtxoSet::new();
    let coinbase = Transaction {
        inputs: vec![],
        outputs: vec![TxOutput { value: 50, pubkey_hash: address(KEY) }],
    };
    let mut log = UndoLog::new();
    utxos.apply_transaction(&coinbase, 7, &mut log);
    let e = utxos.get(&coinbase.txid(), 0).unwrap();
    assert!(e.is_coinbase);
    assert_eq!(e.creation_height, 7);
    assert_eq!(e.value, 50);
    assert_eq!(log.len(), 1);
}

#[test]
fn undo_gives_the_set_back() {
    let mut utxos = funded();
    let before = contents(&utxos);
    let coinbase = Transaction {
        inputs: vec![],
        outputs: vec![TxOutput { value: 50, pubkey_hash: address(KEY) }],
    };
    let pay = spend(KEY, &[(vec![1; 32], 0)], &[(600, address(OTHER)), (300, address(KEY))]);
    let chained = spend(OTHER, &[(pay.txid(), 0), (vec![3; 32], 0)], &[(660, address(KEY))]);
    let ghost_spend = spend(KEY, &[(vec![0xee; 32], 4)], &[(1, address(KEY))]);
    let mut log = UndoLog::new();
    for tx in [&coinbase, &pay, &chained, &ghost_spend, &coinbase] {
        utxos.apply_transaction(tx, 9, &mut log);
    }
    assert_ne!(contents(&utxos), before);
    assert!(!utxos.contains(&pay.txid(), 0));
    assert!(utxos.contains(&pay.txid(), 1));
    assert!(utxos.contains(&chained.txid(), 0));
    utxos.undo(log);
    assert_eq!(contents(&utxos), before);
}

#[test]
fn undo_restores_an_overwritten_entry() {
    let mut utxos = UtxoSet::new();
    let coinbase = Transaction {
        inputs: vec![],
        outputs: vec![TxOutput { value: 50, pubkey_hash: address(KEY) }],
    };
    let mut first = UndoLog::new();
    utxos.apply_transaction(&coinbase, 1, &mut first);
    let before = contents(&utxos);
    let mut second = UndoLog::new();
    utxos.apply_transaction(&coinbase, 2, &mut second);
    assert_eq!(utxos.get(&coinbase.txid(), 0).unwrap().creation_height, 2);
    utxos.undo(second);
    assert_eq!(contents(&utxos), before);
    assert_eq!(utxos.get(&coinbase.txid(), 0).unwrap().creation_height, 1);
    utxos.undo(first);
    assert_eq!(utxos.len(), 0);
}

#[test]
fn a_valid_spend_yields_its_fee() {
    let utxos = funded();
    let tx = spend(KEY, &[(vec![1; 32], 0), (vec![1; 32], 1)], &[(900, address(OTHER)), (1, vec![9; 32])]);
    assert_eq!(check_transaction(&tx, &utxos, 10), Ok(599));
    assert!(validate_transaction(&tx, &utxos, 10));
    assert_eq!(sum_outputs(&tx), 901);

    let exact = spend(KEY, &[(vec![1; 32], 1)], &[(500, address(OTHER))]);
    assert_eq!(check_transaction(&exact, &utxos, 10), Ok(0));
}

#[test]
fn a_spend_without_inputs_is_malformed() {
    let utxos = funded();
    let tx = Transaction {
        inputs: vec![],
        outputs: vec![TxOutput { value: 1, pubkey_hash: address(KEY) }],
    };
    assert_eq!(check_transaction(&tx, &utxos, 10), Err(TxError::Malformed));
    assert!(validate_transaction(&tx, &utxos, 10));
}

#[test]
fn fields_of_other_lengths_are_malformed() {
    let utxos = funded();
    let good = spend(KEY, &[(vec![1; 32], 0)], &[(900, address(OTHER))]);
    assert_eq!(check_transaction(&good, &utxos, 10), Ok(100));

    let short_id = spend(KEY, &[(vec![1; 31], 0)], &[(900, address(OTHER))]);
    assert_eq!(check_transaction(&short_id, &utxos, 10), Err(TxError::Malformed));
    let long_address = spend(KEY, &[(vec![1; 32], 0)], &[(900, vec![7; 33])]);
    assert_eq!(check_transaction(&long_address, &utxos, 10), Err(TxError::Malformed));
    let no_address = spend(KEY, &[(vec![1; 32], 0)], &[(900, vec![])]);
    assert_eq!(check_transaction(&no_address, &utxos, 10), Err(TxError::Malformed));
    let mut short_key = spend(KEY, &[(vec![1; 32], 0)], &[(900, address(OTHER))]);
    short_key.inputs[0].pubkey.pop();
    assert_eq!(check_transaction(&short_key, &utxos, 10), Err(TxError::Malformed));
    assert!(!validate_transaction(&short_key, &utxos, 10));

    let coinbase = Transaction {
        inputs: vec![],
        outputs: vec![TxOutput { value: 1, pubkey_hash: vec![1; 8] }],
    };
    assert!(!validate_transaction(&coinbase, &utxos, 10));
}

#[test]
fn a_spend_of_nothing_misses_its_input() {
    let utxos = funded();
    let tx = spend(KEY, &[(vec![1; 32], 0), (vec![1; 32], 2)], &[(1, address(KEY))]);
    assert_eq!(check_transaction(&tx, &utxos, 10), Err(TxError::MissingInput));
    assert!(!validate_transaction(&tx, &utxos, 10));
    let tx = spend(KEY, &[(vec![8; 32], 0)], &[(1, address(KEY))]);
    assert_eq!(check_transaction(&tx, &utxos, 10), Err(TxError::MissingInput));
}

#[test]
fn coinbase_maturity() {
    let utxos = funded();
    let tx = spend(KEY, &[(vec![2; 32], 0)], &[(4_999_999_999, address(OTHER))]);
    for height in [0, 5, 6, 50, 103, 104] {
        assert_eq!(check_transaction(&tx, &utxos, height), Err(TxError::Immature));
        assert!(!validate_transaction(&tx, &utxos, height));
    }
    for height in [105, 106, 1_000, u64::MAX] {
        assert_eq!(check_transaction(&tx, &utxos, height), Ok(1));
        assert!(validate_transaction(&tx, &utxos, height));
    }
}

#[test]
fn maturity_does_not_bind_ordinary_outputs() {
    let utxos = funded();
    let tx = spend(KEY, &[(vec![1; 32], 0)], &[(1_000, address(OTHER))]);
    assert_eq!(check_transaction(&tx, &utxos, 0), Ok(0));
    assert_eq!(check_transaction(&tx, &utxos, 3), Ok(0));
}

#[test]
fn maturity_at_the_top_of_the_height_range() {
    let mut utxos = UtxoSet::new();
    utxos.insert(vec![1; 32], 0, entry(10, KEY, u64::MAX - 50, true));
    let tx = spend(KEY, &[(vec![1; 32], 0)], &[(10, address(OTHER))]);
    assert_eq!(check_transaction(&tx, &utxos, u64::MAX), Err(TxError::Immature));
}

#[test]
fn a_spend_with_a_foreign_key_is_refused() {
    let utxos = funded();
    let tx = spend(OTHER, &[(vec![1; 32], 0)], &[(1, address(OTHER))]);
    assert_eq!(check_transaction(&tx, &utxos, 10), Err(TxError::WrongKey));
}

#[test]
fn a_spend_with_a_bad_signature_is_refused() {
    let utxos = funded();
    let mut tx = spend(KEY, &[(vec![1; 32], 0)], &[(1, address(OTHER))]);
    tx.inputs[0].signature[10] ^= 0x40;
    assert_eq!(check_transaction(&tx, &utxos, 10), Err(TxError::BadSig));

    let mut tx = spend(KEY, &[(vec![1; 32], 0)], &[(1, address(OTHER))]);
    tx.outputs[0].value = 2;
    assert_eq!(check_transaction(&tx, &utxos, 10), Err(TxError::BadSig));

    let mut tx = spend(KEY, &[(vec![1; 32], 0)], &[(1, address(OTHER))]);
    tx.inputs[0].signature.pop();
    assert_eq!(check_transaction(&tx, &utxos, 10), Err(TxError::BadSig));

    let mut tx = spend(KEY, &[(vec![1; 32], 0), (vec![1; 32], 1)], &[(1, address(OTHER))]);
    tx.inputs[1].signature = sign(KEY, b"another message");
    assert_eq!(check_transaction(&tx, &utxos, 10), Err(TxError::BadSig));
}

#[test]
fn a_spend_of_more_than_it_has_is_refused() {
    let utxos = funded();
    let tx = spend(KEY, &[(vec![1; 32], 0)], &[(1_001, address(OTHER))]);
    assert_eq!(check_transaction(&tx, &utxos, 10), Err(TxError::Value));
    let tx = spend(KEY, &[(vec![1; 32], 0)], &[(u64::MAX, address(OTHER)), (u64::MAX, address(KEY))]);
    assert_eq!(check_transaction(&tx, &utxos, 10), Err(TxError::Value));
}

#[test]
fn the_first_broken_rule_names_the_error() {
    let utxos = funded();
    let mut tx = spend(OTHER, &[(vec![2; 32], 0), (vec![8; 32], 0)], &[(u64::MAX, address(OTHER))]);
    tx.inputs[0].signature[0] ^= 1;
    assert_eq!(check_transaction(&tx, &utxos, 10), Err(TxError::MissingInput));

    let mut tx = spend(OTHER, &[(vec![2; 32], 0)], &[(u64::MAX, address(OTHER))]);
    tx.inputs[0].signature[0] ^= 1;
    assert_eq!(check_transaction(&tx, &utxos, 10), Err(TxError::Immature));
    assert_eq!(check_transaction(&tx, &utxos, 200), Err(TxError::WrongKey));

    let mut tx = spend(KEY, &[(vec![2; 32], 0)], &[(u64::MAX, address(OTHER))]);
    tx.inputs[0].signature[0] ^= 1;
    assert_eq!(check_transaction(&tx, &utxos, 200), Err(TxError::BadSig));

    let tx = spend(KEY, &[(vec![3; 32], 0), (vec![2; 32], 0)], &[(1, address(OTHER))]);
    assert_eq!(check_transaction(&tx, &utxos, 10), Err(TxError::Immature));
    assert_eq!(check_transaction(&tx, &utxos, 200), Err(TxError::WrongKey));
}

#[test]
fn outpoint_lists() {
    let tx = spend(KEY, &[(vec![1; 32], 0), (vec![1; 32], 1), (vec![2; 32], 0)], &[(1, address(KEY))]);
    let mut list: Vec<OutPoint> = Vec::new();
    collect_inputs(&tx, &mut list);
    assert_eq!(list.len(), 3);
    assert_eq!(list[1].txid, vec![1; 32]);
    assert_eq!(list[1].index, 1);
    assert!(outpoints_contain(&list, &[2; 32], 0));
    assert!(!outpoints_contain(&list, &[2; 32], 1));
    assert!(!has_duplicates(&list));
    collect_inputs(&tx, &mut list);
    assert_eq!(list.len(), 6);
    assert!(has_duplicates(&list));
    assert!(!has_duplicates(&Vec::new()));
}

fn genesis_state() -> (Vec<Block>, UtxoSet) {
    let genesis = genesis_block();
    let mut utxos = UtxoSet::new();
    let mut log = UndoLog::new();
    utxos.apply_transaction(&genesis.transactions[0], 0, &mut log);
    utxos.insert(vec![1; 32], 0, entry(1_000, KEY, 0, false));
    utxos.insert(vec![1; 32], 1, entry(500, KEY, 0, false));
    (vec![genesis], utxos)
}

fn coinbase(value: u64) -> Transaction {
    Transaction { inputs: vec![], outputs: vec![TxOutput { value, pubkey_hash: address(KEY) }] }
}

fn block_on(chain: &[Block], transactions: Vec<Transaction>) -> Block {
    let prev = chain.last().unwrap();
    let mut block = Block {
        header: BlockHeader {
            height: prev.header.height + 1,
            timestamp: prev.header.timestamp + 600,
            prev_hash: prev.hash.clone(),
            nonce: 0,
            target: calculate_next_target(chain),
            merkle_root: merkle_root(&transactions),
        },
        transactions,
        hash: vec![],
    };
    assert!(mine(&mut block));
    block
}

fn refused(block: &Block, chain: &[Block], utxos: &mut UtxoSet) -> BlockError {
    let before = contents(utxos);
    let error = match validate_and_apply_block(block, chain, utxos) {
        Ok(_) => panic!("the block was accepted"),
        Err(e) => e,
    };
    assert_eq!(contents(utxos), before);
    error
}

#[test]
fn a_valid_block_is_applied() {
    let (chain, mut utxos) = genesis_state();
    let pay = spend(KEY, &[(vec![1; 32], 0)], &[(400, address(OTHER)), (500, address(KEY))]);
    let chained = spend(KEY, &[(pay.txid(), 1)], &[(450, address(OTHER))]);
    let reward = coinbase(block_reward(1) + 100 + 50);
    let block = block_on(&chain, vec![reward.clone(), pay.clone(), chained.clone()]);
    let before = contents(&utxos);
    let log = match validate_and_apply_block(&block, &chain, &mut utxos) {
        Ok(log) => log,
        Err(e) => panic!("refused: {:?}", e),
    };
    assert!(!utxos.contains(&[1; 32], 0));
    assert!(utxos.contains(&[1; 32], 1));
    assert_eq!(utxos.get(&pay.txid(), 0).unwrap().value, 400);
    assert!(!utxos.contains(&pay.txid(), 1));
    assert_eq!(utxos.get(&chained.txid(), 0).unwrap().value, 450);
    let minted = utxos.get(&reward.txid(), 0).unwrap();
    assert_eq!(minted.value, 5_000_000_150);
    assert!(minted.is_coinbase);
    assert_eq!(minted.creation_height, 1);
    utxos.undo(log);
    assert_eq!(contents(&utxos), before);
}

#[test]
fn a_block_without_a_parent_is_refused() {
    let (chain, mut utxos) = genesis_state();
    let block = block_on(&chain, vec![coinbase(1)]);
    assert_eq!(refused(&block, &[], &mut utxos), BlockError::MissingParent);
}

#[test]
fn a_block_of_the_wrong_shape_is_malformed() {
    let (chain, mut utxos) = genesis_state();
    let pay = spend(KEY, &[(vec![1; 32], 0)], &[(400, address(OTHER))]);
    let block = block_on(&chain, vec![]);
    assert_eq!(refused(&block, &chain, &mut utxos), BlockError::Malformed);
    let block = block_on(&chain, vec![pay.clone()]);
    assert_eq!(refused(&block, &chain, &mut utxos), BlockError::Malformed);
    let block = block_on(&chain, vec![pay.clone(), coinbase(1)]);
    assert_eq!(refused(&block, &chain, &mut utxos), BlockError::Malformed);
    let block = block_on(&chain, vec![coinbase(1), pay, coinbase(2)]);
    assert_eq!(refused(&block, &chain, &mut utxos), BlockError::Malformed);
    let odd = Transaction {
        inputs: vec![],
        outputs: vec![TxOutput { value: 1, pubkey_hash: vec![1, 0, 0, 0, 0, 0, 0, 0] }],
    };
    let block = block_on(&chain, vec![odd]);
    assert_eq!(refused(&block, &chain, &mut utxos), BlockError::Malformed);
}

#[test]
fn a_block_that_does_not_follow_its_parent_is_refused() {
    let (chain, mut utxos) = genesis_state();
    let mut block = block_on(&chain, vec![coinbase(1)]);
    block.header.prev_hash = vec![7; 32];
    assert!(mine(&mut block));
    assert_eq!(refused(&block, &chain, &mut utxos), BlockError::InvalidParent);

    for height in [0, 2, u64::MAX] {
        let mut block = block_on(&chain, vec![coinbase(1)]);
        block.header.height = height;
        assert!(mine(&mut block));
        assert_eq!(refused(&block, &chain, &mut utxos), BlockError::InvalidParent);
    }
}

#[test]
fn a_block_that_is_not_after_the_median_time_is_refused() {
    let (chain, mut utxos) = genesis_state();
    for timestamp in [1_730_000_000, 1_729_999_999, 0, i64::MIN] {
        let mut block = block_on(&chain, vec![coinbase(1)]);
        block.header.timestamp = timestamp;
        assert!(mine(&mut block));
        assert_eq!(refused(&block, &chain, &mut utxos), BlockError::InvalidTimestamp);
    }
    let mut block = block_on(&chain, vec![coinbase(1)]);
    block.header.timestamp = 1_730_000_001;
    assert!(mine(&mut block));
    assert!(validate_and_apply_block(&block, &chain, &mut utxos).is_ok());
}

#[test]
fn a_block_with_another_target_is_refused() {
    let (chain, mut utxos) = genesis_state();
    let mut block = block_on(&chain, vec![coinbase(1)]);
    block.header.target[0] = 0x7f;
    assert!(mine(&mut block));
    assert!(block.verify_pow());
    assert_eq!(refused(&block, &chain, &mut utxos), BlockError::InvalidTarget);
}

#[test]
fn a_block_with_a_wrong_hash_is_refused() {
    let (chain, mut utxos) = genesis_state();
    let mut block = block_on(&chain, vec![coinbase(1)]);
    block.hash[0] ^= 1;
    assert_eq!(refused(&block, &chain, &mut utxos), BlockError::InvalidPow);
    let mut block = block_on(&chain, vec![coinbase(1)]);
    block.header.nonce += 1;
    assert_eq!(refused(&block, &chain, &mut utxos), BlockError::InvalidPow);
    let mut block = block_on(&chain, vec![coinbase(1)]);
    block.hash = vec![];
    assert_eq!(refused(&block, &chain, &mut utxos), BlockError::InvalidPow);
}

#[test]
fn a_block_that_does_not_commit_to_its_transactions_is_refused() {
    let (chain, mut utxos) = genesis_state();
    let mut block = block_on(&chain, vec![coinbase(1)]);
    block.transactions[0].outputs[0].value = 2;
    assert_eq!(refused(&block, &chain, &mut utxos), BlockError::InvalidMerkle);
    let mut block = block_on(&chain, vec![coinbase(1)]);
    block.header.merkle_root = vec![0; 32];
    assert!(mine(&mut block));
    assert_eq!(refused(&block, &chain, &mut utxos), BlockError::InvalidMerkle);
}

#[test]
fn a_block_that_spends_an_outpoint_twice_is_refused() {
    let (chain, mut utxos) = genesis_state();
    let twice = spend(KEY, &[(vec![1; 32], 0), (vec![1; 32], 0)], &[(2_000, address(OTHER))]);
    let block = block_on(&chain, vec![coinbase(1), twice]);
    assert_eq!(refused(&block, &chain, &mut utxos), BlockError::DoubleSpend);

    let one = spend(KEY, &[(vec![1; 32], 0)], &[(400, address(OTHER))]);
    let two = spend(KEY, &[(vec![1; 32], 1), (vec![1; 32], 0)], &[(300, address(OTHER))]);
    let block = block_on(&chain, vec![coinbase(1), one, two]);
    assert_eq!(refused(&block, &chain, &mut utxos), BlockError::DoubleSpend);
}

#[test]
fn a_block_with_an_invalid_transaction_is_refused() {
    let (chain, mut utxos) = genesis_state();
    let missing = spend(KEY, &[(vec![9; 32], 0)], &[(1, address(OTHER))]);
    let block = block_on(&chain, vec![coinbase(1), missing]);
    assert_eq!(refused(&block, &chain, &mut utxos), BlockError::InvalidTx(TxError::MissingInput));

    let good = spend(KEY, &[(vec![1; 32], 0)], &[(400, address(OTHER))]);
    let greedy = spend(KEY, &[(vec![1; 32], 1)], &[(501, address(OTHER))]);
    let block = block_on(&chain, vec![coinbase(1), good.clone(), greedy]);
    assert_eq!(refused(&block, &chain, &mut utxos), BlockError::InvalidTx(TxError::Value));

    let mut forged = spend(KEY, &[(vec![1; 32], 1)], &[(1, address(OTHER))]);
    forged.inputs[0].signature[5] ^= 1;
    let block = block_on(&chain, vec![coinbase(1), good.clone(), forged]);
    assert_eq!(refused(&block, &chain, &mut utxos), BlockError::InvalidTx(TxError::BadSig));

    let stolen = spend(OTHER, &[(vec![1; 32], 1)], &[(1, address(OTHER))]);
    let block = block_on(&chain, vec![coinbase(1), stolen]);
    assert_eq!(refused(&block, &chain, &mut utxos), BlockError::InvalidTx(TxError::WrongKey));
}

#[test]
fn a_block_may_not_spend_its_own_coinbase() {
    let (chain, mut utxos) = genesis_state();
    let reward = Transaction {
        inputs: vec![],
        outputs: vec![TxOutput { value: 10, pubkey_hash: address(KEY) }],
    };
    let early = spend(KEY, &[(reward.txid(), 0)], &[(10, address(OTHER))]);
    let block = block_on(&chain, vec![reward, early]);
    assert_eq!(refused(&block, &chain, &mut utxos), BlockError::InvalidTx(TxError::Immature));
}

#[test]
fn a_transaction_may_not_spend_a_later_one() {
    let (chain, mut utxos) = genesis_state();
    let pay = spend(KEY, &[(vec![1; 32], 0)], &[(400, address(KEY))]);
    let chained = spend(KEY, &[(pay.txid(), 0)], &[(300, address(OTHER))]);
    let block = block_on(&chain, vec![coinbase(1), chained, pay]);
    assert_eq!(refused(&block, &chain, &mut utxos), BlockError::InvalidTx(TxError::MissingInput));
}

#[test]
fn a_coinbase_may_claim_reward_and_fees_and_no_more() {
    let (chain, mut utxos) = genesis_state();
    let pay = spend(KEY, &[(vec![1; 32], 0)], &[(400, address(OTHER))]);
    let block = block_on(&chain, vec![coinbase(block_reward(1) + 601), pay.clone()]);
    assert_eq!(refused(&block, &chain, &mut utxos), BlockError::InvalidTx(TxError::Value));
    let block = block_on(&chain, vec![coinbase(block_reward(1) + 1)]);
    assert_eq!(refused(&block, &chain, &mut utxos), BlockError::InvalidTx(TxError::Value));

    let block = block_on(&chain, vec![coinbase(block_reward(1) + 600), pay]);
    assert!(validate_and_apply_block(&block, &chain, &mut utxos).is_ok());
    let (_, mut utxos) = genesis_state();
    let block = block_on(&chain, vec![coinbase(0)]);
    assert!(validate_and_apply_block(&block, &chain, &mut utxos).is_ok());
}

#[test]
fn the_first_broken_rule_names_the_block_error() {
    let (chain, mut utxos) = genesis_state();
    let mut block = block_on(&chain, vec![coinbase(block_reward(1) + 1)]);
    block.header.merkle_root = vec![0; 32];
    block.header.target[0] = 0x7f;
    block.header.height = 9;
    block.hash = vec![];
    assert_eq!(refused(&block, &chain, &mut utxos), BlockError::InvalidParent);
    block.header.height = 1;
    block.header.timestamp = 5;
    assert_eq!(refused(&block, &chain, &mut utxos), BlockError::InvalidTimestamp);
    block.header.timestamp = 1_730_000_600;
    assert_eq!(refused(&block, &chain, &mut utxos), BlockError::InvalidTarget);
    block.header.target[0] = 0xff;
    assert_eq!(refused(&block, &chain, &mut utxos), BlockError::InvalidPow);
    assert!(mine(&mut block));
    assert_eq!(refused(&block, &chain, &mut utxos), BlockError::InvalidMerkle);
    block.header.merkle_root = merkle_root(&block.transactions);
    assert!(mine(&mut block));
    assert_eq!(refused(&block, &chain, &mut utxos), BlockError::InvalidTx(TxError::Value));
    block.transactions.clear();
    assert_eq!(refused(&block, &chain, &mut utxos), BlockError::Malformed);
}
