use revelation_chain::block::Block;
use revelation_chain::block_validation::BlockError;
use revelation_chain::chain::Blockchain;
use revelation_chain::crypto::{pubkey_hash, public_key, sha256, sign, verify_signature};
use revelation_chain::dedup::MessageDeduplicator;
use revelation_chain::framing::{
    frame_message, next_frame, offline_record, parse_offline_records, read_u32_le, slice_of,
    Frame, MAX_MESSAGE_SIZE,
};
use revelation_chain::mempool::Mempool;
use revelation_chain::message::NetworkMessage;
use revelation_chain::miner::mine_block;
use revelation_chain::node::{
    accept_block, advertised, handle_message, Accepted, NodeMode, PeerAction, SyncTracker,
    MAX_ADDRS, SYNC_QUIET_MILLIS,
};
use revelation_chain::params::{block_reward, PROTOCOL_VERSION};
use revelation_chain::transaction::{Transaction, TxInput, TxOutput};
use revelation_chain::utxo::{UtxoEntry, UtxoSet};
use revelation_chain::validation::check_transaction;
use revelation_chain::wallet::{
    calculate_wallet_balance, erase, Wallet, WalletBalance, WalletError,
};

const NOW: i64 = 2_000_000_000;

const KEY: &[u8] = b"miner key K";
const PEER: &[u8] = b"the other peer";

fn address(seed: &[u8]) -> Vec<u8> {
    pubkey_hash(&public_key(seed))
}

fn spend(seed: &[u8], from: &[(Vec<u8>, u32)], outputs: &[(u64, Vec<u8>)]) -> Transaction {
    let pubkey = public_key(seed);
    let mut tx = Transaction {
        inputs: from
            .iter()
            .map(|(txid, index)| TxInput {
                txid: txid.clone(),
                index: *index,
                pubkey: pubkey.clone(),
                signature: vec![],
                address_index: 0,
            })
            .collect(),
        outputs: outputs
            .iter()
            .map(|(value, to)| TxOutput { value: *value, pubkey_hash: to.clone() })
            .collect(),
    };
    let signature = sign(seed, &tx.sighash());
    for input in tx.inputs.iter_mut() {
        input.signature = signature.clone();
    }
    tx
}

fn next_block(chain: &Blockchain, txs: Vec<Transaction>, miner: &[u8], timestamp: i64) -> Block {
    mine_block(chain.tip().unwrap(), chain.utxos(), txs, address(miner), chain.blocks(), timestamp)
        .unwrap()
}

fn peers(n: usize) -> Vec<String> {
    (0..n).map(|i| format!("10.0.0.{}:8333", i)).collect()
}

#[test]
fn frames_carry_their_length() {
    assert_eq!(frame_message(&[1, 2, 3]).unwrap(), vec![3, 0, 0, 0, 1, 2, 3]);
    assert_eq!(frame_message(&[]).unwrap(), vec![0, 0, 0, 0]);
    let big = vec![7u8; 300];
    let framed = frame_message(&big).unwrap();
    assert_eq!(&framed[..4], &[44, 1, 0, 0]);
    assert_eq!(&framed[4..], &big[..]);
    assert!(frame_message(&vec![0u8; MAX_MESSAGE_SIZE]).is_some());
    assert!(frame_message(&vec![0u8; MAX_MESSAGE_SIZE + 1]).is_none());
    assert_eq!(MAX_MESSAGE_SIZE, 1_048_576);
}

#[test]
fn frames_are_read_one_at_a_time() {
    let mut stream = frame_message(&[1, 2, 3]).unwrap();
    stream.extend(frame_message(&[]).unwrap());
    stream.extend(frame_message(&[9; 5]).unwrap());
    stream.extend([2, 0, 0, 0, 8]);
    let mut seen = Vec::new();
    let mut at = 0;
    loop {
        match next_frame(&stream[at..]) {
            Frame::Complete { payload, consumed } => {
                assert_eq!(consumed, payload.len() + 4);
                seen.push(payload);
                at += consumed;
            },
            Frame::Incomplete => break,
            Frame::TooLarge => panic!("too large"),
        }
    }
    assert_eq!(seen, vec![vec![1, 2, 3], vec![], vec![9; 5]]);
    assert_eq!(at, stream.len() - 5);
}

#[test]
fn short_and_oversized_frames() {
    assert!(matches!(next_frame(&[]), Frame::Incomplete));
    assert!(matches!(next_frame(&[1, 0, 0]), Frame::Incomplete));
    assert!(matches!(next_frame(&[1, 0, 0, 0]), Frame::Incomplete));
    assert!(matches!(next_frame(&[0, 0, 0, 0]), Frame::Complete { consumed: 4, .. }));
    assert!(matches!(next_frame(&[1, 0, 16, 0]), Frame::TooLarge));
    assert!(matches!(next_frame(&[0, 0, 16, 0]), Frame::Incomplete));
    assert!(matches!(next_frame(&[0xff, 0xff, 0xff, 0xff, 1, 2]), Frame::TooLarge));
    assert_eq!(read_u32_le(&[1, 2, 3, 4]), 0x0403_0201);
    assert_eq!(read_u32_le(&[0xff; 4]), u32::MAX);
    assert_eq!(slice_of(&[1, 2, 3, 4, 5], 1, 3), &[2, 3]);
}

#[test]
fn offline_records_carry_time_and_length() {
    assert_eq!(
        offline_record(0x0102_0304_0506_0708, &[9, 9]),
        vec![8, 7, 6, 5, 4, 3, 2, 1, 2, 0, 0, 0, 9, 9]
    );
    assert_eq!(offline_record(0, &[]), vec![0; 12]);
}

#[test]
fn offline_records_are_read_until_the_first_broken_one() {
    let mut file = Vec::new();
    file.extend(offline_record(1, &[1, 2, 3]));
    file.extend(offline_record(2, &[]));
    file.extend(offline_record(3, &[7; 300]));
    assert_eq!(parse_offline_records(&file), vec![vec![1, 2, 3], vec![], vec![7; 300]]);

    let mut cut = file.clone();
    cut.pop();
    assert_eq!(parse_offline_records(&cut), vec![vec![1, 2, 3], vec![]]);

    let mut tail = file.clone();
    tail.extend([0u8; 11]);
    assert_eq!(parse_offline_records(&tail).len(), 3);
    tail.push(0);
    assert_eq!(parse_offline_records(&tail).len(), 4);

    let mut stop = offline_record(1, &[5]);
    stop.extend([0, 0, 0, 0, 0, 0, 0, 0, 9, 0, 0, 0, 1, 2]);
    assert_eq!(parse_offline_records(&stop), vec![vec![5]]);
    stop.extend(offline_record(2, &[6]));
    assert_eq!(parse_offline_records(&stop), vec![vec![5], vec![1, 2, 2, 0, 0, 0, 0, 0, 0]]);
    assert!(parse_offline_records(&[]).is_empty());
    assert!(parse_offline_records(&[0; 11]).is_empty());
}

#[test]
fn replays_are_suppressed_within_the_time_to_live() {
    let mut dedup = MessageDeduplicator::new(100);
    assert!(dedup.check_and_insert(b"frame one", 1_000));
    assert!(!dedup.check_and_insert(b"frame one", 1_000));
    assert!(!dedup.check_and_insert(b"frame one", 1_099));
    assert!(dedup.check_and_insert(b"frame two", 1_050));
    assert!(dedup.check_and_insert(b"frame one", 1_100));
    assert!(!dedup.check_and_insert(b"frame two", 1_149));
    assert!(!dedup.check_and_insert(b"frame one", 1_199));
    assert!(dedup.check_and_insert(b"frame two", 1_150));
    assert!(dedup.check_and_insert(b"frame one", 1_200));
}

#[test]
fn a_clock_that_runs_backwards_forgets_nothing() {
    let mut dedup = MessageDeduplicator::new(10);
    assert!(dedup.check_and_insert(b"frame", 500));
    assert!(!dedup.check_and_insert(b"frame", 400));
    assert!(!dedup.check_and_insert(b"frame", 0));
    assert!(!dedup.check_and_insert(b"frame", 509));
    assert!(dedup.check_and_insert(b"frame", 510));
}

#[test]
fn a_deduplicator_without_memory() {
    let mut dedup = MessageDeduplicator::new(0);
    assert!(dedup.check_and_insert(b"frame", 5));
    assert!(dedup.check_and_insert(b"frame", 5));
    assert!(dedup.check_and_insert(b"frame", 6));
    assert!(dedup.check_and_insert(b"frame", 4));

    let mut dedup = MessageDeduplicator::new(1);
    assert!(dedup.check_and_insert(b"frame", 7));
    assert!(!dedup.check_and_insert(b"frame", 7));
    assert!(!dedup.check_and_insert(b"frame", 3));
    assert!(dedup.check_and_insert(b"frame", 8));
    assert_ne!(sha256(b"frame"), b"frame".to_vec());
}

#[test]
fn hello_is_answered_by_version_and_height() {
    let hello = |version, height| NetworkMessage::Hello {
        version,
        height,
        agent: "test".to_string(),
    };
    assert_eq!(PROTOCOL_VERSION, 3);
    assert!(matches!(handle_message(hello(2, 50), 10, &peers(0)), PeerAction::Disconnect));
    assert!(matches!(handle_message(hello(4, 5), 10, &peers(0)), PeerAction::Disconnect));
    assert!(matches!(
        handle_message(hello(3, 50), 10, &peers(0)),
        PeerAction::Reply(NetworkMessage::SyncRequest { from_height: 10 })
    ));
    assert!(matches!(handle_message(hello(3, 10), 10, &peers(0)), PeerAction::Nothing));
    assert!(matches!(handle_message(hello(3, 0), 10, &peers(0)), PeerAction::Nothing));
}

#[test]
fn addresses_are_capped() {
    assert_eq!(MAX_ADDRS, 32);
    match handle_message(NetworkMessage::GetAddr, 0, &peers(40)) {
        PeerAction::Reply(NetworkMessage::Addr(list)) => assert_eq!(list, peers(40)[..32].to_vec()),
        other => panic!("{:?}", other),
    }
    match handle_message(NetworkMessage::GetAddr, 0, &peers(3)) {
        PeerAction::Reply(NetworkMessage::Addr(list)) => assert_eq!(list, peers(3)),
        other => panic!("{:?}", other),
    }
    match handle_message(NetworkMessage::Addr(peers(33)), 0, &peers(0)) {
        PeerAction::Connect(list) => assert_eq!(list, peers(33)[..32].to_vec()),
        other => panic!("{:?}", other),
    }
    match handle_message(NetworkMessage::Addr(peers(0)), 0, &peers(5)) {
        PeerAction::Connect(list) => assert!(list.is_empty()),
        other => panic!("{:?}", other),
    }
    assert_eq!(advertised(&peers(32)), peers(32));
}

#[test]
fn the_other_messages() {
    assert!(matches!(
        handle_message(NetworkMessage::SyncRequest { from_height: 7 }, 0, &peers(0)),
        PeerAction::SendBlocks { from_height: 7 }
    ));
    assert!(matches!(
        handle_message(NetworkMessage::Ping, 0, &peers(0)),
        PeerAction::Reply(NetworkMessage::Pong)
    ));
    assert!(matches!(handle_message(NetworkMessage::Pong, 0, &peers(0)), PeerAction::Nothing));
    let tx = spend(KEY, &[(vec![1; 32], 0)], &[(5, vec![2; 32])]);
    match handle_message(NetworkMessage::Transaction(tx.clone()), 0, &peers(0)) {
        PeerAction::AcceptTransaction(t) => assert_eq!(t.txid(), tx.txid()),
        other => panic!("{:?}", other),
    }
    let block = revelation_chain::genesis::genesis_block();
    match handle_message(NetworkMessage::Block(block.clone()), 0, &peers(0)) {
        PeerAction::AcceptBlock(b) => assert_eq!(b.hash, block.hash),
        other => panic!("{:?}", other),
    }
}

#[test]
fn syncing_ends_after_a_quiet_period() {
    assert_eq!(SYNC_QUIET_MILLIS, 3_000);
    let mut tracker = SyncTracker::new(1, 10_000);
    assert_eq!(tracker.mode, NodeMode::Syncing);
    assert_eq!(tracker.observe(1, 12_000), NodeMode::Syncing);
    assert_eq!(tracker.observe(1, 13_000), NodeMode::Syncing);
    assert_eq!(tracker.observe(5, 13_001), NodeMode::Syncing);
    assert_eq!(tracker.last_height, 5);
    assert_eq!(tracker.last_change, 13_001);
    assert_eq!(tracker.observe(5, 16_001), NodeMode::Syncing);
    assert_eq!(tracker.observe(5, 16_002), NodeMode::Normal);
    assert_eq!(tracker.observe(9, 16_003), NodeMode::Normal);
    assert_eq!(tracker.last_height, 5);
    assert_eq!(tracker.mode, NodeMode::Normal);
}

#[test]
fn a_node_without_blocks_keeps_syncing() {
    let mut tracker = SyncTracker::new(0, 0);
    assert_eq!(tracker.observe(0, 1_000_000), NodeMode::Syncing);
    assert_eq!(tracker.observe(1, 1_000_001), NodeMode::Syncing);
    assert_eq!(tracker.observe(1, 1_003_001), NodeMode::Syncing);
    assert_eq!(tracker.observe(1, 1_003_002), NodeMode::Normal);
    let mut tracker = SyncTracker::new(3, 500);
    assert_eq!(tracker.observe(3, 100), NodeMode::Syncing);
    assert_eq!(tracker.observe(3, 3_500), NodeMode::Syncing);
    assert_eq!(tracker.observe(3, 3_501), NodeMode::Normal);
}

fn miner_of(height: u64) -> Vec<u8> {
    format!("the miner of block {}", height).into_bytes()
}

fn matured(chain: &mut Blockchain, blocks: usize) -> Vec<Block> {
    let mut made = Vec::new();
    for _ in 0..blocks {
        let timestamp = chain.tip().unwrap().header.timestamp + 600;
        let block = next_block(chain, vec![], &miner_of(chain.height()), timestamp);
        assert!(chain.validate_and_add_block(block.clone(), NOW).is_ok());
        made.push(block);
    }
    made
}

#[test]
fn a_new_tip_confirms_pool_entries() {
    let mut chain = Blockchain::new();
    assert!(chain.initialize());
    let blocks = matured(&mut chain, 102);
    let mut pool = Mempool::new();
    let one = spend(
        &miner_of(1),
        &[(blocks[0].transactions[0].txid(), 0)],
        &[(block_reward(1) - 500, vec![1; 32])],
    );
    let two = spend(
        &miner_of(2),
        &[(blocks[1].transactions[0].txid(), 0)],
        &[(block_reward(2) - 900, vec![2; 32])],
    );
    assert_eq!(pool.add_transaction(one.clone(), chain.utxos(), chain.height(), 0), Ok(()));
    assert_eq!(pool.add_transaction(two.clone(), chain.utxos(), chain.height(), 0), Ok(()));

    let block = next_block(&chain, vec![two.clone()], KEY, 1_900_000_000);
    assert_eq!(accept_block(&mut chain, &mut pool, block.clone(), NOW), Ok(Accepted::Extended));
    assert_eq!(chain.height(), 104);
    assert_eq!(pool.size(), 1);
    assert_eq!(pool.entries()[0].tx.txid(), one.txid());
    assert_eq!(accept_block(&mut chain, &mut pool, block.clone(), NOW), Ok(Accepted::Known));
    assert_eq!(pool.size(), 1);

    let mut bad = next_block(&chain, vec![one.clone()], KEY, 1_900_000_600);
    bad.hash[0] ^= 1;
    assert_eq!(accept_block(&mut chain, &mut pool, bad, NOW), Err(BlockError::InvalidPow));
    let early = next_block(&chain, vec![one.clone()], KEY, 1_900_000_600);
    assert_eq!(
        accept_block(&mut chain, &mut pool, early, 1_800_000_000),
        Err(BlockError::InvalidTimestamp)
    );
    assert_eq!(pool.size(), 1);
    assert_eq!(chain.height(), 104);
}

#[test]
fn a_reorganization_hands_transactions_back_to_the_pool() {
    let mut node = Blockchain::new();
    assert!(node.initialize());
    let trunk = matured(&mut node, 102);
    let mut a = Blockchain::new();
    let mut b = Blockchain::new();
    assert!(a.initialize());
    assert!(b.initialize());
    for block in &trunk {
        assert!(a.validate_and_add_block(block.clone(), NOW).is_ok());
        assert!(b.validate_and_add_block(block.clone(), NOW).is_ok());
    }
    let first = trunk[0].transactions[0].txid();
    let second = trunk[1].transactions[0].txid();
    let only_a =
        spend(&miner_of(1), &[(first.clone(), 0)], &[(block_reward(1) - 500, vec![1; 32])]);
    let clash_a =
        spend(&miner_of(2), &[(second.clone(), 0)], &[(block_reward(2) - 500, vec![2; 32])]);
    let clash_b =
        spend(&miner_of(2), &[(second.clone(), 0)], &[(block_reward(2) - 700, vec![3; 32])]);

    let a1 = next_block(&a, vec![only_a.clone(), clash_a.clone()], KEY, 1_900_000_000);
    assert_eq!(a1.transactions.len(), 3);
    assert!(a.validate_and_add_block(a1.clone(), NOW).is_ok());
    let b1 = next_block(&b, vec![clash_b.clone()], PEER, 1_900_000_001);
    assert_eq!(b1.transactions.len(), 2);
    assert!(b.validate_and_add_block(b1.clone(), NOW).is_ok());
    let b2 = next_block(&b, vec![], PEER, 1_900_000_601);
    assert!(b.validate_and_add_block(b2.clone(), NOW).is_ok());

    let mut pool = Mempool::new();
    assert_eq!(pool.add_transaction(only_a.clone(), node.utxos(), node.height(), 0), Ok(()));
    assert_eq!(accept_block(&mut node, &mut pool, a1.clone(), NOW + 10), Ok(Accepted::Extended));
    assert_eq!(pool.size(), 0);
    assert_eq!(accept_block(&mut node, &mut pool, b1.clone(), NOW + 20), Ok(Accepted::SideBranch));
    assert_eq!(pool.size(), 0);
    assert_eq!(
        accept_block(&mut node, &mut pool, b2.clone(), NOW + 30),
        Ok(Accepted::Reorganized { fork_height: 103 })
    );
    assert_eq!(node.height(), 105);
    assert_eq!(node.tip().unwrap().hash, b2.hash);
    assert_eq!(pool.size(), 1);
    assert_eq!(pool.entries()[0].tx.txid(), only_a.txid());
    assert_eq!(pool.entries()[0].timestamp, NOW + 30);
    assert_eq!(pool.entries()[0].fee, 500);
    assert!(node.utxos().contains(&first, 0));
    assert!(!node.utxos().contains(&second, 0));
    assert!(node.utxos().contains(&clash_b.txid(), 0));
    assert!(!node.utxos().contains(&clash_a.txid(), 0));
    assert!(check_transaction(&clash_a, node.utxos(), node.height()).is_err());
}

fn owned(utxos: &mut UtxoSet, n: u8, value: u64, owner: Vec<u8>, height: u64, coinbase: bool) {
    utxos.insert(
        vec![n; 32],
        0,
        UtxoEntry { value, pubkey_hash: owner, creation_height: height, is_coinbase: coinbase },
    );
}

#[test]
fn a_balance_counts_what_an_address_owns() {
    let me = vec![0xaa; 32];
    let mut utxos = UtxoSet::new();
    owned(&mut utxos, 1, 100, me.clone(), 1, false);
    owned(&mut utxos, 2, 20, me.clone(), 50, true);
    owned(&mut utxos, 3, 3, me.clone(), 51, true);
    owned(&mut utxos, 4, 1_000, vec![0xbb; 32], 1, false);
    owned(&mut utxos, 5, 7, me.clone(), 0, true);
    assert_eq!(
        calculate_wallet_balance(&utxos, &me, 150),
        WalletBalance { total: 130, spendable: 127, locked: 3 }
    );
    assert_eq!(
        calculate_wallet_balance(&utxos, &me, 151),
        WalletBalance { total: 130, spendable: 130, locked: 0 }
    );
    assert_eq!(
        calculate_wallet_balance(&utxos, &me, 99),
        WalletBalance { total: 130, spendable: 100, locked: 30 }
    );
    assert_eq!(
        calculate_wallet_balance(&utxos, &[0xcc; 32], 150),
        WalletBalance { total: 0, spendable: 0, locked: 0 }
    );
    assert_eq!(
        calculate_wallet_balance(&UtxoSet::new(), &me, 150),
        WalletBalance { total: 0, spendable: 0, locked: 0 }
    );
}

#[test]
fn a_balance_is_capped() {
    let me = vec![0xaa; 32];
    let mut utxos = UtxoSet::new();
    owned(&mut utxos, 1, u64::MAX, me.clone(), 1, false);
    owned(&mut utxos, 2, u64::MAX, me.clone(), 1, false);
    owned(&mut utxos, 3, 5, me.clone(), 100, true);
    assert_eq!(
        calculate_wallet_balance(&utxos, &me, 10),
        WalletBalance { total: u64::MAX, spendable: u64::MAX, locked: 5 }
    );
}

#[test]
fn a_locked_wallet_does_nothing() {
    let mut wallet = Wallet::locked();
    assert!(wallet.is_locked());
    assert_eq!(wallet.address(), Err(WalletError::Locked));
    let utxos = UtxoSet::new();
    assert!(matches!(
        wallet.create_transaction(&utxos, vec![1; 32], 5),
        Err(WalletError::Locked)
    ));

    let mut wallet = Wallet::from_seed([7; 32]);
    assert!(!wallet.is_locked());
    assert!(wallet.address().is_ok());
    wallet.lock();
    assert!(wallet.is_locked());
    assert_eq!(wallet.address(), Err(WalletError::Locked));

    let mut seed = [9u8; 32];
    erase(&mut seed);
    assert_eq!(seed, [0u8; 32]);
}

#[test]
fn wallet_addresses_come_from_the_seed() {
    let wallet = Wallet::from_seed([7; 32]);
    let address = wallet.address().unwrap();
    assert_eq!(address.len(), 32);
    assert_eq!(address, Wallet::from_seed([7; 32]).address().unwrap());
    assert_ne!(address, Wallet::from_seed([8; 32]).address().unwrap());

    let mut material = vec![7u8; 32];
    material.extend_from_slice(&[0, 0, 0, 0]);
    let child = sha256(&material);
    let key = ed25519_public_of(&child);
    assert_eq!(address, pubkey_hash(&key));
}

fn ed25519_public_of(secret: &[u8]) -> Vec<u8> {
    let signing = ed25519_dalek::SigningKey::from_bytes(secret.try_into().unwrap());
    signing.verifying_key().to_bytes().to_vec()
}

#[test]
fn a_payment_is_signed_and_valid() {
    let mut wallet = Wallet::from_seed([7; 32]);
    let me = wallet.address().unwrap();
    let mut utxos = UtxoSet::new();
    owned(&mut utxos, 1, 100, me.clone(), 1, false);
    owned(&mut utxos, 2, 1_000, vec![0xbb; 32], 1, false);
    owned(&mut utxos, 3, 50, me.clone(), 1, false);
    owned(&mut utxos, 4, 70, me.clone(), 1, false);

    let tx = wallet.create_transaction(&utxos, vec![0x99; 32], 120).unwrap();
    assert_eq!(tx.inputs.len(), 2);
    assert_eq!(tx.inputs[0].txid, vec![1; 32]);
    assert_eq!(tx.inputs[1].txid, vec![3; 32]);
    assert_eq!(tx.inputs[0].address_index, 0);
    assert_eq!(tx.outputs.len(), 2);
    assert_eq!(tx.outputs[0].value, 120);
    assert_eq!(tx.outputs[0].pubkey_hash, vec![0x99; 32]);
    assert_eq!(tx.outputs[1].value, 30);
    assert_eq!(tx.outputs[1].pubkey_hash, me);
    for input in &tx.inputs {
        assert_eq!(input.signature.len(), 64);
        assert!(verify_signature(&input.pubkey, &tx.sighash(), &input.signature));
        assert_eq!(pubkey_hash(&input.pubkey), me);
    }
    assert_eq!(check_transaction(&tx, &utxos, 5), Ok(0));

    let exact = wallet.create_transaction(&utxos, vec![0x99; 32], 150).unwrap();
    assert_eq!(exact.inputs.len(), 2);
    assert_eq!(exact.outputs.len(), 1);
    assert_eq!(exact.outputs[0].value, 150);
    assert_eq!(check_transaction(&exact, &utxos, 5), Ok(0));

    let all = wallet.create_transaction(&utxos, vec![0x99; 32], 220).unwrap();
    assert_eq!(all.inputs.len(), 3);
    assert_eq!(all.outputs.len(), 1);
    assert!(matches!(
        wallet.create_transaction(&utxos, vec![0x99; 32], 221),
        Err(WalletError::NotEnoughFunds)
    ));
    assert!(!wallet.is_locked());
}
