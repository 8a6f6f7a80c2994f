use revelation_chain::block::Block;
use revelation_chain::block_validation::BlockError;
use revelation_chain::chain::{BlockOutcome, Blockchain};
use revelation_chain::crypto::{pubkey_hash, public_key, sign};
use revelation_chain::genesis::{genesis_block, genesis_hash};
use revelation_chain::merkle::merkle_root;
use revelation_chain::miner::mine_block;
use revelation_chain::params::block_reward;
use revelation_chain::pow::mine;
use revelation_chain::transaction::{Transaction, TxInput, TxOutput};
use revelation_chain::utxo::UtxoSet;
use revelation_chain::validation::{check_transaction, TxError};

const NOW: i64 = 2_000_000_000;

const KEY: &[u8] = b"miner key K";
const PEER: &[u8] = b"the other peer";
const FILLER: &[u8] = b"whoever mines the rest";

fn address(seed: &[u8]) -> Vec<u8> {
    pubkey_hash(&public_key(seed))
}

fn spend(seed: &[u8], from: &[(Vec<u8>, u32)], outputs: &[(u64, Vec<u8>)]) -> Transaction {
    let pubkey = public_key(seed);
    let mut tx = Transaction {
        inputs: from
            .iter()
            .map(|(txid, index)| TxInput {
                txid: txid.clone(),
                index: *index,
                pubkey: pubkey.clone(),
                signature: vec![],
                address_index: 0,
            })
            .collect(),
        outputs: outputs
            .iter()
            .map(|(value, to)| TxOutput { value: *value, pubkey_hash: to.clone() })
            .collect(),
    };
    let signature = sign(seed, &tx.sighash());
    for input in tx.inputs.iter_mut() {
        input.signature = signature.clone();
    }
    tx
}

fn contents(utxos: &UtxoSet) -> Vec<(Vec<u8>, u32, u64, Vec<u8>, u64, bool)> {
    let mut all: Vec<_> = utxos
        .snapshot()
        .into_iter()
        .map(|(p, e)| (p.txid, p.index, e.value, e.pubkey_hash, e.creation_height, e.is_coinbase))
        .collect();
    all.sort();
    all
}

fn fresh() -> Blockchain {
    let mut chain = Blockchain::new();
    assert!(chain.initialize());
    chain
}

fn next_block(chain: &Blockchain, txs: Vec<Transaction>, miner: &[u8], timestamp: i64) -> Block {
    mine_block(chain.tip().unwrap(), chain.utxos(), txs, address(miner), chain.blocks(), timestamp)
        .unwrap()
}

fn extend(chain: &mut Blockchain, txs: Vec<Transaction>, miner: &[u8], timestamp: i64) -> Block {
    let block = next_block(chain, txs, miner, timestamp);
    assert!(matches!(chain.validate_and_add_block(block.clone(), NOW), Ok(BlockOutcome::Extended)));
    block
}

fn grow(chain: &mut Blockchain, blocks: usize, miner: &[u8]) -> Vec<Block> {
    let mut made = Vec::new();
    for _ in 0..blocks {
        let timestamp = chain.tip().unwrap().header.timestamp + 600;
        made.push(extend(chain, vec![], miner, timestamp));
    }
    made
}

fn tip_hash(chain: &Blockchain) -> Vec<u8> {
    chain.tip().unwrap().hash.clone()
}

#[test]
fn a_new_chain_has_no_blocks() {
    let mut chain = Blockchain::new();
    assert_eq!(chain.height(), 0);
    assert!(chain.tip().is_none());
    assert_eq!(chain.utxos().len(), 0);
    assert_eq!(chain.tip_work(), vec![0]);
    let block = genesis_block();
    assert!(matches!(chain.validate_and_add_block(block, NOW), Err(BlockError::MissingParent)));
    assert_eq!(chain.height(), 0);
}

#[test]
fn initialization_installs_the_genesis() {
    let chain = fresh();
    assert_eq!(chain.height(), 1);
    assert_eq!(tip_hash(&chain), genesis_hash().to_vec());
    assert_eq!(chain.blocks().len(), 1);
    assert_eq!(chain.utxos().len(), 1);
    let genesis = genesis_block();
    let minted = chain.utxos().get(&genesis.transactions[0].txid(), 0).unwrap();
    assert_eq!(minted.value, 5_000_000_000);
    assert!(minted.is_coinbase);
    assert_eq!(minted.creation_height, 0);
    assert_eq!(genesis.header.merkle_root, merkle_root(&genesis.transactions));
    assert_eq!(chain.tip_work(), vec![1]);
}

#[test]
fn a_block_on_the_tip_extends_the_chain() {
    let mut chain = fresh();
    let block = next_block(&chain, vec![], KEY, 1_730_000_600);
    assert_eq!(block.header.height, 1);
    assert_eq!(block.header.prev_hash, genesis_hash().to_vec());
    assert_eq!(block.header.target, [0xff; 32]);
    assert_eq!(block.transactions.len(), 1);
    assert_eq!(block.transactions[0].outputs[0].value, block_reward(1));
    assert_eq!(block.transactions[0].outputs[0].pubkey_hash, address(KEY));
    assert!(matches!(chain.validate_and_add_block(block.clone(), NOW), Ok(BlockOutcome::Extended)));
    assert_eq!(chain.height(), 2);
    assert_eq!(tip_hash(&chain), block.hash);
    assert_eq!(chain.utxos().len(), 2);
    assert_eq!(chain.tip_work(), vec![2]);
    let minted = chain.utxos().get(&block.transactions[0].txid(), 0).unwrap();
    assert_eq!(minted.creation_height, 1);
    assert!(minted.is_coinbase);
}

#[test]
fn another_block_under_a_known_hash_is_refused() {
    let mut chain = fresh();
    let first = extend(&mut chain, vec![], KEY, 1_730_000_600);
    let second = extend(&mut chain, vec![], PEER, 1_730_001_200);
    let before = contents(chain.utxos());

    let mut stray = genesis_block();
    stray.header.height = 99;
    stray.header.prev_hash = vec![0x5a; 32];
    stray.transactions.clear();
    let mut empty = first.clone();
    empty.transactions.clear();
    let mut other_payee = first.clone();
    other_payee.transactions[0].outputs[0].pubkey_hash = address(PEER);
    let mut spending_first = first.clone();
    spending_first.transactions[0] = spend(KEY, &[(vec![1; 32], 0)], &[(1, address(KEY))]);
    let mut two_coinbases = second.clone();
    two_coinbases.transactions.push(second.transactions[0].clone());
    let mut other_nonce = second.clone();
    other_nonce.header.nonce = second.header.nonce.wrapping_add(1);
    let mut other_height = second.clone();
    other_height.header.height = 7;
    let mut late = second.clone();
    late.header.timestamp = NOW + 7_201;
    let mut borrowed = second.clone();
    borrowed.hash = first.hash.clone();

    for (block, error) in [
        (&stray, BlockError::MissingParent),
        (&empty, BlockError::Malformed),
        (&other_payee, BlockError::InvalidMerkle),
        (&spending_first, BlockError::Malformed),
        (&two_coinbases, BlockError::Malformed),
        (&other_nonce, BlockError::InvalidPow),
        (&other_height, BlockError::InvalidParent),
        (&late, BlockError::InvalidTimestamp),
        (&borrowed, BlockError::InvalidPow),
    ] {
        match chain.validate_and_add_block(block.clone(), NOW) {
            Err(e) => assert_eq!(e, error),
            Ok(outcome) => panic!("taken in: {:?}", outcome),
        }
    }
    assert_eq!(chain.height(), 3);
    assert_eq!(tip_hash(&chain), second.hash);
    assert_eq!(contents(chain.utxos()), before);
    assert!(matches!(chain.validate_and_add_block(first, NOW), Ok(BlockOutcome::Known)));
    assert!(matches!(chain.validate_and_add_block(second, NOW), Ok(BlockOutcome::Known)));
    assert!(matches!(chain.validate_and_add_block(genesis_block(), NOW), Ok(BlockOutcome::Known)));
}

#[test]
fn blocks_are_compared_field_by_field() {
    let mut chain = fresh();
    let block = next_block(&chain, vec![], KEY, 1_730_000_600);
    assert!(block.same_as(&block.clone()));
    assert!(block.header.same_as(&block.header.clone()));
    assert!(block.transactions[0].same_as(&block.transactions[0].clone()));
    let mut other = block.clone();
    other.hash[0] ^= 1;
    assert!(!block.same_as(&other));
    let mut other = block.clone();
    other.header.merkle_root[31] ^= 1;
    assert!(!block.same_as(&other));
    assert!(!block.header.same_as(&other.header));
    let mut other = block.clone();
    other.header.target[5] ^= 1;
    assert!(!block.same_as(&other));
    let mut other = block.clone();
    other.transactions.push(block.transactions[0].clone());
    assert!(!block.same_as(&other));
    let mut other = block.clone();
    other.transactions[0].outputs[0].value += 1;
    assert!(!block.same_as(&other));
    assert!(!block.transactions[0].same_as(&other.transactions[0]));
    assert!(!block.transactions[0].outputs[0].same_as(&other.transactions[0].outputs[0]));

    let tx = spend(KEY, &[(vec![1; 32], 0)], &[(1, address(KEY))]);
    assert!(tx.same_as(&tx.clone()));
    let mut signed_again = tx.clone();
    signed_again.inputs[0].signature[0] ^= 1;
    assert!(!tx.same_as(&signed_again));
    assert!(!tx.inputs[0].same_as(&signed_again.inputs[0]));
    let mut elsewhere = tx.clone();
    elsewhere.inputs[0].address_index += 1;
    assert!(!tx.same_as(&elsewhere));
    extend(&mut chain, vec![], KEY, 1_730_000_600);
}

#[test]
fn a_known_block_changes_nothing() {
    let mut chain = fresh();
    let block = extend(&mut chain, vec![], KEY, 1_730_000_600);
    let before = contents(chain.utxos());
    assert!(matches!(chain.validate_and_add_block(block.clone(), NOW), Ok(BlockOutcome::Known)));
    assert!(matches!(chain.validate_and_add_block(genesis_block(), NOW), Ok(BlockOutcome::Known)));
    assert_eq!(chain.height(), 2);
    assert_eq!(tip_hash(&chain), block.hash);
    assert_eq!(contents(chain.utxos()), before);
}

#[test]
fn a_block_without_a_known_parent_is_an_orphan() {
    let mut chain = fresh();
    let mut far = fresh();
    grow(&mut far, 1, PEER);
    let orphan = next_block(&far, vec![], PEER, 1_730_009_000);
    assert!(matches!(chain.validate_and_add_block(orphan, NOW), Err(BlockError::MissingParent)));
    assert_eq!(chain.height(), 1);
}

#[test]
fn an_invalid_block_on_the_tip_is_refused() {
    let mut chain = fresh();
    grow(&mut chain, 2, KEY);
    let before = contents(chain.utxos());
    let tip = tip_hash(&chain);

    let mut greedy = next_block(&chain, vec![], KEY, 1_730_009_000);
    greedy.transactions[0].outputs[0].value += 1;
    greedy.header.merkle_root = merkle_root(&greedy.transactions);
    assert!(mine(&mut greedy));
    assert!(matches!(
        chain.validate_and_add_block(greedy, NOW),
        Err(BlockError::InvalidTx(TxError::Value))
    ));

    let mut unhashed = next_block(&chain, vec![], KEY, 1_730_009_000);
    unhashed.hash[3] ^= 1;
    assert!(matches!(chain.validate_and_add_block(unhashed, NOW), Err(BlockError::InvalidPow)));

    let mut misplaced = next_block(&chain, vec![], KEY, 1_730_009_000);
    misplaced.header.height = 7;
    assert!(mine(&mut misplaced));
    assert!(matches!(chain.validate_and_add_block(misplaced, NOW), Err(BlockError::InvalidParent)));

    assert_eq!(chain.height(), 3);
    assert_eq!(tip_hash(&chain), tip);
    assert_eq!(contents(chain.utxos()), before);
}

#[test]
fn mine_and_spend() {
    let mut chain = fresh();
    let first = extend(&mut chain, vec![], KEY, 1_730_000_600);
    grow(&mut chain, 98, FILLER);
    let source = first.transactions[0].txid();
    assert_eq!(first.header.height, 1);
    assert_eq!(first.transactions[0].outputs[0].pubkey_hash, address(KEY));
    let h2 = vec![0x42u8; 32];
    let tx = spend(KEY, &[(source.clone(), 0)], &[(block_reward(1) - 1, h2.clone())]);

    assert_eq!(chain.height(), 100);
    assert_eq!(check_transaction(&tx, chain.utxos(), chain.height()), Err(TxError::Immature));
    assert!(!chain.validate_transaction(&tx));
    let early = next_block(&chain, vec![tx.clone()], FILLER, 1_800_000_000);
    assert_eq!(early.transactions.len(), 1);

    grow(&mut chain, 1, FILLER);
    assert_eq!(chain.height(), 101);
    assert_eq!(check_transaction(&tx, chain.utxos(), chain.height()), Ok(1));
    assert!(chain.validate_transaction(&tx));

    let block = extend(&mut chain, vec![tx.clone()], FILLER, 1_800_000_000);
    assert_eq!(block.header.height, 101);
    assert_eq!(block.transactions.len(), 2);
    assert_eq!(block.transactions[1].txid(), tx.txid());
    let paid = chain.utxos().get(&tx.txid(), 0).unwrap();
    assert_eq!(paid.value, block_reward(1) - 1);
    assert_eq!(paid.pubkey_hash, h2);
    assert!(!paid.is_coinbase);
    assert_eq!(paid.creation_height, 101);
    assert!(!chain.utxos().contains(&source, 0));
    assert_eq!(chain.height(), 102);
    assert!(!chain.validate_transaction(&tx));
}

#[test]
fn coinbases_of_one_address_share_one_outpoint() {
    let mut chain = fresh();
    let first = extend(&mut chain, vec![], KEY, 1_730_000_600);
    let second = extend(&mut chain, vec![], KEY, 1_730_001_200);
    let id = first.transactions[0].txid();
    assert_eq!(second.transactions[0].txid(), id);
    assert_eq!(chain.utxos().len(), 2);
    assert_eq!(chain.utxos().get(&id, 0).unwrap().creation_height, 2);
    grow(&mut chain, 99, FILLER);
    assert_eq!(chain.height(), 102);
    let tx = spend(KEY, &[(id, 0)], &[(block_reward(1), vec![0x42u8; 32])]);
    assert_eq!(check_transaction(&tx, chain.utxos(), 101), Err(TxError::Immature));
    assert_eq!(check_transaction(&tx, chain.utxos(), 102), Ok(0));
}

#[test]
fn a_matured_coinbase_is_found_once_it_has_matured() {
    let mut chain = fresh();
    extend(&mut chain, vec![], KEY, 1_730_000_600);
    grow(&mut chain, 98, FILLER);
    assert!(chain.find_matured_coinbase(&address(KEY)).is_none());
    grow(&mut chain, 1, FILLER);
    let (point, entry) = chain.find_matured_coinbase(&address(KEY)).unwrap();
    assert_eq!(entry.creation_height, 1);
    assert!(entry.is_coinbase);
    assert_eq!(entry.pubkey_hash, address(KEY));
    assert_eq!(chain.utxos().get(&point.txid, point.index).unwrap().value, entry.value);
    assert!(chain.find_matured_coinbase(&address(PEER)).is_none());

    let tx = Transaction::spend_coinbase(&point, &entry, KEY);
    assert_eq!(tx.outputs[0].value, entry.value);
    assert_eq!(tx.outputs[0].pubkey_hash, address(KEY));
    assert_eq!(check_transaction(&tx, chain.utxos(), chain.height()), Ok(0));
}

#[test]
fn the_chain_mines_for_a_key() {
    let mut empty = Blockchain::new();
    assert!(empty.mine_block(KEY, 1_730_000_600, NOW).is_none());

    let mut chain = fresh();
    let block = chain.mine_block(KEY, 1_730_000_600, NOW).unwrap();
    assert_eq!(chain.height(), 2);
    assert_eq!(tip_hash(&chain), block.hash);
    assert_eq!(block.header.height, 1);
    assert_eq!(block.transactions.len(), 1);
    assert_eq!(block.transactions[0].outputs.len(), 1);
    assert_eq!(block.transactions[0].outputs[0].pubkey_hash, address(KEY));
    assert_eq!(block.transactions[0].outputs[0].value, block_reward(1));

    assert!(chain.mine_block(KEY, 1_730_000_000, NOW).is_none());
    assert!(chain.mine_block(KEY, 1_730_001_200, 1_730_000_000 - 7_201).is_none());
    assert_eq!(chain.height(), 2);

    for step in 2..=100 {
        assert!(chain.mine_block(PEER, 1_730_000_000 + 600 * step, NOW).is_some());
    }
    assert_eq!(chain.height(), 101);
    assert!(chain.find_matured_coinbase(&address(KEY)).is_some());
    assert!(chain.find_matured_coinbase(&address(PEER)).is_none());
    let block = chain.mine_block(PEER, 1_800_000_000, NOW).unwrap();
    assert_eq!(block.transactions.len(), 1);
    assert_eq!(chain.height(), 102);
}

#[test]
fn a_miner_cannot_move_its_coinbase_in_a_block_that_pays_it_again() {
    let mut chain = fresh();
    assert!(chain.mine_block(KEY, 1_730_000_600, NOW).is_some());
    grow(&mut chain, 99, FILLER);
    assert_eq!(chain.height(), 101);
    let (point, entry) = chain.find_matured_coinbase(&address(KEY)).unwrap();
    let before = contents(chain.utxos());
    let tip = tip_hash(&chain);
    assert!(chain.mine_block(KEY, 1_800_000_000, NOW).is_none());
    assert_eq!(chain.height(), 101);
    assert_eq!(tip_hash(&chain), tip);
    assert_eq!(contents(chain.utxos()), before);

    let moved = Transaction::spend_coinbase(&point, &entry, KEY);
    let block = extend(&mut chain, vec![moved.clone()], FILLER, 1_800_000_000);
    assert_eq!(block.transactions.len(), 2);
    assert!(chain.utxos().contains(&moved.txid(), 0));
    assert!(!chain.utxos().contains(&point.txid, point.index));
}

#[test]
fn an_equal_work_block_does_not_replace_the_tip() {
    let mut chain = fresh();
    let mut peer = fresh();
    let ours = grow(&mut chain, 2, KEY);
    let theirs = grow(&mut peer, 2, PEER);
    let before = contents(chain.utxos());

    assert!(matches!(
        chain.validate_and_add_block(theirs[0].clone(), NOW),
        Ok(BlockOutcome::SideBranch)
    ));
    assert!(matches!(
        chain.validate_and_add_block(theirs[1].clone(), NOW),
        Ok(BlockOutcome::SideBranch)
    ));
    assert_eq!(chain.height(), 3);
    assert_eq!(tip_hash(&chain), ours[1].hash);
    assert_eq!(contents(chain.utxos()), before);
    assert_eq!(chain.tip_work(), vec![3]);
    assert!(matches!(chain.validate_and_add_block(theirs[1].clone(), NOW), Ok(BlockOutcome::Known)));
}

#[test]
fn reorg() {
    let mut shared = fresh();
    let trunk = grow(&mut shared, 2, FILLER);

    let mut a = fresh();
    let mut b = fresh();
    let mut node = fresh();
    for block in &trunk {
        for chain in [&mut a, &mut b, &mut node] {
            assert!(matches!(
                chain.validate_and_add_block(block.clone(), NOW),
                Ok(BlockOutcome::Extended)
            ));
        }
    }
    let branch_a = grow(&mut a, 3, KEY);
    let branch_b = grow(&mut b, 4, PEER);

    for block in &branch_a {
        assert!(matches!(
            node.validate_and_add_block(block.clone(), NOW),
            Ok(BlockOutcome::Extended)
        ));
    }
    assert_eq!(contents(node.utxos()), contents(a.utxos()));
    for block in &branch_b[..3] {
        assert!(matches!(
            node.validate_and_add_block(block.clone(), NOW),
            Ok(BlockOutcome::SideBranch)
        ));
        assert_eq!(tip_hash(&node), branch_a[2].hash);
    }
    match node.validate_and_add_block(branch_b[3].clone(), NOW) {
        Ok(BlockOutcome::Reorganized { disconnected, fork_height }) => {
            assert_eq!(fork_height, 3);
            assert_eq!(disconnected.len(), 3);
            for (gone, was) in disconnected.iter().zip(&branch_a) {
                assert_eq!(gone.hash, was.hash);
            }
        },
        other => panic!("no reorganization: {:?}", other),
    }
    assert_eq!(node.height(), 7);
    assert_eq!(tip_hash(&node), branch_b[3].hash);
    assert_eq!(node.tip_work(), vec![7]);
    assert_eq!(contents(node.utxos()), contents(b.utxos()));
    for (have, want) in node.blocks()[3..].iter().zip(&branch_b) {
        assert_eq!(have.hash, want.hash);
    }
    for block in &branch_a {
        assert!(!node.utxos().contains(&block.transactions[0].txid(), 0));
    }

    let mut rebuilt = fresh();
    for block in trunk.iter().chain(&branch_b) {
        assert!(matches!(
            rebuilt.validate_and_add_block(block.clone(), NOW),
            Ok(BlockOutcome::Extended)
        ));
    }
    assert_eq!(contents(node.utxos()), contents(rebuilt.utxos()));

    let back = grow(&mut a, 2, KEY);
    assert!(matches!(
        node.validate_and_add_block(back[0].clone(), NOW),
        Ok(BlockOutcome::SideBranch)
    ));
    match node.validate_and_add_block(back[1].clone(), NOW) {
        Ok(BlockOutcome::Reorganized { disconnected, fork_height }) => {
            assert_eq!(fork_height, 3);
            assert_eq!(disconnected.len(), 4);
            assert_eq!(disconnected[0].hash, branch_b[0].hash);
            assert_eq!(disconnected[3].hash, branch_b[3].hash);
        },
        other => panic!("no reorganization: {:?}", other),
    }
    assert_eq!(node.height(), 8);
    assert_eq!(contents(node.utxos()), contents(a.utxos()));
}

#[test]
fn a_reorganization_onto_an_invalid_branch_is_taken_back() {
    let mut node = fresh();
    let ours = grow(&mut node, 2, KEY);
    let before = contents(node.utxos());

    let mut peer = fresh();
    let first = grow(&mut peer, 1, PEER);
    let mut bad = next_block(&peer, vec![], PEER, 1_730_100_000);
    bad.transactions[0].outputs[0].value = block_reward(2) + 1;
    bad.header.merkle_root = merkle_root(&bad.transactions);
    assert!(mine(&mut bad));
    let mut last = next_block(&peer, vec![], PEER, 1_730_200_000);
    last.header.height = 3;
    last.header.prev_hash = bad.hash.clone();
    assert!(mine(&mut last));

    assert!(matches!(
        node.validate_and_add_block(first[0].clone(), NOW),
        Ok(BlockOutcome::SideBranch)
    ));
    assert!(matches!(node.validate_and_add_block(bad.clone(), NOW), Ok(BlockOutcome::SideBranch)));
    assert!(matches!(node.validate_and_add_block(bad.clone(), NOW), Ok(BlockOutcome::Known)));
    assert!(matches!(
        node.validate_and_add_block(last.clone(), NOW),
        Err(BlockError::InvalidTx(TxError::Value))
    ));
    assert!(matches!(
        node.validate_and_add_block(last.clone(), NOW),
        Err(BlockError::InvalidTx(TxError::Value))
    ));
    assert_eq!(node.height(), 3);
    assert_eq!(tip_hash(&node), ours[1].hash);
    assert_eq!(contents(node.utxos()), before);
    assert_eq!(node.tip_work(), vec![3]);

    let more = grow(&mut node, 1, KEY);
    assert_eq!(tip_hash(&node), more[0].hash);
    assert_eq!(node.height(), 4);
}

#[test]
fn a_block_from_the_future_is_refused() {
    let mut chain = fresh();
    let block = next_block(&chain, vec![], KEY, 1_800_000_000);
    assert!(matches!(
        chain.validate_and_add_block(block.clone(), 1_800_000_000 - 7_201),
        Err(BlockError::InvalidTimestamp)
    ));
    assert_eq!(chain.height(), 1);
    assert!(matches!(
        chain.validate_and_add_block(block.clone(), i64::MIN),
        Err(BlockError::InvalidTimestamp)
    ));
    assert!(matches!(
        chain.validate_and_add_block(block.clone(), 1_800_000_000 - 7_200),
        Ok(BlockOutcome::Extended)
    ));
    assert!(matches!(
        chain.validate_and_add_block(block, 0),
        Ok(BlockOutcome::Known)
    ));
    let late = next_block(&chain, vec![], KEY, i64::MAX);
    assert!(matches!(
        chain.validate_and_add_block(late.clone(), i64::MAX - 7_201),
        Err(BlockError::InvalidTimestamp)
    ));
    assert!(matches!(chain.validate_and_add_block(late, i64::MAX), Ok(BlockOutcome::Extended)));
}

#[test]
fn a_block_must_come_after_the_median_of_its_ancestors() {
    let mut chain = fresh();
    let genesis_time = 1_730_000_000;
    let at_median = next_block(&chain, vec![], KEY, genesis_time);
    assert!(matches!(
        chain.validate_and_add_block(at_median, NOW),
        Err(BlockError::InvalidTimestamp)
    ));
    let before = next_block(&chain, vec![], KEY, genesis_time - 1);
    assert!(matches!(
        chain.validate_and_add_block(before, NOW),
        Err(BlockError::InvalidTimestamp)
    ));
    for step in 1..=11 {
        extend(&mut chain, vec![], KEY, genesis_time + 100 * step);
    }
    assert_eq!(chain.height(), 12);
    let median = genesis_time + 600;
    let at_median = next_block(&chain, vec![], KEY, median);
    assert!(matches!(
        chain.validate_and_add_block(at_median, NOW),
        Err(BlockError::InvalidTimestamp)
    ));
    let back_in_time = next_block(&chain, vec![], KEY, median + 1);
    assert!(matches!(
        chain.validate_and_add_block(back_in_time, NOW),
        Ok(BlockOutcome::Extended)
    ));
    assert_eq!(chain.height(), 13);
    let still_at = next_block(&chain, vec![], KEY, median + 1);
    assert!(matches!(
        chain.validate_and_add_block(still_at, NOW),
        Err(BlockError::InvalidTimestamp)
    ));
    extend(&mut chain, vec![], KEY, median + 2);
}

fn remined(mut block: Block) -> Block {
    assert!(mine(&mut block));
    block
}

#[test]
fn a_side_block_that_breaks_a_rule_of_its_own_is_not_indexed() {
    let mut node = fresh();
    grow(&mut node, 3, KEY);
    let before = contents(node.utxos());
    let mut peer = fresh();
    let good = next_block(&peer, vec![], PEER, 1_730_100_000);

    let mut uncommitted = good.clone();
    uncommitted.transactions[0].outputs[0].value -= 1;
    let mut wrong_root = good.clone();
    wrong_root.header.merkle_root = vec![7; 32];
    let wrong_root = remined(wrong_root);
    let mut empty = good.clone();
    empty.transactions.clear();
    let mut zero_root = good.clone();
    zero_root.transactions.clear();
    zero_root.header.merkle_root = vec![0; 32];
    let zero_root = remined(zero_root);
    let mut spending_first = good.clone();
    spending_first.transactions[0] = spend(KEY, &[(vec![1; 32], 0)], &[(1, address(KEY))]);
    spending_first.header.merkle_root = merkle_root(&spending_first.transactions);
    let spending_first = remined(spending_first);
    let mut two_coinbases = good.clone();
    two_coinbases.transactions.push(good.transactions[0].clone());
    two_coinbases.header.merkle_root = merkle_root(&two_coinbases.transactions);
    let two_coinbases = remined(two_coinbases);
    let mut wrong_target = good.clone();
    wrong_target.header.target[0] = 0x7f;
    let wrong_target = remined(wrong_target);
    let mut early = good.clone();
    early.header.timestamp = 1_730_000_000;
    let early = remined(early);

    for round in 0..2 {
        for (block, error) in [
            (&uncommitted, BlockError::InvalidMerkle),
            (&wrong_root, BlockError::InvalidMerkle),
            (&empty, BlockError::Malformed),
            (&zero_root, BlockError::Malformed),
            (&spending_first, BlockError::Malformed),
            (&two_coinbases, BlockError::Malformed),
            (&wrong_target, BlockError::InvalidTarget),
            (&early, BlockError::InvalidTimestamp),
        ] {
            match node.validate_and_add_block(block.clone(), NOW) {
                Err(e) => assert_eq!(e, error, "round {}", round),
                Ok(outcome) => panic!("taken in: {:?}", outcome),
            }
        }
    }
    assert_eq!(node.height(), 4);
    assert_eq!(contents(node.utxos()), before);

    assert!(matches!(node.validate_and_add_block(good.clone(), NOW), Ok(BlockOutcome::SideBranch)));
    assert!(matches!(peer.validate_and_add_block(good, NOW), Ok(BlockOutcome::Extended)));
    let mut child = next_block(&peer, vec![], PEER, 1_730_200_000);
    child.header.merkle_root = vec![9; 32];
    let child = remined(child);
    assert!(matches!(node.validate_and_add_block(child, NOW), Err(BlockError::InvalidMerkle)));
}

#[test]
fn a_side_block_with_a_bad_header_is_not_indexed() {
    let mut node = fresh();
    grow(&mut node, 2, KEY);
    let peer = fresh();
    let mut unhashed = next_block(&peer, vec![], PEER, 1_730_100_000);
    unhashed.hash[0] ^= 1;
    assert!(matches!(node.validate_and_add_block(unhashed.clone(), NOW), Err(BlockError::InvalidPow)));
    assert!(matches!(node.validate_and_add_block(unhashed, NOW), Err(BlockError::InvalidPow)));

    let mut misplaced = next_block(&peer, vec![], PEER, 1_730_100_000);
    misplaced.header.height = 2;
    assert!(mine(&mut misplaced));
    assert!(matches!(node.validate_and_add_block(misplaced, NOW), Err(BlockError::InvalidParent)));
    assert_eq!(node.height(), 3);
}

#[test]
fn a_sync_request_is_answered_from_its_height_on() {
    let mut chain = fresh();
    let made = grow(&mut chain, 4, KEY);
    let all = chain.blocks_from(0);
    assert_eq!(all.len(), 5);
    assert_eq!(all[0].hash, genesis_hash().to_vec());
    assert_eq!(all[4].hash, made[3].hash);
    let tail = chain.blocks_from(3);
    assert_eq!(tail.len(), 2);
    assert_eq!(tail[0].hash, made[2].hash);
    assert_eq!(tail[1].hash, made[3].hash);
    assert!(chain.blocks_from(5).is_empty());
    assert!(chain.blocks_from(6).is_empty());
    assert!(chain.blocks_from(u64::MAX).is_empty());
    assert!(Blockchain::new().blocks_from(0).is_empty());
}

#[test]
fn rebuilding_the_unspent_outputs_changes_nothing() {
    let mut chain = fresh();
    grow(&mut chain, 5, KEY);
    let before = contents(chain.utxos());
    let tip = tip_hash(&chain);
    chain.rebuild_utxos();
    assert_eq!(contents(chain.utxos()), before);
    assert_eq!(tip_hash(&chain), tip);
    assert_eq!(chain.height(), 6);
    grow(&mut chain, 1, KEY);
    assert_eq!(chain.height(), 7);

    let mut empty = Blockchain::new();
    empty.rebuild_utxos();
    assert_eq!(empty.height(), 0);
}
