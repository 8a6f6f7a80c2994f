use revelation_chain::block::{Block, BlockHeader};
use revelation_chain::bytes::{
    bytes_eq, right_align_32, write_bytes, write_count, write_i64_le, write_raw, write_u32_be,
    write_u32_le, write_u64_le,
};
use revelation_chain::crypto::{
    hash256, pubkey_hash, public_key, sha256, sign, verify_signature,
};
use revelation_chain::merkle::merkle_root;
use revelation_chain::serialize::{
    serialize_block_header, serialize_transaction, serialize_unsigned,
};
use revelation_chain::transaction::{Transaction, TxInput, TxOutput};

fn unhex(s: &str) -> Vec<u8> {
    let digits: Vec<u8> = s
        .bytes()
        .map(|c| match c {
            b'0'..=b'9' => c - b'0',
            b'a'..=b'f' => c - b'a' + 10,
            _ => panic!("not a hex digit"),
        })
        .collect();
    digits.chunks(2).map(|p| p[0] * 16 + p[1]).collect()
}

fn tx1() -> Transaction {
    Transaction {
        inputs: vec![TxInput {
            txid: vec![0x11; 32],
            index: 7,
            pubkey: vec![0x22; 32],
            signature: vec![0x33; 64],
            address_index: 5,
        }],
        outputs: vec![
            TxOutput { value: 1_234_567_890_123, pubkey_hash: vec![0x44; 32] },
            TxOutput { value: 1, pubkey_hash: vec![0x55; 32] },
        ],
    }
}

fn tx2() -> Transaction {
    Transaction {
        inputs: vec![],
        outputs: vec![TxOutput { value: 5_000_000_000, pubkey_hash: vec![0x66; 32] }],
    }
}

fn tx3() -> Transaction {
    Transaction {
        inputs: vec![
            TxInput {
                txid: vec![0x77; 32],
                index: 0,
                pubkey: vec![0x88; 32],
                signature: vec![0x99; 64],
                address_index: 0,
            },
            TxInput {
                txid: vec![0xaa; 32],
                index: 1,
                pubkey: vec![0xbb; 32],
                signature: vec![0xcc; 64],
                address_index: 1,
            },
        ],
        outputs: vec![TxOutput { value: 42, pubkey_hash: vec![0xdd; 32] }],
    }
}

#[test]
fn integers_are_little_endian() {
    let mut out = vec![0xee];
    write_u64_le(0x0102_0304_0506_0708, &mut out);
    assert_eq!(out, vec![0xee, 8, 7, 6, 5, 4, 3, 2, 1]);

    let mut out = Vec::new();
    write_u32_le(0xdead_beef, &mut out);
    assert_eq!(out, vec![0xef, 0xbe, 0xad, 0xde]);

    let mut out = Vec::new();
    write_u64_le(u64::MAX, &mut out);
    assert_eq!(out, vec![0xff; 8]);

    let mut out = Vec::new();
    write_u64_le(0, &mut out);
    assert_eq!(out, vec![0; 8]);
}

#[test]
fn signed_integers_are_twos_complement() {
    let mut out = Vec::new();
    write_i64_le(-2, &mut out);
    assert_eq!(out, vec![0xfe, 0xff, 0xff, 0xff, 0xff, 0xff, 0xff, 0xff]);

    let mut out = Vec::new();
    write_i64_le(i64::MIN, &mut out);
    assert_eq!(out, vec![0, 0, 0, 0, 0, 0, 0, 0x80]);

    let mut out = Vec::new();
    write_i64_le(i64::MAX, &mut out);
    assert_eq!(out, vec![0xff, 0xff, 0xff, 0xff, 0xff, 0xff, 0xff, 0x7f]);

    let mut out = Vec::new();
    write_i64_le(1_730_000_000, &mut out);
    assert_eq!(out, 1_730_000_000i64.to_le_bytes().to_vec());
}

#[test]
fn byte_strings_carry_their_length() {
    let mut out = Vec::new();
    write_bytes(&[9, 8, 7], &mut out);
    assert_eq!(out, vec![3, 0, 0, 0, 9, 8, 7]);

    let mut out = Vec::new();
    write_bytes(&[], &mut out);
    assert_eq!(out, vec![0, 0, 0, 0]);

    let mut out = vec![1];
    write_raw(&[2, 3], &mut out);
    assert_eq!(out, vec![1, 2, 3]);

    let mut out = Vec::new();
    write_count(258, &mut out);
    assert_eq!(out, vec![2, 1, 0, 0]);

    let mut out = Vec::new();
    write_u32_be(0x0102_0304, &mut out);
    assert_eq!(out, vec![1, 2, 3, 4]);
}

#[test]
fn byte_helpers() {
    assert!(bytes_eq(&[1, 2, 3], &[1, 2, 3]));
    assert!(!bytes_eq(&[1, 2, 3], &[1, 2, 4]));
    assert!(!bytes_eq(&[1, 2, 3], &[1, 2]));
    assert!(bytes_eq(&[], &[]));

    let mut want = [0u8; 32];
    want[30] = 0xab;
    want[31] = 0xcd;
    assert_eq!(right_align_32(&[0xab, 0xcd]), want);
    assert_eq!(right_align_32(&[]), [0u8; 32]);
    assert_eq!(right_align_32(&[7u8; 32]), [7u8; 32]);
}

#[test]
fn transaction_encoding_is_exact() {
    let want = unhex(&[
        "01000000",
        "1111111111111111111111111111111111111111111111111111111111111111",
        "07000000",
        "2222222222222222222222222222222222222222222222222222222222222222",
        "40000000",
        "3333333333333333333333333333333333333333333333333333333333333333",
        "3333333333333333333333333333333333333333333333333333333333333333",
        "0500000002000000cb04fb711f010000",
        "4444444444444444444444444444444444444444444444444444444444444444",
        "0100000000000000",
        "5555555555555555555555555555555555555555555555555555555555555555",
    ].concat());
    assert_eq!(want.len(), 228);
    assert_eq!(serialize_transaction(&tx1()), want);

    let coinbase = unhex(&[
        "000000000100000000f2052a01000000",
        "6666666666666666666666666666666666666666666666666666666666666666",
    ].concat());
    assert_eq!(coinbase.len(), 48);
    assert_eq!(serialize_transaction(&tx2()), coinbase);
}

#[test]
fn fixed_fields_are_written_raw() {
    let tx = Transaction {
        inputs: vec![],
        outputs: vec![TxOutput { value: 1, pubkey_hash: vec![0xaa; 32] }],
    };
    let bytes = serialize_transaction(&tx);
    assert_eq!(bytes.len(), 48);
    assert_eq!(&bytes[0..4], &[0, 0, 0, 0]);
    assert_eq!(&bytes[4..8], &[1, 0, 0, 0]);
    assert_eq!(&bytes[8..16], &[1, 0, 0, 0, 0, 0, 0, 0]);
    assert_eq!(&bytes[16..48], &[0xaa; 32]);

    let header = BlockHeader {
        height: 1,
        timestamp: 2,
        prev_hash: vec![0; 32],
        nonce: 3,
        target: [0xff; 32],
        merkle_root: vec![0x11; 32],
    };
    let bytes = serialize_block_header(&header);
    assert_eq!(bytes.len(), 120);
    assert_eq!(&bytes[0..8], &1u64.to_le_bytes());
    assert_eq!(&bytes[8..16], &2i64.to_le_bytes());
    assert_eq!(&bytes[16..48], &[0u8; 32]);
    assert_eq!(&bytes[48..56], &3u64.to_le_bytes());
    assert_eq!(&bytes[56..88], &[0xff; 32]);
    assert_eq!(&bytes[88..120], &[0x11; 32]);

    let input = tx1();
    let bytes = serialize_transaction(&input);
    assert_eq!(&bytes[4..36], &[0x11; 32]);
    assert_eq!(&bytes[36..40], &[7, 0, 0, 0]);
    assert_eq!(&bytes[40..72], &[0x22; 32]);
    assert_eq!(&bytes[72..76], &[64, 0, 0, 0]);
    assert_eq!(&bytes[76..140], &[0x33; 64]);
}

#[test]
fn serialization_is_deterministic() {
    let a = tx1();
    let b = a.clone();
    assert_eq!(serialize_transaction(&a), serialize_transaction(&b));
    assert_eq!(serialize_transaction(&a), serialize_transaction(&a));
    assert_eq!(a.txid(), b.txid());
}

#[test]
fn txid_is_double_sha256_of_the_encoding() {
    assert_eq!(
        tx1().txid(),
        unhex("15f090e653a9a0fdde7569d4012f530fded2f0e484e24a0234480b780df6251e")
    );
    assert_eq!(
        tx2().txid(),
        unhex("c2da383b002ab43d91189a0f534f8be87820041dc1c7a872260a8d594268d034")
    );
    assert_eq!(
        tx3().txid(),
        unhex("84fdbe3cc3bfce6eb6fb513a689469a73dd9e94ff637a41561ea815f8abb2d75")
    );
    assert_eq!(tx1().txid(), hash256(&serialize_transaction(&tx1())));
}

#[test]
fn sighash_blanks_the_signatures() {
    let tx = tx1();
    assert_eq!(
        tx.sighash(),
        unhex("c6700b8f025427c2b9a5cea4d3ca34217087b64225885a3bbdbfdd7c0cfab945")
    );
    let mut blanked = tx1();
    blanked.inputs[0].signature = vec![0u8; 64];
    assert_eq!(serialize_unsigned(&tx), serialize_transaction(&blanked));
    assert_eq!(tx.sighash(), blanked.txid());
}

#[test]
fn sighash_does_not_depend_on_signatures() {
    let base = tx3().sighash();
    let mut other = tx3();
    other.inputs[0].signature = vec![1, 2, 3];
    other.inputs[1].signature = vec![];
    assert_eq!(other.sighash(), base);
    assert_ne!(other.txid(), tx3().txid());

    let mut moved = tx3();
    moved.outputs[0].value = 43;
    assert_ne!(moved.sighash(), base);
}

#[test]
fn signed_message_is_the_sighash() {
    let seed = b"some signing key";
    let mut tx = tx3();
    let message = tx.sighash();
    let pubkey = public_key(seed);
    for input in tx.inputs.iter_mut() {
        input.pubkey = pubkey.clone();
    }
    let message = {
        assert_ne!(tx.sighash(), message);
        tx.sighash()
    };
    let signature = sign(seed, &message);
    for input in tx.inputs.iter_mut() {
        input.signature = signature.clone();
    }
    assert_eq!(tx.sighash(), message);
    for input in &tx.inputs {
        assert!(verify_signature(&input.pubkey, &tx.sighash(), &input.signature));
    }
}

#[test]
fn serialized_size_is_the_policy_estimate() {
    assert_eq!(tx1().serialized_size(), 148 + 2 * 34 + 10);
    assert_eq!(tx2().serialized_size(), 44);
    assert_eq!(tx3().serialized_size(), 2 * 148 + 34 + 10);
    assert_eq!(Transaction { inputs: vec![], outputs: vec![] }.serialized_size(), 10);
}

#[test]
fn coinbase_has_no_inputs() {
    assert!(tx2().is_coinbase());
    assert!(!tx1().is_coinbase());
}

#[test]
fn header_encoding_and_hash_are_exact() {
    let mut target = [0xffu8; 32];
    target[0] = 0x0f;
    let header = BlockHeader {
        height: 5,
        timestamp: -2,
        prev_hash: vec![1; 32],
        nonce: 0x0102_0304_0506_0708,
        target,
        merkle_root: vec![2; 32],
    };
    let want = unhex(&[
        "0500000000000000feffffffffffffff",
        "0101010101010101010101010101010101010101010101010101010101010101",
        "0807060504030201",
        "0fffffffffffffffffffffffffffffffffffffffffffffffffffffffffffffff",
        "0202020202020202020202020202020202020202020202020202020202020202",
    ].concat());
    assert_eq!(want.len(), 120);
    assert_eq!(serialize_block_header(&header), want);
    let block = Block { header, transactions: vec![], hash: vec![] };
    assert_eq!(
        block.hash_header(),
        unhex("ef545d126dcf7b972ba7cd36cf4df314095395c27f2707aa5263617111f27d20")
    );
}

#[test]
fn merkle_root_of_nothing_is_zero() {
    assert_eq!(merkle_root(&[]), vec![0u8; 32]);
}

#[test]
fn merkle_root_of_one_is_its_txid() {
    assert_eq!(merkle_root(&[tx1()]), tx1().txid());
}

#[test]
fn merkle_root_pairs_and_duplicates_the_odd_one() {
    assert_eq!(
        merkle_root(&[tx1(), tx2()]),
        unhex("b0ec98900f39e3ad135a5d7198d0951860dbf0d2601e78f65afd089efebdd295")
    );
    assert_eq!(
        merkle_root(&[tx1(), tx2(), tx3()]),
        unhex("ae21465f7c2e6b6c0542d477b766f709b4698a21dabd0601fa5cdd8d1ce8906c")
    );
    assert_eq!(merkle_root(&[tx1(), tx2(), tx3()]), merkle_root(&[tx1(), tx2(), tx3(), tx3()]));
}

#[test]
fn merkle_root_depends_on_order_and_content() {
    assert_ne!(merkle_root(&[tx1(), tx2()]), merkle_root(&[tx2(), tx1()]));
    assert_ne!(merkle_root(&[tx1(), tx2()]), merkle_root(&[tx1(), tx3()]));
    assert_ne!(merkle_root(&[tx1()]), merkle_root(&[tx2()]));
    let mut changed = tx1();
    changed.outputs[1].value = 2;
    assert_ne!(merkle_root(&[tx1(), tx2()]), merkle_root(&[changed, tx2()]));
}

#[test]
fn sha256_matches_known_digests() {
    assert_eq!(
        sha256(b"abc"),
        unhex("ba7816bf8f01cfea414140de5dae2223b00361a396177a9cb410ff61f20015ad")
    );
    assert_eq!(
        sha256(b""),
        unhex("e3b0c44298fc1c149afbf4c8996fb92427ae41e4649b934ca495991b7852b855")
    );
    assert_eq!(
        hash256(b"abc"),
        unhex("4f8b42c22dd3729b519ba6f68d2da7cc5b2d606d05daed5ad5128cc03e6c6358")
    );
    assert_eq!(pubkey_hash(b"abc"), sha256(b"abc"));
}

#[test]
fn ed25519_accepts_the_reference_signature() {
    let pubkey = unhex("d75a980182b10ab7d54bfed3c964073a0ee172f3daa62325af021a68f707511a");
    let signature = unhex(&[
        "e5564300c360ac729086e2cc806e828a84877f1eb8e5d974d873e06522490155",
        "5fb8821590a33bacc61e39701cf9b46bd25bf5f0595bbe24655141438e7a100b",
    ].concat());
    assert!(verify_signature(&pubkey, b"", &signature));
    assert!(!verify_signature(&pubkey, b"x", &signature));
    let mut forged = signature.clone();
    forged[0] ^= 1;
    assert!(!verify_signature(&pubkey, b"", &forged));
}

#[test]
fn signatures_of_the_wrong_shape_are_refused() {
    let seed = b"k";
    let pubkey = public_key(seed);
    let signature = sign(seed, b"message");
    assert_eq!(pubkey.len(), 32);
    assert_eq!(signature.len(), 64);
    assert!(verify_signature(&pubkey, b"message", &signature));
    assert!(!verify_signature(&pubkey[..31], b"message", &signature));
    assert!(!verify_signature(&pubkey, b"message", &signature[..63]));
    assert!(!verify_signature(&[], b"message", &[]));
    assert!(!verify_signature(&pubkey, b"other", &signature));
    let other = public_key(b"another key");
    assert_ne!(other, pubkey);
    assert!(!verify_signature(&other, b"message", &signature));
}

#[test]
fn signing_is_deterministic() {
    assert_eq!(sign(b"seed", b"message"), sign(b"seed", b"message"));
    assert_ne!(sign(b"seed", b"message"), sign(b"seed", b"massage"));
    assert_ne!(sign(b"seed", b"message"), sign(b"sead", b"message"));
    assert_eq!(public_key(b"seed"), public_key(b"seed"));
}

#[test]
fn key_of_a_seed_is_the_key_of_its_digest() {
    let secret = unhex("9d61b19deffd5a60ba844af492ec2cc44449c5697b326919703bac031cae7f60");
    assert_ne!(public_key(&secret), secret);
    assert_ne!(sign(&secret, b"m"), b"m".to_vec());
    assert!(verify_signature(&public_key(&secret), b"m", &sign(&secret, b"m")));
}
