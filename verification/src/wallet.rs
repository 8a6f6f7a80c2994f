//! The wallet's part in the ledger: what an address owns, which keys belong
//! to a seed, and how a payment is put together and signed.

use crate::bytes::{be_bytes, bytes_eq, write_raw, write_u32_be, zeros};
use crate::crypto::{
    ed25519_public, ed25519_sign, pubkey_hash, public_key, sha256, sign, spec_digest,
    spec_ed25519_public, spec_ed25519_sign, spec_ed25519_verify, spec_pubkey_hash,
    spec_secret_key, spec_verify_signature,
};
use crate::serialize::lemma_unsigned_ignores_signatures;
use crate::params::COINBASE_MATURITY;
use crate::transaction::{
    output_views, spec_sighash,
    Transaction, TransactionView, TxInput, TxInputView, TxOutput, TxOutputView,
};
use crate::utxo::{OutPoint, OutPointView, UtxoEntry, UtxoEntryView, UtxoSet};
use crate::validation::{
    input_key, input_sum, inputs_present, keys_match, mature, output_sum, signatures_valid,
};
use vstd::prelude::*;
use zeroize::Zeroize;

verus! {

/// Keys that a wallet derives from one seed.
pub const WALLET_KEYS: u32 = 20;

/// What an address owns: all of it, what can be spent now, and what is a
/// coinbase output still maturing.
#[derive(Debug, Clone, Copy, PartialEq, Eq, Structural)]
pub struct WalletBalance {
    pub total: u64,
    pub spendable: u64,
    pub locked: u64,
}

/// Which part of a balance an unspent output counts towards.
#[derive(Clone, Copy, PartialEq, Eq, Structural)]
pub enum Part {
    Total,
    Spendable,
    Locked,
}

/// Whether an unspent output counts towards a part of the balance of
/// `address` at `height`.
pub open spec fn counts(e: UtxoEntryView, address: Seq<u8>, height: u64, part: Part) -> bool {
    e.pubkey_hash == address && match part {
        Part::Total => true,
        Part::Spendable => mature(e, height),
        Part::Locked => !mature(e, height),
    }
}

/// The worth of the unspent outputs that count towards a part of the
/// balance.
pub open spec fn balance_sum(
    listing: Seq<(OutPointView, UtxoEntryView)>,
    address: Seq<u8>,
    height: u64,
    part: Part,
) -> nat
    decreases listing.len(),
{
    if listing.len() == 0 {
        0
    } else {
        balance_sum(listing.drop_last(), address, height, part) + if counts(
            listing.last().1,
            address,
            height,
            part,
        ) {
            listing.last().1.value as nat
        } else {
            0
        }
    }
}

/// A sum as a `u64` holds it: the sum itself, capped at `u64::MAX`.
pub open spec fn capped(sum: nat) -> u64 {
    if sum <= u64::MAX {
        sum as u64
    } else {
        u64::MAX
    }
}

fn cap(sum: u128) -> (c: u64)
    ensures
        c == capped(sum as nat),
{
    if sum > u64::MAX as u128 {
        u64::MAX
    } else {
        sum as u64
    }
}

/// Adds up what `my_pubkey_hash` owns among the unspent outputs.
pub fn calculate_wallet_balance(utxos: &UtxoSet, my_pubkey_hash: &[u8], current_height: u64) -> (balance:
    WalletBalance)
    ensures
        balance.total == capped(
            balance_sum(utxos.listing(), my_pubkey_hash@, current_height, Part::Total),
        ),
        balance.spendable == capped(
            balance_sum(utxos.listing(), my_pubkey_hash@, current_height, Part::Spendable),
        ),
        balance.locked == capped(
            balance_sum(utxos.listing(), my_pubkey_hash@, current_height, Part::Locked),
        ),
{
    let ghost listing = utxos.listing();
    let n = utxos.count();
    let mut total: u128 = 0;
    let mut spendable: u128 = 0;
    let mut locked: u128 = 0;
    let mut i: usize = 0;
    while i < n
        invariant
            i <= n,
            n == listing.len(),
            listing == utxos.listing(),
            total == balance_sum(listing.take(i as int), my_pubkey_hash@, current_height, Part::Total),
            spendable == balance_sum(
                listing.take(i as int),
                my_pubkey_hash@,
                current_height,
                Part::Spendable,
            ),
            locked == balance_sum(
                listing.take(i as int),
                my_pubkey_hash@,
                current_height,
                Part::Locked,
            ),
            total <= i * 0xffff_ffff_ffff_ffff,
            spendable <= i * 0xffff_ffff_ffff_ffff,
            locked <= i * 0xffff_ffff_ffff_ffff,
        decreases n - i,
    {
        let (txid, index, entry) = utxos.entry_at(i);
        proof {
            assert(listing.take(i + 1).drop_last() == listing.take(i as int));
            assert(listing.take(i + 1).last() == listing[i as int]);
            assert((i + 1) * 0xffff_ffff_ffff_ffff <= 0xffff_ffff_ffff_ffff
                * 0xffff_ffff_ffff_ffff) by (nonlinear_arith)
                requires
                    i + 1 <= 0xffff_ffff_ffff_ffff,
            ;
        }
        if bytes_eq(entry.pubkey_hash.as_slice(), my_pubkey_hash) {
            total = total + entry.value as u128;
            let ripe = !entry.is_coinbase || current_height as u128 >= entry.creation_height as u128
                + COINBASE_MATURITY as u128;
            if ripe {
                spendable = spendable + entry.value as u128;
            } else {
                locked = locked + entry.value as u128;
            }
        }
        i = i + 1;
    }
    assert(listing.take(n as int) == listing);
    WalletBalance { total: cap(total), spendable: cap(spendable), locked: cap(locked) }
}

/// The secret key at place `index` under a master seed.
pub open spec fn child_seed(master: Seq<u8>, index: u32) -> Seq<u8> {
    spec_digest(master + be_bytes(index as nat, 4))
}

/// The public key at place `index` under a master seed.
pub open spec fn child_pubkey(master: Seq<u8>, index: u32) -> Seq<u8> {
    spec_ed25519_public(child_seed(master, index))
}

/// The address at place `index` under a master seed.
pub open spec fn child_address(master: Seq<u8>, index: u32) -> Seq<u8> {
    spec_pubkey_hash(child_pubkey(master, index))
}

/// The first place below `upto` whose address is `address`, if there is one.
pub open spec fn owner_index(master: Seq<u8>, address: Seq<u8>, upto: nat) -> Option<u32>
    decreases upto,
{
    if upto == 0 {
        None
    } else {
        match owner_index(master, address, (upto - 1) as nat) {
            Some(i) => Some(i),
            None => if child_address(master, (upto - 1) as u32) == address {
                Some((upto - 1) as u32)
            } else {
                None
            },
        }
    }
}

/// An unspent output that the wallet spends, with the place of its key.
pub struct Coin {
    pub outpoint: OutPointView,
    pub key: u32,
    pub value: u64,
}

/// The worth of a list of coins.
pub open spec fn coins_sum(coins: Seq<Coin>) -> nat
    decreases coins.len(),
{
    if coins.len() == 0 {
        0
    } else {
        coins_sum(coins.drop_last()) + coins.last().value as nat
    }
}

/// The coins that pay for `amount`: the wallet's own unspent outputs in the
/// order of the listing, up to the first with which they are worth enough.
pub open spec fn select_coins(
    listing: Seq<(OutPointView, UtxoEntryView)>,
    master: Seq<u8>,
    amount: u64,
) -> Seq<Coin>
    decreases listing.len(),
{
    if listing.len() == 0 {
        Seq::empty()
    } else {
        let before = select_coins(listing.drop_last(), master, amount);
        if coins_sum(before) >= amount {
            before
        } else {
            match owner_index(master, listing.last().1.pubkey_hash, WALLET_KEYS as nat) {
                Some(key) => before.push(
                    Coin { outpoint: listing.last().0, key, value: listing.last().1.value },
                ),
                None => before,
            }
        }
    }
}

/// The outputs of a payment: the amount to the payee and, where the coins
/// are worth more, the change to the wallet's first address.
pub open spec fn payment_outputs(master: Seq<u8>, to: Seq<u8>, amount: u64, change: nat) -> Seq<
    TxOutputView,
> {
    if change > 0 {
        seq![
            TxOutputView { value: amount, pubkey_hash: to },
            TxOutputView { value: change as u64, pubkey_hash: child_address(master, 0) },
        ]
    } else {
        seq![TxOutputView { value: amount, pubkey_hash: to }]
    }
}

/// The input that spends a coin, with the given signature.
pub open spec fn coin_input(master: Seq<u8>, coin: Coin, signature: Seq<u8>) -> TxInputView {
    TxInputView {
        txid: coin.outpoint.0,
        index: coin.outpoint.1,
        pubkey: child_pubkey(master, coin.key),
        signature,
        address_index: coin.key,
    }
}

/// The payment before it is signed.
pub open spec fn payment_draft(master: Seq<u8>, coins: Seq<Coin>, outputs: Seq<TxOutputView>) -> TransactionView {
    TransactionView {
        inputs: Seq::new(coins.len(), |i: int| coin_input(master, coins[i], Seq::empty())),
        outputs,
    }
}

/// The payment: every input signed, with the key of its coin, over the
/// signing message of the draft.
pub open spec fn spec_payment(
    master: Seq<u8>,
    listing: Seq<(OutPointView, UtxoEntryView)>,
    to: Seq<u8>,
    amount: u64,
) -> TransactionView {
    let coins = select_coins(listing, master, amount);
    let outputs = payment_outputs(master, to, amount, (coins_sum(coins) - amount) as nat);
    let message = spec_sighash(payment_draft(master, coins, outputs));
    TransactionView {
        inputs: Seq::new(
            coins.len(),
            |i: int|
                coin_input(
                    master,
                    coins[i],
                    spec_ed25519_sign(child_seed(master, coins[i].key), message),
                ),
        ),
        outputs,
    }
}

/// Whether a coin is an unspent output of the listing that is locked to the
/// address of the coin's key.
pub open spec fn coin_of(listing: Seq<(OutPointView, UtxoEntryView)>, master: Seq<u8>, c: Coin) -> bool {
    exists|k: int|
        0 <= k < listing.len() && (#[trigger] listing[k]).0 == c.outpoint && listing[k].1.value
            == c.value && listing[k].1.pubkey_hash == child_address(master, c.key)
}

/// The place that is found for an address is one whose key is locked to it.
pub proof fn lemma_owner_address(master: Seq<u8>, address: Seq<u8>, upto: nat)
    requires
        upto <= u32::MAX,
        owner_index(master, address, upto) is Some,
    ensures
        child_address(master, owner_index(master, address, upto)->Some_0) == address,
    decreases upto,
{
    if upto > 0 && owner_index(master, address, (upto - 1) as nat) is Some {
        lemma_owner_address(master, address, (upto - 1) as nat);
    }
}

/// Every coin that the wallet selects is an unspent output of the listing
/// that is locked to one of its own keys.
pub proof fn lemma_selected_coins_are_owned(
    listing: Seq<(OutPointView, UtxoEntryView)>,
    master: Seq<u8>,
    amount: u64,
)
    ensures
        forall|j: int|
            0 <= j < select_coins(listing, master, amount).len() ==> coin_of(
                listing,
                master,
                #[trigger] select_coins(listing, master, amount)[j],
            ),
    decreases listing.len(),
{
    if listing.len() > 0 {
        let front = listing.drop_last();
        lemma_selected_coins_are_owned(front, master, amount);
        let before = select_coins(front, master, amount);
        let now = select_coins(listing, master, amount);
        assert forall|j: int| 0 <= j < now.len() implies coin_of(listing, master, #[trigger] now[j]) by {
            if j < before.len() {
                assert(now[j] == before[j]);
                assert(coin_of(front, master, before[j]));
                let k = choose|k: int|
                    0 <= k < front.len() && (#[trigger] front[k]).0 == before[j].outpoint
                        && front[k].1.value == before[j].value && front[k].1.pubkey_hash
                        == child_address(master, before[j].key);
                assert(listing[k] == front[k]);
            } else {
                lemma_owner_address(master, listing.last().1.pubkey_hash, WALLET_KEYS as nat);
                assert(listing[listing.len() - 1].0 == now[j].outpoint);
            }
        }
    }
}

/// What the inputs of a payment spend is what its coins are worth.
proof fn lemma_coins_worth(
    utxos: &UtxoSet,
    master: Seq<u8>,
    coins: Seq<Coin>,
    inputs: Seq<TxInputView>,
    upto: int,
)
    requires
        utxos.wf(),
        0 <= upto <= coins.len(),
        inputs.len() == coins.len(),
        forall|j: int| 0 <= j < coins.len() ==> coin_of(utxos.listing(), master, #[trigger] coins[j]),
        forall|j: int| 0 <= j < coins.len() ==> input_key(#[trigger] inputs[j]) == coins[j].outpoint,
    ensures
        input_sum(inputs.take(upto), utxos@) == coins_sum(coins.take(upto)),
    decreases upto,
{
    if upto > 0 {
        lemma_coins_worth(utxos, master, coins, inputs, upto - 1);
        assert(inputs.take(upto).drop_last() == inputs.take(upto - 1));
        assert(coins.take(upto).drop_last() == coins.take(upto - 1));
        let c = coins[upto - 1];
        assert(coin_of(utxos.listing(), master, c));
        utxos.lemma_listing();
        assert(inputs.take(upto).last() == inputs[upto - 1]);
        assert(coins.take(upto).last() == c);
    }
}

/// A payment spends unspent outputs that are locked to the keys on its
/// inputs, and pays out exactly what they are worth.
pub proof fn lemma_payment_spends_own_outputs(
    utxos: &UtxoSet,
    master: Seq<u8>,
    to: Seq<u8>,
    amount: u64,
)
    requires
        utxos.wf(),
        coins_sum(select_coins(utxos.listing(), master, amount)) >= amount,
    ensures
        inputs_present(spec_payment(master, utxos.listing(), to, amount), utxos@),
        keys_match(spec_payment(master, utxos.listing(), to, amount), utxos@),
        input_sum(spec_payment(master, utxos.listing(), to, amount).inputs, utxos@) == output_sum(
            spec_payment(master, utxos.listing(), to, amount).outputs,
        ),
{
    let listing = utxos.listing();
    let coins = select_coins(listing, master, amount);
    let tx = spec_payment(master, listing, to, amount);
    lemma_selected_coins_are_owned(listing, master, amount);
    utxos.lemma_listing();
    assert forall|i: int| 0 <= i < tx.inputs.len() implies utxos@.contains_key(
        input_key(#[trigger] tx.inputs[i]),
    ) && spec_pubkey_hash(tx.inputs[i].pubkey) == utxos@[input_key(tx.inputs[i])].pubkey_hash by {
        assert(coin_of(listing, master, coins[i]));
    }
    lemma_coins_worth(utxos, master, coins, tx.inputs, coins.len() as int);
    assert(tx.inputs.take(coins.len() as int) == tx.inputs);
    assert(coins.take(coins.len() as int) == coins);
    lemma_change_fits(listing, master, amount);
    let change = (coins_sum(coins) - amount) as nat;
    let outputs = payment_outputs(master, to, amount, change);
    assert(tx.outputs == outputs);
    assert(input_sum(tx.inputs, utxos@) == coins_sum(coins));
    if change > 0 {
        let front = outputs.drop_last();
        assert(front =~= seq![outputs[0]]);
        assert(front.drop_last() =~= Seq::<TxOutputView>::empty());
        assert(output_sum(front.drop_last()) == 0);
        assert(output_sum(front) == amount);
        assert(outputs.last().value == change);
        assert(output_sum(outputs) == amount + change);
    } else {
        assert(outputs.drop_last() =~= Seq::<TxOutputView>::empty());
        assert(output_sum(outputs.drop_last()) == 0);
        assert(output_sum(outputs) == amount);
    }
}

/// Why the wallet cannot do what it is asked.
#[derive(Debug, Clone, Copy, PartialEq, Eq, Structural)]
pub enum WalletError {
    /// It holds no seed.
    Locked,
    /// Its unspent outputs are worth less than the amount.
    NotEnoughFunds,
}

/// A wallet: the master seed while it is unlocked.
pub struct Wallet {
    master_seed: Option<[u8; 32]>,
}

/// `zeroize::Zeroize::zeroize` on a 32-byte array: every byte is zero
/// afterwards, and the writes are not optimized away.
#[verifier::external_body]
fn wipe(seed: &mut [u8; 32])
    ensures
        final(seed)@ == zeros(32),
{
    seed.zeroize();
}

/// Overwrites a seed with zeros.
pub fn erase(seed: &mut [u8; 32])
    ensures
        final(seed)@ == zeros(32),
{
    wipe(seed);
}

struct Picked {
    txid: Vec<u8>,
    index: u32,
    key: u32,
    value: u64,
}

impl Picked {
    spec fn coin(self) -> Coin {
        Coin { outpoint: (self.txid@, self.index), key: self.key, value: self.value }
    }
}

spec fn picked_coins(s: Seq<Picked>) -> Seq<Coin> {
    s.map_values(|p: Picked| p.coin())
}

fn derive_child_seed(master: &[u8; 32], index: u32) -> (seed: Vec<u8>)
    ensures
        seed@ == child_seed(master@, index),
        seed@.len() == 32,
{
    let mut buf: Vec<u8> = Vec::new();
    write_raw(master.as_slice(), &mut buf);
    write_u32_be(index, &mut buf);
    sha256(buf.as_slice())
}

fn find_owner(master: &[u8; 32], address: &[u8]) -> (key: Option<u32>)
    ensures
        key == owner_index(master@, address@, WALLET_KEYS as nat),
{
    let mut i: u32 = 0;
    while i < WALLET_KEYS
        invariant
            i <= WALLET_KEYS,
            owner_index(master@, address@, i as nat) is None,
        decreases WALLET_KEYS - i,
    {
        let secret = derive_child_seed(master, i);
        let public = ed25519_public(secret.as_slice());
        let hash = pubkey_hash(public.as_slice());
        if bytes_eq(hash.as_slice(), address) {
            proof {
                lemma_owner_found(master@, address@, i, WALLET_KEYS as nat);
            }
            return Some(i);
        }
        i = i + 1;
    }
    None
}

proof fn lemma_owner_found(master: Seq<u8>, address: Seq<u8>, i: u32, upto: nat)
    requires
        i < upto <= u32::MAX,
        owner_index(master, address, i as nat) is None,
        child_address(master, i) == address,
    ensures
        owner_index(master, address, upto) == Some(i),
    decreases upto,
{
    if upto > i + 1 {
        lemma_owner_found(master, address, i, (upto - 1) as nat);
    }
}

impl Wallet {
    /// The master seed, where the wallet is unlocked.
    pub closed spec fn seed(&self) -> Option<Seq<u8>> {
        match self.master_seed {
            Some(s) => Some(s@),
            None => None,
        }
    }

    /// A wallet unlocked with `seed`.
    pub fn from_seed(seed: [u8; 32]) -> (w: Self)
        ensures
            w.seed() == Some(seed@),
    {
        Wallet { master_seed: Some(seed) }
    }

    /// A wallet that holds no seed.
    pub fn locked() -> (w: Self)
        ensures
            w.seed() is None,
    {
        Wallet { master_seed: None }
    }

    /// Whether the wallet holds no seed.
    pub fn is_locked(&self) -> (b: bool)
        ensures
            b == (self.seed() is None),
    {
        self.master_seed.is_none()
    }

    /// Forgets the seed, after overwriting it.
    pub fn lock(&mut self)
        ensures
            final(self).seed() is None,
    {
        match &mut self.master_seed {
            Some(s) => {
                erase(s);
            },
            None => {},
        }
        self.master_seed = None;
    }

    /// The wallet's first address.
    pub fn address(&self) -> (address: Result<Vec<u8>, WalletError>)
        ensures
            match address {
                Ok(a) => self.seed() is Some && a@ == child_address(self.seed()->Some_0, 0),
                Err(e) => self.seed() is None && e == WalletError::Locked,
            },
    {
        match &self.master_seed {
            None => Err(WalletError::Locked),
            Some(master) => {
                let secret = derive_child_seed(master, 0);
                let public = ed25519_public(secret.as_slice());
                Ok(pubkey_hash(public.as_slice()))
            },
        }
    }

    /// Puts together and signs a payment of `amount` to `to_pubkey_hash`
    /// from the wallet's own unspent outputs. Every input carries a
    /// signature that is valid for the payment, under the key that the
    /// output it spends is locked to, and the payment pays out what it
    /// spends.
    pub fn create_transaction(&mut self, utxos: &UtxoSet, to_pubkey_hash: Vec<u8>, amount: u64) -> (made:
        Result<Transaction, WalletError>)
        ensures
            final(self).seed() == old(self).seed(),
            match made {
                Ok(tx) => {
                    &&& old(self).seed() is Some
                    &&& coins_sum(
                        select_coins(utxos.listing(), old(self).seed()->Some_0, amount),
                    ) >= amount
                    &&& tx@ == spec_payment(
                        old(self).seed()->Some_0,
                        utxos.listing(),
                        to_pubkey_hash@,
                        amount,
                    )
                    &&& signatures_valid(tx@)
                    &&& utxos.wf() ==> inputs_present(tx@, utxos@) && keys_match(tx@, utxos@)
                        && input_sum(tx@.inputs, utxos@) == output_sum(tx@.outputs)
                },
                Err(WalletError::Locked) => old(self).seed() is None,
                Err(WalletError::NotEnoughFunds) => old(self).seed() is Some && coins_sum(
                    select_coins(utxos.listing(), old(self).seed()->Some_0, amount),
                ) < amount,
            },
    {
        let master: [u8; 32] = match self.master_seed {
            None => {
                return Err(WalletError::Locked);
            },
            Some(m) => m,
        };
        let ghost listing = utxos.listing();
        let n = utxos.count();
        let mut picked: Vec<Picked> = Vec::new();
        let mut collected: u128 = 0;
        let mut i: usize = 0;
        assert(listing.take(0) =~= Seq::<(OutPointView, UtxoEntryView)>::empty());
        assert(picked_coins(picked@) =~= Seq::<Coin>::empty());
        while i < n
            invariant
                i <= n,
                n == listing.len(),
                listing == utxos.listing(),
                picked_coins(picked@) == select_coins(listing.take(i as int), master@, amount),
                collected == coins_sum(picked_coins(picked@)),
                collected <= i * 0xffff_ffff_ffff_ffff,
            decreases n - i,
        {
            proof {
                assert(listing.take(i + 1).drop_last() == listing.take(i as int));
                assert(listing.take(i + 1).last() == listing[i as int]);
                assert((i + 1) * 0xffff_ffff_ffff_ffff <= 0xffff_ffff_ffff_ffff
                    * 0xffff_ffff_ffff_ffff) by (nonlinear_arith)
                    requires
                        i + 1 <= 0xffff_ffff_ffff_ffff,
                ;
            }
            if collected < amount as u128 {
                let (txid, index, entry) = utxos.entry_at(i);
                match find_owner(&master, entry.pubkey_hash.as_slice()) {
                    Some(key) => {
                        let ghost before = picked_coins(picked@);
                        let p = Picked { txid: txid.clone(), index, key, value: entry.value };
                        picked.push(p);
                        proof {
                            assert(picked_coins(picked@) =~= before.push(p.coin()));
                            assert(picked_coins(picked@).drop_last() == before);
                        }
                        collected = collected + entry.value as u128;
                    },
                    None => {},
                }
            }
            i = i + 1;
        }
        assert(listing.take(n as int) == listing);
        let ghost coins = picked_coins(picked@);
        if collected < amount as u128 {
            return Err(WalletError::NotEnoughFunds);
        }
        let change: u128 = collected - amount as u128;
        proof {
            lemma_change_fits(listing, master@, amount);
        }
        let own = derive_child_seed(&master, 0);
        let own_public = ed25519_public(own.as_slice());
        let change_address = pubkey_hash(own_public.as_slice());
        let mut outputs: Vec<TxOutput> = Vec::new();
        outputs.push(TxOutput { value: amount, pubkey_hash: to_pubkey_hash });
        if change > 0 {
            outputs.push(TxOutput { value: change as u64, pubkey_hash: change_address });
        }
        let ghost outs = payment_outputs(master@, to_pubkey_hash@, amount, change as nat);
        assert(output_views(outputs@) =~= outs);
        let mut inputs: Vec<TxInput> = Vec::new();
        let mut k: usize = 0;
        while k < picked.len()
            invariant
                k <= picked.len(),
                coins == picked_coins(picked@),
                inputs@.len() == k,
                forall|j: int|
                    0 <= j < k ==> (#[trigger] inputs@[j])@ == coin_input(
                        master@,
                        coins[j],
                        Seq::empty(),
                    ),
            decreases picked.len() - k,
        {
            let secret = derive_child_seed(&master, picked[k].key);
            let public = ed25519_public(secret.as_slice());
            inputs.push(
                TxInput {
                    txid: picked[k].txid.clone(),
                    index: picked[k].index,
                    pubkey: public,
                    signature: Vec::new(),
                    address_index: picked[k].key,
                },
            );
            k = k + 1;
        }
        let mut tx = Transaction { inputs, outputs };
        assert(tx@.inputs =~= payment_draft(master@, coins, outs).inputs);
        assert(tx@ == payment_draft(master@, coins, outs));
        let message = tx.sighash();
        let mut signed: Vec<TxInput> = Vec::new();
        let mut s: usize = 0;
        while s < picked.len()
            invariant
                s <= picked.len(),
                coins == picked_coins(picked@),
                message@ == spec_sighash(payment_draft(master@, coins, outs)),
                signed@.len() == s,
                forall|j: int|
                    0 <= j < s ==> (#[trigger] signed@[j])@ == coin_input(
                        master@,
                        coins[j],
                        spec_ed25519_sign(child_seed(master@, coins[j].key), message@),
                    ),
                forall|j: int|
                    0 <= j < s ==> (#[trigger] signed@[j]).pubkey@.len() == 32
                        && signed@[j].signature@.len() == 64 && spec_ed25519_verify(
                        signed@[j].pubkey@,
                        message@,
                        signed@[j].signature@,
                    ),
            decreases picked.len() - s,
        {
            let secret = derive_child_seed(&master, picked[s].key);
            let public = ed25519_public(secret.as_slice());
            let signature = ed25519_sign(secret.as_slice(), message.as_slice());
            signed.push(
                TxInput {
                    txid: picked[s].txid.clone(),
                    index: picked[s].index,
                    pubkey: public,
                    signature,
                    address_index: picked[s].key,
                },
            );
            s = s + 1;
        }
        let ghost draft = tx@;
        tx.inputs = signed;
        assert(tx@.inputs =~= spec_payment(
            master@,
            listing,
            to_pubkey_hash@,
            amount,
        ).inputs);
        proof {
            lemma_unsigned_ignores_signatures(tx@, draft);
            assert forall|j: int| 0 <= j < tx@.inputs.len() implies spec_verify_signature(
                (#[trigger] tx@.inputs[j]).pubkey,
                spec_sighash(tx@),
                tx@.inputs[j].signature,
            ) by {
                assert(tx@.inputs[j] == tx.inputs@[j]@);
            }
            if utxos.wf() {
                lemma_payment_spends_own_outputs(utxos, master@, to_pubkey_hash@, amount);
            }
        }
        Ok(tx)
    }
}

/// The change of a payment fits a `u64`: the coins before the last were
/// worth less than the amount.
proof fn lemma_change_fits(listing: Seq<(OutPointView, UtxoEntryView)>, master: Seq<u8>, amount: u64)
    ensures
        coins_sum(select_coins(listing, master, amount)) < amount + 0x1_0000_0000_0000_0000,
    decreases listing.len(),
{
    if listing.len() > 0 {
        lemma_change_fits(listing.drop_last(), master, amount);
        let before = select_coins(listing.drop_last(), master, amount);
        let now = select_coins(listing, master, amount);
        if coins_sum(before) < amount {
            match owner_index(master, listing.last().1.pubkey_hash, WALLET_KEYS as nat) {
                Some(key) => {
                    assert(now.drop_last() == before);
                },
                None => {},
            }
        }
    }
}

/// The transaction that moves one unspent output, whole, to the address of
/// the key that `miner_key` stands for, signed with that key.
pub open spec fn spec_spend_coinbase(outpoint: OutPointView, value: u64, miner_key: Seq<u8>) -> TransactionView {
    let pubkey = spec_ed25519_public(spec_secret_key(miner_key));
    let outputs = seq![TxOutputView { value, pubkey_hash: spec_pubkey_hash(pubkey) }];
    let draft = TransactionView {
        inputs: seq![
            TxInputView {
                txid: outpoint.0,
                index: outpoint.1,
                pubkey,
                signature: Seq::empty(),
                address_index: 0,
            },
        ],
        outputs,
    };
    TransactionView {
        inputs: seq![
            TxInputView {
                txid: outpoint.0,
                index: outpoint.1,
                pubkey,
                signature: spec_ed25519_sign(spec_secret_key(miner_key), spec_sighash(draft)),
                address_index: 0,
            },
        ],
        outputs,
    }
}

impl Transaction {
    /// Spends a coinbase output to the miner's own address, with a valid
    /// signature of the miner's key.
    pub fn spend_coinbase(outpoint: &OutPoint, utxo: &UtxoEntry, miner_key: &[u8]) -> (tx: Transaction)
        ensures
            tx@ == spec_spend_coinbase(outpoint@, utxo.value, miner_key@),
            signatures_valid(tx@),
    {
        let pubkey = public_key(miner_key);
        let address = pubkey_hash(pubkey.as_slice());
        let mut outputs: Vec<TxOutput> = Vec::new();
        outputs.push(TxOutput { value: utxo.value, pubkey_hash: address });
        let mut inputs: Vec<TxInput> = Vec::new();
        inputs.push(
            TxInput {
                txid: outpoint.txid.clone(),
                index: outpoint.index,
                pubkey: pubkey.clone(),
                signature: Vec::new(),
                address_index: 0,
            },
        );
        let draft = Transaction { inputs, outputs };
        proof {
            assert(draft@.inputs =~= seq![draft.inputs@[0]@]);
            assert(draft@.outputs =~= seq![draft.outputs@[0]@]);
        }
        let message = draft.sighash();
        let signature = sign(miner_key, message.as_slice());
        let mut signed: Vec<TxInput> = Vec::new();
        signed.push(
            TxInput {
                txid: outpoint.txid.clone(),
                index: outpoint.index,
                pubkey,
                signature,
                address_index: 0,
            },
        );
        let tx = Transaction { inputs: signed, outputs: draft.outputs };
        proof {
            assert(tx@.inputs =~= seq![tx.inputs@[0]@]);
            assert(tx@.outputs == draft@.outputs);
            lemma_unsigned_ignores_signatures(tx@, draft@);
        }
        tx
    }
}

} // verus!
