//! A minimal state of the chain.
use crate::block::{TxOut, TxOutV};
use crate::bytes::{le_bytes, push_le, vec_of};
use crate::collections::{
    as_nats, lemma_map_of, lemma_map_sum_insert, lemma_sorted_distinct, lemma_sum_push, map_of,
    map_sum, sorted_by_key, sum_of, OrdKey, OrdMap,
};
use crate::miner::capped_sum;
use crate::primitives::{sha256, sha256_of};
use crate::transaction::{balance, held_outputs, worth, UTXOSet};
use crate::types::{Amount, MinerId, OutPoint, Txid};
use vstd::prelude::*;

verus! {

/// The unspent outputs, the height and the supply.
#[derive(Debug)]
pub struct ChainState {
    pub utxo: UTXOSet,
    pub height: u64,
    pub total_supply: Amount,
}

impl Default for ChainState {
    fn default() -> (r: Self)
        ensures
            r.utxo@ == Map::<OutPoint, TxOut>::empty(),
            r.height == 0,
            r.total_supply == 0,
    {
        Self::new()
    }
}

/// The bytes `epoch_reward`.
pub open spec fn epoch_reward_tag() -> Seq<u8> {
    seq![
        0x65u8, 0x70u8, 0x6Fu8, 0x63u8, 0x68u8, 0x5Fu8, 0x72u8, 0x65u8, 0x77u8, 0x61u8, 0x72u8,
        0x64u8,
    ]
}

/// The identifier of the transaction that stands for a reward.
pub open spec fn epoch_reward_txid(epoch_index: u32, miner_id: MinerId) -> Seq<u8> {
    sha256_of(epoch_reward_tag() + le_bytes(epoch_index as nat, 4) + miner_id@)
}

/// The identifier of the transaction that stands for a reward, as an array.
pub open spec fn epoch_reward_txid_array(epoch_index: u32, miner_id: MinerId) -> Txid {
    choose|a: Txid| a@ == epoch_reward_txid(epoch_index, miner_id)
}

/// A set of outputs with those that pay the first `n` rewards, in order; rewards of zero are
/// passed over.
pub open spec fn rewards_paid(
    outputs: Map<OutPoint, TxOutV>,
    epoch_index: u32,
    rewards: Seq<(MinerId, Amount)>,
    n: nat,
) -> Map<OutPoint, TxOutV>
    decreases n,
{
    if n == 0 {
        outputs
    } else {
        let before = rewards_paid(outputs, epoch_index, rewards, (n - 1) as nat);
        let (miner_id, amount) = rewards[n - 1];
        if amount == 0 {
            before
        } else {
            before.insert(
                (epoch_reward_txid_array(epoch_index, miner_id), 0u32),
                TxOutV { value: amount, script_pubkey: miner_id@ },
            )
        }
    }
}

/// A supply with the first `n` rewards, held to the largest number.
pub open spec fn supply_after(supply: Amount, rewards: Seq<(MinerId, Amount)>, n: nat) -> Amount
    decreases n,
{
    if n == 0 {
        supply
    } else {
        capped_sum(supply_after(supply, rewards, (n - 1) as nat), rewards[n - 1].1)
    }
}

impl ChainState {
    /// An empty state.
    pub fn new() -> (r: Self)
        ensures
            r.utxo@ == Map::<OutPoint, TxOut>::empty(),
            r.height == 0,
            r.total_supply == 0,
    {
        ChainState { utxo: UTXOSet::default(), height: 0, total_supply: 0 }
    }

    /// Pays the rewards of an epoch, in increasing order of the miners.
    pub fn apply_epoch_rewards(&mut self, rewards: &OrdMap<MinerId, Amount>, epoch_index: u32)
        ensures
            final(self).height == old(self).height,
            final(self).total_supply == supply_after(
                old(self).total_supply,
                rewards.items(),
                rewards.items().len(),
            ),
            held_outputs(final(self).utxo@) == rewards_paid(
                held_outputs(old(self).utxo@),
                epoch_index,
                rewards.items(),
                rewards.items().len(),
            ),
    {
        let n: usize = rewards.len();
        let ghost items = rewards.items();
        let mut i: usize = 0;
        while i < n
            invariant
                i <= n,
                n == items.len(),
                items == rewards.items(),
                self.height == old(self).height,
                self.total_supply == supply_after(old(self).total_supply, items, i as nat),
                held_outputs(self.utxo@) == rewards_paid(
                    held_outputs(old(self).utxo@),
                    epoch_index,
                    items,
                    i as nat,
                ),
            decreases n - i,
        {
            let miner_id = rewards.key_at(i);
            let amount: Amount = *rewards.value_at(i);
            let ghost before = self.utxo@;
            if amount != 0 {
                let mut data: Vec<u8> = vec![
                    0x65u8, 0x70u8, 0x6Fu8, 0x63u8, 0x68u8, 0x5Fu8, 0x72u8, 0x65u8, 0x77u8,
                    0x61u8, 0x72u8, 0x64u8,
                ];
                assert(data@ =~= epoch_reward_tag());
                push_le(&mut data, epoch_index as u64, 4);
                data.extend_from_slice(miner_id.as_slice());
                assert(data@ =~= epoch_reward_tag() + le_bytes(epoch_index as nat, 4)
                    + miner_id@);
                let txid: Txid = sha256(data.as_slice());
                let output = TxOut { value: amount, script_pubkey: vec_of(miner_id.as_slice()) };
                self.utxo.add_output(txid, 0, output);
                self.total_supply = self.total_supply.saturating_add(amount);
                proof {
                    assert(epoch_reward_txid_array(epoch_index, miner_id) =~= txid);
                    assert(held_outputs(self.utxo@) =~= held_outputs(before).insert(
                        (txid, 0u32),
                        output@,
                    ));
                }
            }
            i += 1;
        }
    }

    /// What the outputs are worth to a miner, or the largest number where that does not fit.
    pub fn get_balance(&self, miner_id: &MinerId) -> (r: Amount)
        ensures
            r == if balance(self.utxo@, miner_id@) <= u64::MAX {
                balance(self.utxo@, miner_id@) as u64
            } else {
                u64::MAX
            },
    {
        self.utxo.get_balance(miner_id.as_slice())
    }
}

/// What outputs are worth to the owner of a script.
pub open spec fn worth_of(outputs: Map<OutPoint, TxOutV>, script: Seq<u8>) -> nat {
    map_sum(
        outputs.map_values(
            |o: TxOutV|
                if o.script_pubkey == script {
                    o.value as nat
                } else {
                    0nat
                },
        ),
    )
}

/// The reward of a miner, zero where there is none.
pub open spec fn reward_for(rewards: Map<MinerId, Amount>, m: MinerId) -> nat {
    if rewards.contains_key(m) {
        rewards[m] as nat
    } else {
        0
    }
}

/// Whether the rewards of an epoch have identifiers of their own.
pub open spec fn rewards_apart(epoch_index: u32, rewards: Seq<(MinerId, Amount)>) -> bool {
    forall|i: int, j: int|
        #![trigger rewards[i], rewards[j]]
        0 <= i < j < rewards.len() ==> epoch_reward_txid_array(epoch_index, rewards[i].0)
            != epoch_reward_txid_array(epoch_index, rewards[j].0)
}

/// The outputs that pay rewards are those of the rewards that are not zero.
proof fn lemma_paid_outputs(epoch_index: u32, rewards: Seq<(MinerId, Amount)>, n: nat, p: OutPoint)
    requires
        n <= rewards.len(),
    ensures
        rewards_paid(Map::empty(), epoch_index, rewards, n).dom().finite(),
        rewards_paid(Map::empty(), epoch_index, rewards, n).contains_key(p) ==> exists|i: int|
            0 <= i < n && (#[trigger] rewards[i]).1 != 0 && p == (
                epoch_reward_txid_array(epoch_index, rewards[i].0),
                0u32,
            ),
    decreases n,
{
    if n > 0 {
        lemma_paid_outputs(epoch_index, rewards, (n - 1) as nat, p);
        let last = rewards[n - 1];
        let before = rewards_paid(
            Map::<OutPoint, TxOutV>::empty(),
            epoch_index,
            rewards,
            (n - 1) as nat,
        );
        if rewards_paid(Map::empty(), epoch_index, rewards, n).contains_key(p)
            && !before.contains_key(p) {
            assert(last.1 != 0 && p == (epoch_reward_txid_array(epoch_index, last.0), 0u32));
        }
    }
}

/// What the first rewards leave: each miner has its own, the supply is their sum, and so is the
/// sum over the miners.
proof fn lemma_rewards_settle(
    epoch_index: u32,
    rewards: Seq<(MinerId, Amount)>,
    n: nat,
    m: MinerId,
)
    requires
        n <= rewards.len(),
        sorted_by_key(rewards),
        rewards_apart(epoch_index, rewards),
    ensures
        worth_of(rewards_paid(Map::empty(), epoch_index, rewards, n), m@) == reward_for(
            map_of(rewards.take(n as int)),
            m,
        ),
        map_of(rewards.take(n as int)).dom().finite(),
        map_sum(as_nats(map_of(rewards.take(n as int)))) <= u64::MAX ==> supply_after(
            0,
            rewards,
            n,
        ) == map_sum(as_nats(map_of(rewards.take(n as int)))),
    decreases n,
{
    let all = rewards_paid(Map::<OutPoint, TxOutV>::empty(), epoch_index, rewards, n);
    let f = |o: TxOutV|
        if o.script_pubkey == m@ {
            o.value as nat
        } else {
            0nat
        };
    if n == 0 {
        assert(rewards.take(0) =~= Seq::empty());
        assert(all.map_values(f).dom() =~= Set::empty());
        assert(as_nats(map_of(rewards.take(0))).dom() =~= Set::empty());
    } else {
        let k = (n - 1) as nat;
        lemma_rewards_settle(epoch_index, rewards, k, m);
        let (id, amount) = rewards[k as int];
        let before = rewards_paid(Map::<OutPoint, TxOutV>::empty(), epoch_index, rewards, k);
        let known = map_of(rewards.take(k as int));
        let p = (epoch_reward_txid_array(epoch_index, id), 0u32);
        let head = rewards.take(k as int);
        assert(rewards.take(n as int).drop_last() =~= head);
        assert(map_of(rewards.take(n as int)) == known.insert(id, amount));
        assert(sorted_by_key(head)) by {
            assert forall|a: int, b: int|
                #![trigger head[a], head[b]]
                0 <= a < b < head.len() implies head[a].0.before(head[b].0) by {
                assert(rewards[a].0.before(rewards[b].0));
            }
        }
        lemma_map_of(head);
        if known.contains_key(id) {
            let i = choose|i: int| 0 <= i < head.len() && (#[trigger] head[i]).0 == id;
            assert(rewards[i].0 == rewards[k as int].0);
            lemma_sorted_distinct(rewards, i, k as int);
        }
        lemma_paid_outputs(epoch_index, rewards, k, p);
        if before.contains_key(p) {
            let i = choose|i: int|
                0 <= i < k && (#[trigger] rewards[i]).1 != 0 && p == (
                    epoch_reward_txid_array(epoch_index, rewards[i].0),
                    0u32,
                );
            assert(rewards[k as int].0 == id);
        }
        if id@ == m@ {
            assert(id =~= m);
        }
        if amount != 0 {
            let o = TxOutV { value: amount, script_pubkey: id@ };
            assert(before.map_values(f).dom() =~= before.dom());
            lemma_map_sum_insert(before.map_values(f), p, f(o));
            assert(all.map_values(f) =~= before.map_values(f).insert(p, f(o)));
        }
        assert(as_nats(known).dom() =~= known.dom());
        lemma_map_sum_insert(as_nats(known), id, amount as nat);
        assert(as_nats(known.insert(id, amount)) =~= as_nats(known).insert(id, amount as nat));
    }
}

/// After the rewards of an epoch on a new state the balance of every miner is its reward, and the
/// supply is the sum of the rewards; a reward of zero adds no output. The rewards have to fit the
/// supply, and no two may have one identifier.
pub proof fn law_balances_are_rewards(
    utxos: Map<OutPoint, TxOut>,
    epoch_index: u32,
    rewards: Seq<(MinerId, Amount)>,
    m: MinerId,
)
    requires
        sorted_by_key(rewards),
        rewards_apart(epoch_index, rewards),
        map_sum(as_nats(map_of(rewards))) <= u64::MAX,
        held_outputs(utxos) == rewards_paid(
            held_outputs(Map::<OutPoint, TxOut>::empty()),
            epoch_index,
            rewards,
            rewards.len(),
        ),
    ensures
        balance(utxos, m@) == reward_for(map_of(rewards), m),
        supply_after(0, rewards, rewards.len()) == map_sum(as_nats(map_of(rewards))),
        forall|p: OutPoint| #[trigger]
            utxos.contains_key(p) ==> exists|i: int|
                0 <= i < rewards.len() && (#[trigger] rewards[i]).1 != 0 && p == (
                    epoch_reward_txid_array(epoch_index, rewards[i].0),
                    0u32,
                ),
{
    let n = rewards.len();
    let paid = rewards_paid(Map::<OutPoint, TxOutV>::empty(), epoch_index, rewards, n);
    assert(held_outputs(Map::<OutPoint, TxOut>::empty()) =~= Map::<OutPoint, TxOutV>::empty());
    assert(rewards.take(n as int) =~= rewards);
    lemma_rewards_settle(epoch_index, rewards, n, m);
    let f = |o: TxOutV|
        if o.script_pubkey == m@ {
            o.value as nat
        } else {
            0nat
        };
    assert(held_outputs(utxos) == paid);
    assert(utxos.map_values(|o: TxOut| worth(o, m@)) =~= paid.map_values(f)) by {
        assert(utxos.dom() =~= held_outputs(utxos).dom());
    }
    assert forall|p: OutPoint| #[trigger] utxos.contains_key(p) implies exists|i: int|
        0 <= i < rewards.len() && (#[trigger] rewards[i]).1 != 0 && p == (
            epoch_reward_txid_array(epoch_index, rewards[i].0),
            0u32,
        ) by {
        assert(held_outputs(utxos).contains_key(p));
        lemma_paid_outputs(epoch_index, rewards, n, p);
    }
}

/// The rewards of an epoch raise the supply by their sum, each counted once, up to the largest
/// number.
pub proof fn law_supply_grows_by_the_rewards(
    supply: Amount,
    rewards: Seq<(MinerId, Amount)>,
    n: nat,
)
    requires
        n <= rewards.len(),
    ensures
        ({
            let sum = supply + sum_of(
                rewards.take(n as int).map_values(|e: (MinerId, Amount)| e.1 as nat),
            );
            supply_after(supply, rewards, n) == if sum <= u64::MAX {
                sum
            } else {
                u64::MAX as int
            }
        }),
    decreases n,
{
    let f = |e: (MinerId, Amount)| e.1 as nat;
    lemma_sum_push(Seq::<nat>::empty(), 0);
    if n == 0 {
        assert(rewards.take(0).map_values(f) =~= Seq::<nat>::empty());
    } else {
        law_supply_grows_by_the_rewards(supply, rewards, (n - 1) as nat);
        let before = rewards.take(n - 1).map_values(f);
        lemma_sum_push(before, f(rewards[n - 1]));
        assert(rewards.take(n as int).map_values(f) =~= before.push(f(rewards[n - 1])));
    }
}

} // verus!
