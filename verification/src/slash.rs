//! Burning the bonds of miners who break the rules.
use crate::block::{header_bytes, input_views, output_views, BlockHeader, TxInV, TxOutV};
use crate::bytes::{arrays_equal, be_value};
use crate::collections::OrdMap;
use crate::consensus::BondLookup;
use crate::crypto::{pow_hash_of, Argon2Cache};
use crate::error::Error;
use crate::miner::{all_of, capped_u32, share_hash_of, Share};
use crate::transaction::{Transaction, TxIn, TxOut};
use crate::types::{Amount, Hash32, Height, MinerId};
use vstd::prelude::*;

verus! {

/// Marks the burning of a bond for two blocks at one height.
pub const OP_SLASH_EQUIVOCATION: u8 = 0xFC;

/// Marks the burning of a bond for a flood of invalid shares.
pub const OP_SLASH_INVALID_SHARES: u8 = 0xFD;

/// The proof-of-work hash of a header.
pub open spec fn work_hash(h: BlockHeader) -> Seq<u8> {
    pow_hash_of(header_bytes(h))
}

/// Whether an error is one of other kind with these words.
pub open spec fn other_error(e: Error, words: Seq<char>) -> bool {
    e matches Error::Other(w) && w@ == words
}

/// What an input holds that refers to a digest in a burning transaction.
pub open spec fn slash_input(i: TxInV, digest: Seq<u8>) -> bool {
    &&& i.prev_txid@ == digest
    &&& i.prev_index == 0xFFFF_FFFF
    &&& i.script_sig == seq![OP_SLASH_EQUIVOCATION]
    &&& i.sequence == 0xFFFF_FFFF
}

/// The output of a burning transaction.
pub open spec fn slash_output(op_code: u8, miner_id: MinerId) -> TxOutV {
    TxOutV { value: 0, script_pubkey: seq![op_code] + miner_id@ }
}

impl TxIn {
    /// The input that refers to a digest in a burning transaction.
    pub fn new_slash(prev_txid: Hash32) -> (r: Self)
        ensures
            slash_input(r@, prev_txid@),
            r.prev_txid == prev_txid,
    {
        let script_sig: Vec<u8> = vec![OP_SLASH_EQUIVOCATION];
        assert(script_sig@ =~= seq![OP_SLASH_EQUIVOCATION]);
        TxIn { prev_txid, prev_index: 0xFFFF_FFFF, script_sig, sequence: 0xFFFF_FFFF }
    }
}

impl TxOut {
    /// The output of a burning transaction: it is worth nothing and names the miner.
    pub fn new_slash(op_code: u8, miner_id: MinerId) -> (r: Self)
        ensures
            r@ == slash_output(op_code, miner_id),
    {
        let mut script: Vec<u8> = vec![op_code];
        script.extend_from_slice(miner_id.as_slice());
        assert(script@ =~= seq![op_code] + miner_id@);
        TxOut { value: 0, script_pubkey: script }
    }
}

/// The proof that a miner made two blocks at one height.
#[derive(Debug, Clone, Copy, PartialEq, Eq)]
pub struct SlashEquivocationProof {
    /// The first block.
    pub block1_header: BlockHeader,
    /// The second block.
    pub block2_header: BlockHeader,
    /// The height of both.
    pub height: Height,
    /// The miner.
    pub miner_id: MinerId,
}

/// Whether two headers prove that two blocks were made: both meet their targets, and their hashes
/// differ.
pub open spec fn two_blocks(a: BlockHeader, b: BlockHeader) -> bool {
    &&& be_value(work_hash(a)) <= be_value(a.difficulty.0@)
    &&& be_value(work_hash(b)) <= be_value(b.difficulty.0@)
    &&& work_hash(a) != work_hash(b)
}

/// The proof-of-work hashes of two headers; equal headers are hashed once.
fn work_of_both(a: &BlockHeader, b: &BlockHeader) -> (r: (Hash32, Hash32))
    ensures
        r.0@ == work_hash(*a),
        r.1@ == work_hash(*b),
{
    let mut cache = Argon2Cache::new(2);
    let first = a.hash(&mut cache);
    let second = b.hash(&mut cache);
    (first, second)
}

impl SlashEquivocationProof {
    /// The proof from two headers of one epoch with different hashes; the height is set later.
    pub fn new(block1: BlockHeader, block2: BlockHeader, miner_id: MinerId) -> (r: Result<
        Self,
        Error,
    >)
        ensures
            match r {
                Ok(p) => work_hash(block1) != work_hash(block2) && block1.epoch_index
                    == block2.epoch_index && p == (SlashEquivocationProof {
                    block1_header: block1,
                    block2_header: block2,
                    height: 0,
                    miner_id,
                }),
                Err(e) => if work_hash(block1) == work_hash(block2) {
                    other_error(e, "Блоки идентичны - это не эквивокация"@)
                } else {
                    block1.epoch_index != block2.epoch_index && other_error(
                        e,
                        "Блоки из разных эпох"@,
                    )
                },
            },
    {
        let (hash1, hash2) = work_of_both(&block1, &block2);
        proof {
            if hash1@ == hash2@ {
                assert(hash1 =~= hash2);
            }
        }
        if arrays_equal(&hash1, &hash2) {
            return Err(Error::Other("Блоки идентичны - это не эквивокация".to_string()));
        }
        if block1.epoch_index != block2.epoch_index {
            return Err(Error::Other("Блоки из разных эпох".to_string()));
        }
        Ok(
            SlashEquivocationProof {
                block1_header: block1,
                block2_header: block2,
                height: 0,
                miner_id,
            },
        )
    }

    /// Whether the proof holds.
    pub fn verify(&self) -> (r: bool)
        ensures
            r == two_blocks(self.block1_header, self.block2_header),
    {
        let (hash1, hash2) = work_of_both(&self.block1_header, &self.block2_header);
        if !self.block1_header.difficulty.is_met_by(&hash1)
            || !self.block2_header.difficulty.is_met_by(&hash2) {
            return false;
        }
        proof {
            if hash1@ == hash2@ {
                assert(hash1 =~= hash2);
            }
        }
        !arrays_equal(&hash1, &hash2)
    }

    /// The burning transaction: it refers to both blocks and names the miner.
    pub fn to_transaction(&self) -> (r: Transaction)
        ensures
            r@.version == 1,
            r@.inputs.len() == 2,
            slash_input(r@.inputs[0], work_hash(self.block1_header)),
            slash_input(r@.inputs[1], work_hash(self.block2_header)),
            r@.outputs == seq![slash_output(OP_SLASH_EQUIVOCATION, self.miner_id)],
            r@.locktime == 0,
    {
        let (hash1, hash2) = work_of_both(&self.block1_header, &self.block2_header);
        let first = TxIn::new_slash(hash1);
        let second = TxIn::new_slash(hash2);
        let output = TxOut::new_slash(OP_SLASH_EQUIVOCATION, self.miner_id);
        let inputs: Vec<TxIn> = vec![first, second];
        let outputs: Vec<TxOut> = vec![output];
        assert(input_views(inputs@) =~= seq![first@, second@]);
        assert(output_views(outputs@) =~= seq![output@]);
        Transaction { version: 1, inputs, outputs, locktime: 0 }
    }
}

/// The proof that a miner sent a flood of invalid shares.
#[derive(Debug)]
pub struct SlashInvalidSharesProof {
    /// The miner.
    pub miner_id: MinerId,
    /// The invalid shares, at least ten.
    pub invalid_shares: Vec<Share>,
    /// The epoch.
    pub epoch: u32,
    /// Where the shares stand in the tree of the epoch.
    pub merkle_proofs: Vec<Hash32>,
}

impl SlashInvalidSharesProof {
    /// The proof from at least ten shares of the miner.
    pub fn new(miner_id: MinerId, invalid_shares: Vec<Share>, epoch: u32) -> (r: Result<
        Self,
        Error,
    >)
        ensures
            match r {
                Ok(p) => invalid_shares@.len() >= 10 && all_of(invalid_shares@, miner_id)
                    && p.miner_id == miner_id && p.invalid_shares@ == invalid_shares@ && p.epoch
                    == epoch && p.merkle_proofs@ == Seq::<Hash32>::empty(),
                Err(e) => if invalid_shares@.len() < 10 {
                    other_error(
                        e,
                        "Нужно минимум 10 невалидных шейров для доказательства"@,
                    )
                } else {
                    !all_of(invalid_shares@, miner_id) && other_error(
                        e,
                        "Шейр от другого майнера"@,
                    )
                },
            },
    {
        if invalid_shares.len() < 10 {
            return Err(
                Error::Other(
                    "Нужно минимум 10 невалидных шейров для доказательства".to_string(),
                ),
            );
        }
        let mut i: usize = 0;
        while i < invalid_shares.len()
            invariant
                i <= invalid_shares@.len(),
                invalid_shares@.len() >= 10,
                forall|j: int|
                    0 <= j < i ==> (#[trigger] invalid_shares@[j]).miner_id == miner_id,
            decreases invalid_shares@.len() - i,
        {
            if !arrays_equal(&invalid_shares[i].miner_id, &miner_id) {
                return Err(Error::Other("Шейр от другого майнера".to_string()));
            }
            i += 1;
        }
        Ok(
            SlashInvalidSharesProof {
                miner_id,
                invalid_shares,
                epoch,
                merkle_proofs: Vec::new(),
            },
        )
    }

    /// Whether the proof holds, given which of its shares are valid: none may be.
    pub fn verify(&self, valid: &Vec<bool>) -> (r: bool)
        requires
            valid@.len() == self.invalid_shares@.len(),
        ensures
            r == (forall|i: int| 0 <= i < valid@.len() ==> !#[trigger] valid@[i]),
    {
        let mut i: usize = 0;
        while i < valid.len()
            invariant
                i <= valid@.len(),
                forall|j: int| 0 <= j < i ==> !#[trigger] valid@[j],
            decreases valid@.len() - i,
        {
            if valid[i] {
                return false;
            }
            i += 1;
        }
        true
    }

    /// The burning transaction: it refers to every share and names the miner.
    pub fn to_transaction(&self) -> (r: Transaction)
        ensures
            r@.version == 1,
            r@.inputs.len() == self.invalid_shares@.len(),
            forall|i: int|
                0 <= i < r@.inputs.len() ==> slash_input(
                    #[trigger] r@.inputs[i],
                    share_hash_of(self.invalid_shares@[i]),
                ),
            r@.outputs == seq![slash_output(OP_SLASH_INVALID_SHARES, self.miner_id)],
            r@.locktime == 0,
    {
        let mut inputs: Vec<TxIn> = Vec::new();
        let mut i: usize = 0;
        while i < self.invalid_shares.len()
            invariant
                i <= self.invalid_shares@.len(),
                inputs@.len() == i,
                forall|j: int|
                    0 <= j < i ==> slash_input(
                        (#[trigger] inputs@[j])@,
                        share_hash_of(self.invalid_shares@[j]),
                    ),
            decreases self.invalid_shares@.len() - i,
        {
            inputs.push(TxIn::new_slash(self.invalid_shares[i].share_hash()));
            i += 1;
        }
        let output = TxOut::new_slash(OP_SLASH_INVALID_SHARES, self.miner_id);
        let outputs: Vec<TxOut> = vec![output];
        assert(output_views(outputs@) =~= seq![output@]);
        let r = Transaction { version: 1, inputs, outputs, locktime: 0 };
        assert forall|i: int| 0 <= i < r@.inputs.len() implies slash_input(
            #[trigger] r@.inputs[i],
            share_hash_of(self.invalid_shares@[i]),
        ) by {
            assert(r@.inputs[i] == inputs@[i]@);
        }
        r
    }
}

/// A burning transaction is no payment: its output is worth nothing.
pub proof fn law_burning_pays_nobody(op_code: u8, miner_id: MinerId)
    ensures
        slash_output(op_code, miner_id).value == 0,
        !crate::block::p2pkh_script(slash_output(op_code, miner_id).script_pubkey),
{
}

/// Counts how often bonds were burnt.
pub struct SlashValidator {
    /// How often a miner made two blocks at one height.
    pub equivocations: OrdMap<MinerId, u32>,
    /// How often a miner sent a flood of invalid shares.
    pub share_floods: OrdMap<MinerId, u32>,
}

/// How often something was counted.
pub open spec fn times(m: Map<MinerId, u32>, id: MinerId) -> u32 {
    if m.contains_key(id) {
        m[id]
    } else {
        0
    }
}

/// What a store answers when it is told to burn a bond.
pub type BurnAnswer = Result<(), String>;

/// The bond to burn, or why none can be: what the store answers when it is asked for it.
pub open spec fn bond_answer(bond: BondLookup, r: Result<Option<Amount>, Error>) -> bool {
    match bond {
        Err(words) => r is Err && (r->Err_0 matches Error::Database(w) && w@ == words@),
        Ok(None) => r is Err && other_error(r->Err_0, "Бонд не найден"@),
        Ok(Some(b)) => r == Ok::<Option<Amount>, Error>(Some(b.amount)),
    }
}

/// What comes of a proof that holds: the bond is burnt, or the store refuses it.
pub open spec fn burn_outcome(
    bond: BondLookup,
    burnt: BurnAnswer,
    r: Result<bool, Error>,
) -> bool {
    match bond {
        Err(words) => r is Err && (r->Err_0 matches Error::Database(w) && w@ == words@),
        Ok(None) => r is Err && other_error(r->Err_0, "Бонд не найден"@),
        Ok(Some(_)) => match burnt {
            Err(words) => r is Err && (r->Err_0 matches Error::Database(w) && w@ == words@),
            Ok(()) => r == Ok::<bool, Error>(true),
        },
    }
}

fn bond_to_burn(bond: &BondLookup) -> (r: Result<Option<Amount>, Error>)
    ensures
        bond_answer(*bond, r),
{
    match bond {
        Err(words) => Err(Error::Database(words.clone())),
        Ok(None) => Err(Error::Other("Бонд не найден".to_string())),
        Ok(Some(b)) => Ok(Some(b.amount)),
    }
}

fn burn(bond: &BondLookup, burnt: &BurnAnswer) -> (r: Result<bool, Error>)
    ensures
        burn_outcome(*bond, *burnt, r),
{
    match bond_to_burn(bond) {
        Err(e) => Err(e),
        Ok(_) => match burnt {
            Err(words) => Err(Error::Database(words.clone())),
            Ok(()) => Ok(true),
        },
    }
}

fn count_once_more(m: &mut OrdMap<MinerId, u32>, id: MinerId)
    ensures
        final(m)@ == old(m)@.insert(id, capped_u32(times(old(m)@, id) + 1)),
{
    let n: u32 = match m.get(&id) {
        Some(n) => *n,
        None => 0,
    };
    m.insert(id, n.saturating_add(1));
}

impl SlashValidator {
    /// Nothing was counted.
    pub fn new() -> (r: Self)
        ensures
            r.equivocations@ == Map::<MinerId, u32>::empty(),
            r.share_floods@ == Map::<MinerId, u32>::empty(),
    {
        SlashValidator { equivocations: OrdMap::new(), share_floods: OrdMap::new() }
    }

    /// Counts two blocks at one height for which the bond was burnt. `bond` is what the store
    /// answers when it is asked for the bond, and `burnt` when it is told to burn it; a proof that
    /// does not hold burns nothing.
    pub fn process_equivocation(
        &mut self,
        proof: &SlashEquivocationProof,
        bond: &BondLookup,
        burnt: &BurnAnswer,
    ) -> (r: Result<bool, Error>)
        ensures
            final(self).share_floods == old(self).share_floods,
            if two_blocks(proof.block1_header, proof.block2_header) {
                burn_outcome(*bond, *burnt, r)
            } else {
                r == Ok::<bool, Error>(false)
            },
            final(self).equivocations@ == if r == Ok::<bool, Error>(true) {
                old(self).equivocations@.insert(
                    proof.miner_id,
                    capped_u32(times(old(self).equivocations@, proof.miner_id) + 1),
                )
            } else {
                old(self).equivocations@
            },
    {
        if !proof.verify() {
            return Ok(false);
        }
        let r = burn(bond, burnt);
        if r.is_ok() {
            count_once_more(&mut self.equivocations, proof.miner_id);
        }
        r
    }

    /// Counts a flood of invalid shares for which the bond was burnt. `valid` says which of the
    /// shares are valid, `bond` is what the store answers when it is asked for the bond, and
    /// `burnt` when it is told to burn it; a proof that does not hold burns nothing.
    pub fn process_invalid_shares(
        &mut self,
        proof: &SlashInvalidSharesProof,
        valid: &Vec<bool>,
        bond: &BondLookup,
        burnt: &BurnAnswer,
    ) -> (r: Result<bool, Error>)
        requires
            valid@.len() == proof.invalid_shares@.len(),
        ensures
            final(self).equivocations == old(self).equivocations,
            if forall|i: int| 0 <= i < valid@.len() ==> !#[trigger] valid@[i] {
                burn_outcome(*bond, *burnt, r)
            } else {
                r == Ok::<bool, Error>(false)
            },
            final(self).share_floods@ == if r == Ok::<bool, Error>(true) {
                old(self).share_floods@.insert(
                    proof.miner_id,
                    capped_u32(times(old(self).share_floods@, proof.miner_id) + 1),
                )
            } else {
                old(self).share_floods@
            },
    {
        if !proof.verify(valid) {
            return Ok(false);
        }
        let r = burn(bond, burnt);
        if r.is_ok() {
            count_once_more(&mut self.share_floods, proof.miner_id);
        }
        r
    }
}

impl SlashEquivocationProof {
    /// The bond to burn for the two blocks, given what the store answers when it is asked for it;
    /// none where the proof does not hold.
    pub fn penalty(&self, bond: &BondLookup) -> (r: Result<Option<Amount>, Error>)
        ensures
            if two_blocks(self.block1_header, self.block2_header) {
                bond_answer(*bond, r)
            } else {
                r == Ok::<Option<Amount>, Error>(None)
            },
    {
        if !self.verify() {
            return Ok(None);
        }
        bond_to_burn(bond)
    }
}

impl SlashInvalidSharesProof {
    /// The bond to burn for the flood, given which of its shares are valid and what the store
    /// answers when it is asked for the bond; none where the proof does not hold.
    pub fn penalty(&self, valid: &Vec<bool>, bond: &BondLookup) -> (r: Result<
        Option<Amount>,
        Error,
    >)
        requires
            valid@.len() == self.invalid_shares@.len(),
        ensures
            if forall|i: int| 0 <= i < valid@.len() ==> !#[trigger] valid@[i] {
                bond_answer(*bond, r)
            } else {
                r == Ok::<Option<Amount>, Error>(None)
            },
    {
        if !self.verify(valid) {
            return Ok(None);
        }
        bond_to_burn(bond)
    }
}

/// Two headers prove two blocks exactly when both are work that meets its target and the work
/// differs; their order does not matter, and one header proves nothing.
pub proof fn law_two_blocks_are_two(a: BlockHeader, b: BlockHeader)
    ensures
        two_blocks(a, b) <==> be_value(pow_hash_of(header_bytes(a))) <= be_value(a.difficulty.0@)
            && be_value(pow_hash_of(header_bytes(b))) <= be_value(b.difficulty.0@) && pow_hash_of(
            header_bytes(a),
        ) != pow_hash_of(header_bytes(b)),
        two_blocks(a, b) == two_blocks(b, a),
        !two_blocks(a, a),
{
}

/// A bond is burnt exactly when the store has it and burns it, and a proof that holds is never
/// passed over in silence.
pub proof fn law_when_a_bond_is_burnt(bond: BondLookup, burnt: BurnAnswer, r: Result<bool, Error>)
    requires
        burn_outcome(bond, burnt, r),
    ensures
        r == Ok::<bool, Error>(true) <==> (bond matches Ok(Some(_))) && burnt is Ok,
        r != Ok::<bool, Error>(false),
{
}

/// What is to be burnt is the whole bond.
pub proof fn law_the_whole_bond_is_at_stake(bond: BondLookup, r: Result<Option<Amount>, Error>)
    requires
        bond_answer(bond, r),
    ensures
        r is Ok <==> (bond matches Ok(Some(_))),
        r matches Ok(a) ==> (bond matches Ok(Some(b)) && a == Some(b.amount)),
{
}

} // verus!
