//! The first block.
use crate::block::{
    coinbase_input, input_views, output_views, p2pkh_script, BlockHeader, Transaction,
    TransactionV, TxIn, TxOut, TxOutV,
};
use crate::constants::GENESIS_TIMESTAMP;
use crate::types::{Hash32, Target};
use vstd::prelude::*;

verus! {

/// The script that the first output pays to.
pub open spec fn genesis_script() -> Seq<u8> {
    seq![
        0x76u8, 0xa9u8, 0x14u8, 0x62u8, 0xe9u8, 0x07u8, 0xb1u8, 0x5cu8, 0xbfu8, 0x27u8, 0xd5u8,
        0x42u8, 0x53u8, 0x99u8, 0xebu8, 0xf6u8, 0xf0u8, 0xfbu8, 0x50u8, 0xebu8, 0xb8u8, 0x8fu8,
        0x18u8, 0x88u8, 0xacu8,
    ]
}

/// The value of the first output.
pub const GENESIS_OUTPUT_LYT: u64 = 500_000_000;

/// What the header of the first block holds before its transactions are rooted in it.
pub open spec fn genesis_header(h: BlockHeader) -> bool {
    &&& h.version == 1
    &&& h.prev_hash@ == Seq::new(32, |i: int| 0u8)
    &&& h.merkle_root@ == Seq::new(32, |i: int| 0u8)
    &&& h.timestamp == GENESIS_TIMESTAMP
    &&& h.difficulty.0@ == Seq::new(32, |i: int| 0xFFu8)
    &&& h.nonce == 0
    &&& h.epoch_index == 1
}

/// What the transaction of the first block holds.
pub open spec fn genesis_transaction(t: TransactionV) -> bool {
    &&& t.version == 1
    &&& t.inputs.len() == 1
    &&& coinbase_input(t.inputs[0])
    &&& t.inputs[0].script_sig == Seq::<u8>::empty()
    &&& t.inputs[0].sequence == 0xFFFF_FFFF
    &&& t.outputs == seq![
        TxOutV { value: GENESIS_OUTPUT_LYT, script_pubkey: genesis_script() },
    ]
    &&& t.locktime == 0
}

/// The script that the first output pays to.
pub fn genesis_output_script() -> (r: Vec<u8>)
    ensures
        r@ == genesis_script(),
        p2pkh_script(r@),
{
    let r: Vec<u8> = vec![
        0x76u8, 0xa9u8, 0x14u8, 0x62u8, 0xe9u8, 0x07u8, 0xb1u8, 0x5cu8, 0xbfu8, 0x27u8, 0xd5u8,
        0x42u8, 0x53u8, 0x99u8, 0xebu8, 0xf6u8, 0xf0u8, 0xfbu8, 0x50u8, 0xebu8, 0xb8u8, 0x8fu8,
        0x18u8, 0x88u8, 0xacu8,
    ];
    assert(r@ =~= genesis_script());
    r
}

/// The header and the transaction of the first block.
pub fn create_genesis_block() -> (r: (BlockHeader, Transaction))
    ensures
        genesis_header(r.0),
        genesis_transaction(r.1@),
{
    let zero: Hash32 = [0u8; 32];
    let ones: Hash32 = [0xFFu8; 32];
    assert(zero@ =~= Seq::new(32, |i: int| 0u8));
    assert(ones@ =~= Seq::new(32, |i: int| 0xFFu8));
    let header = BlockHeader {
        version: 1,
        prev_hash: zero,
        merkle_root: zero,
        timestamp: GENESIS_TIMESTAMP,
        difficulty: Target(ones),
        nonce: 0,
        epoch_index: 1,
    };
    let input = TxIn::coinbase();
    let output = TxOut { value: GENESIS_OUTPUT_LYT, script_pubkey: genesis_output_script() };
    let inputs: Vec<TxIn> = vec![input];
    let outputs: Vec<TxOut> = vec![output];
    assert(input_views(inputs@) =~= seq![input@]);
    assert(output_views(outputs@) =~= seq![output@]);
    (header, Transaction { version: 1, inputs, outputs, locktime: 0 })
}

} // verus!
