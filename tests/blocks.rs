use bip300::codec::{encode, CoinbaseMessage, M4AckBundles};
use bip300::state::{BlockError, Unsupported, Violation};
use bip300::tables::Tables;
use bip300::types::{Block, Bundle, Ctip, Hash256, OutPoint, Sidechain, Transaction, TxOut};
use bip300::validator::Bip300;

fn sha256d(data: &[u8]) -> Hash256 {
    let digest = <bitcoin::hashes::sha256d::Hash as bitcoin::hashes::Hash>::hash(data);
    <bitcoin::hashes::sha256d::Hash as bitcoin::hashes::Hash>::to_byte_array(digest)
}

fn block_hash(height: u32) -> Hash256 {
    let mut h = [0u8; 32];
    h[..4].copy_from_slice(&height.to_be_bytes());
    h[31] = 0x77;
    h
}

fn coinbase_block(height: u32, messages: &[CoinbaseMessage]) -> Block {
    let output = messages
        .iter()
        .map(|m| TxOut { value: 0, script_pubkey: encode(m) })
        .collect();
    Block {
        block_hash: block_hash(height),
        txdata: vec![Transaction { txid: [0xcb; 32], input: vec![], output }],
    }
}

fn m1(sn: u8, data: &[u8]) -> CoinbaseMessage {
    CoinbaseMessage::M1ProposeSidechain { sidechain_number: sn, data: data.to_vec() }
}

fn m2(sn: u8, data: &[u8]) -> CoinbaseMessage {
    CoinbaseMessage::M2AckSidechain { sidechain_number: sn, data_hash: sha256d(data) }
}

fn drivechain_script(sn: u8) -> Vec<u8> {
    vec![0xb4, 0x01, sn, 0x51]
}

/// Slot 7 activated, with an empty bundle list and CTIP (t0, 0, 100 sat).
fn slot_seven_with_ctip() -> Bip300 {
    let mut t = Tables::new();
    t.restore_sidechain(Sidechain {
        sidechain_number: 7,
        data: vec![1, 2, 3],
        vote_count: 1816,
        proposal_height: 1,
        activation_height: 1817,
    });
    t.restore_bundles(7, vec![]);
    t.restore_ctip(7, Ctip { outpoint: OutPoint { txid: [0x10; 32], vout: 0 }, value: 100 });
    Bip300::from_tables(t)
}

fn ctip_block(height: u32, input: Vec<OutPoint>, value: u64) -> Block {
    let mut b = coinbase_block(height, &[]);
    b.txdata.push(Transaction {
        txid: [0x42; 32],
        input,
        output: vec![
            TxOut { value: 5, script_pubkey: vec![0x76, 0xa9] },
            TxOut { value, script_pubkey: drivechain_script(7) },
        ],
    });
    b
}

#[test]
fn propose_then_ack_to_activation_empty_slot() {
    let mut v = Bip300::new();
    v.connect_block(&coinbase_block(100, &[m1(5, &[0xaa])]), 100).unwrap();
    for h in 101..=(100 + 1816) {
        v.connect_block(&coinbase_block(h, &[m2(5, &[0xaa])]), h).unwrap();
        if h < 100 + 1816 {
            assert!(v.tables().sidechain(5).is_none());
        }
    }
    let s = v.tables().sidechain(5).unwrap();
    assert_eq!(s.vote_count, 1816);
    assert_eq!(s.activation_height, 100 + 1816);
    assert_eq!(s.proposal_height, 100);
    assert_eq!(s.data, vec![0xaa]);
    assert_eq!(v.tables().proposal_count(), 0);
    assert!(v.tables().proposal(&sha256d(&[0xaa])).is_none());
    assert_eq!(v.tables().bundles(5), Some(vec![]));
}

#[test]
fn propose_then_age_out_empty_slot() {
    let mut v = Bip300::new();
    v.connect_block(&coinbase_block(100, &[m1(5, &[0xbb])]), 100).unwrap();
    assert_eq!(v.tables().proposal_count(), 1);
    v.connect_block(&coinbase_block(100 + 2017, &[m2(5, &[0xbb])]), 100 + 2017).unwrap();
    assert_eq!(v.tables().proposal_count(), 0);
    assert!(v.tables().sidechain(5).is_none());
}

#[test]
fn duplicate_m1_is_ignored() {
    let mut v = Bip300::new();
    v.connect_block(&coinbase_block(1, &[m1(5, &[0xcc]), m1(5, &[0xcc])]), 1).unwrap();
    assert_eq!(v.tables().proposal_count(), 1);
    let p = v.tables().proposal(&sha256d(&[0xcc])).unwrap();
    assert_eq!(p.vote_count, 0);
    assert_eq!(p.sidechain_number, 5);
    assert_eq!(p.proposal_height, 1);
}

#[test]
fn deposit_moves_ctip() {
    let mut v = slot_seven_with_ctip();
    let b = ctip_block(50, vec![OutPoint { txid: [0x10; 32], vout: 0 }], 150);
    v.connect_block(&b, 50).unwrap();
    assert_eq!(
        v.tables().ctip(7),
        Some(Ctip { outpoint: OutPoint { txid: [0x42; 32], vout: 1 }, value: 150 })
    );
}

#[test]
fn equal_value_counts_as_deposit() {
    let mut v = slot_seven_with_ctip();
    let b = ctip_block(50, vec![OutPoint { txid: [0x10; 32], vout: 0 }], 100);
    v.connect_block(&b, 50).unwrap();
    assert_eq!(v.tables().ctip(7).unwrap().outpoint.txid, [0x42; 32]);
}

#[test]
fn missing_prior_ctip_spend_fails_and_changes_nothing() {
    let mut v = slot_seven_with_ctip();
    let mut b = ctip_block(50, vec![OutPoint { txid: [0x10; 32], vout: 1 }], 150);
    b.txdata[0].output.push(TxOut { value: 0, script_pubkey: encode(&m1(3, &[9])) });
    assert_eq!(
        v.connect_block(&b, 50),
        Err(BlockError::InvariantViolation(Violation::CtipNotSpent { sidechain_number: 7 }))
    );
    assert_eq!(
        v.tables().ctip(7),
        Some(Ctip { outpoint: OutPoint { txid: [0x10; 32], vout: 0 }, value: 100 })
    );
    assert_eq!(v.tables().proposal_count(), 0);
    assert_eq!(v.disconnect_block(&b), Err(BlockError::NotTip));
}

#[test]
fn drivechain_output_without_ctip_fails() {
    let mut v = Bip300::new();
    let b = ctip_block(50, vec![], 150);
    assert_eq!(
        v.connect_block(&b, 50),
        Err(BlockError::InvariantViolation(Violation::MissingCtip { sidechain_number: 7 }))
    );
}

#[test]
fn withdrawal_is_not_supported_yet() {
    let mut v = slot_seven_with_ctip();
    let b = ctip_block(50, vec![OutPoint { txid: [0x10; 32], vout: 0 }], 99);
    assert_eq!(v.connect_block(&b, 50), Err(BlockError::Unimplemented(Unsupported::Withdrawal)));
}

#[test]
fn two_drivechain_outputs_fail() {
    let mut v = slot_seven_with_ctip();
    let mut b = ctip_block(50, vec![OutPoint { txid: [0x10; 32], vout: 0 }], 150);
    b.txdata[1].output.push(TxOut { value: 1, script_pubkey: drivechain_script(7) });
    assert_eq!(
        v.connect_block(&b, 50),
        Err(BlockError::InvariantViolation(Violation::MultipleDrivechainOutputs))
    );
}

#[test]
fn malformed_drivechain_output_fails() {
    let mut v = slot_seven_with_ctip();
    let mut b = ctip_block(50, vec![OutPoint { txid: [0x10; 32], vout: 0 }], 150);
    b.txdata[1].output[1].script_pubkey = vec![0xb4, 0x02, 7, 0x51];
    assert_eq!(v.connect_block(&b, 50), Err(BlockError::InvalidDrivechainOutput));
    assert_eq!(
        v.is_transaction_valid(&b.txdata[1]),
        Err(BlockError::InvalidDrivechainOutput)
    );
}

#[test]
fn duplicate_m2_in_one_block_fails() {
    let mut v = Bip300::new();
    v.connect_block(&coinbase_block(1, &[m1(5, &[0xdd])]), 1).unwrap();
    let b = coinbase_block(2, &[m2(5, &[0xdd]), m2(5, &[0xdd])]);
    assert_eq!(
        v.is_block_valid(&b, 2),
        Err(BlockError::InvariantViolation(Violation::DuplicateAckSidechain))
    );
    assert_eq!(
        v.connect_block(&b, 2),
        Err(BlockError::InvariantViolation(Violation::DuplicateAckSidechain))
    );
    assert_eq!(v.tables().proposal(&sha256d(&[0xdd])).unwrap().vote_count, 0);
}

#[test]
fn two_m4_in_one_block_fail() {
    let mut v = Bip300::new();
    let m4 = CoinbaseMessage::M4AckBundles(M4AckBundles::OneByte { upvotes: vec![0xff] });
    let b = coinbase_block(2, &[m4.clone(), m4]);
    assert_eq!(
        v.connect_block(&b, 2),
        Err(BlockError::InvariantViolation(Violation::MultipleAckBundles))
    );
}

#[test]
fn repeat_previous_and_leading_by_50_are_not_supported_yet() {
    let mut v = Bip300::new();
    let b = coinbase_block(2, &[CoinbaseMessage::M4AckBundles(M4AckBundles::RepeatPrevious)]);
    assert_eq!(v.connect_block(&b, 2), Err(BlockError::Unimplemented(Unsupported::RepeatPrevious)));
    let b = coinbase_block(2, &[CoinbaseMessage::M4AckBundles(M4AckBundles::LeadingBy50)]);
    assert_eq!(v.connect_block(&b, 2), Err(BlockError::Unimplemented(Unsupported::LeadingBy50)));
}

#[test]
fn unparsable_coinbase_output_fails_block() {
    let mut v = Bip300::new();
    let mut b = coinbase_block(2, &[m1(1, &[1])]);
    b.txdata[0].output.push(TxOut { value: 0, script_pubkey: vec![1, 2, 3, 4, 5] });
    assert_eq!(
        v.connect_block(&b, 2),
        Err(BlockError::Parse(bip300::codec::ParseError::UnknownMagic))
    );
    assert_eq!(v.tables().proposal_count(), 0);
}

#[test]
fn m2_increments_by_one() {
    let mut v = Bip300::new();
    v.connect_block(&coinbase_block(1, &[m1(4, &[0xee])]), 1).unwrap();
    for h in 2..6 {
        let before = v.tables().proposal(&sha256d(&[0xee])).unwrap().vote_count;
        v.connect_block(&coinbase_block(h, &[m2(4, &[0xee])]), h).unwrap();
        let after = v.tables().proposal(&sha256d(&[0xee])).unwrap().vote_count;
        assert_eq!(after, before + 1);
    }
    // an ack naming another slot does not count
    v.connect_block(&coinbase_block(9, &[m2(3, &[0xee])]), 9).unwrap();
    assert_eq!(v.tables().proposal(&sha256d(&[0xee])).unwrap().vote_count, 4);
}

#[test]
fn bundles_vote_and_alarm_saturates() {
    let mut t = Tables::new();
    t.restore_bundles(2, vec![]);
    let mut v = Bip300::from_tables(t);
    let m3 = |x: u8| CoinbaseMessage::M3ProposeBundle { sidechain_number: 2, bundle_txid: [x; 32] };
    v.connect_block(&coinbase_block(1, &[m3(1), m3(2)]), 1).unwrap();
    // M3 on an inactive slot is ignored
    v.connect_block(
        &coinbase_block(2, &[CoinbaseMessage::M3ProposeBundle { sidechain_number: 3, bundle_txid: [5; 32] }]),
        2,
    )
    .unwrap();
    assert_eq!(v.tables().bundles(3), None);
    let vote = |votes: Vec<u8>| CoinbaseMessage::M4AckBundles(M4AckBundles::OneByte { upvotes: votes });
    v.connect_block(&coinbase_block(3, &[vote(vec![0xff, 0xff, 1])]), 3).unwrap();
    assert_eq!(
        v.tables().bundles(2),
        Some(vec![
            Bundle { bundle_txid: [1; 32], vote_count: 0 },
            Bundle { bundle_txid: [2; 32], vote_count: 1 },
        ])
    );
    // out-of-range index is ignored
    v.connect_block(&coinbase_block(4, &[vote(vec![0xff, 0xff, 9])]), 4).unwrap();
    v.connect_block(&coinbase_block(5, &[vote(vec![0xff, 0xff, 0xfe])]), 5).unwrap();
    assert_eq!(
        v.tables().bundles(2),
        Some(vec![
            Bundle { bundle_txid: [1; 32], vote_count: 0 },
            Bundle { bundle_txid: [2; 32], vote_count: 0 },
        ])
    );
    let two = CoinbaseMessage::M4AckBundles(M4AckBundles::TwoBytes { upvotes: vec![0xffff, 0xffff, 0] });
    v.connect_block(&coinbase_block(6, &[two]), 6).unwrap();
    assert_eq!(v.tables().bundles(2).unwrap()[0].vote_count, 1);
    let alarm = CoinbaseMessage::M4AckBundles(M4AckBundles::TwoBytes { upvotes: vec![0xffff, 0xffff, 0xfffe] });
    v.connect_block(&coinbase_block(7, &[alarm]), 7).unwrap();
    assert_eq!(v.tables().bundles(2).unwrap()[0].vote_count, 0);
    assert_eq!(v.tables().bundles(2).unwrap()[1].vote_count, 0);
}

#[test]
fn connect_then_disconnect_restores_state() {
    let mut v = slot_seven_with_ctip();
    v.connect_block(&coinbase_block(10, &[m1(9, &[0x01])]), 10).unwrap();
    let mut b = ctip_block(11, vec![OutPoint { txid: [0x10; 32], vout: 0 }], 170);
    b.txdata[0].output.push(TxOut { value: 0, script_pubkey: encode(&m2(9, &[0x01])) });
    v.connect_block(&b, 11).unwrap();
    assert_eq!(v.tables().proposal(&sha256d(&[0x01])).unwrap().vote_count, 1);
    assert_eq!(v.tables().ctip(7).unwrap().value, 170);
    assert_eq!(v.disconnect_block(&coinbase_block(10, &[])), Err(BlockError::NotTip));
    v.disconnect_block(&b).unwrap();
    assert_eq!(v.tables().proposal(&sha256d(&[0x01])).unwrap().vote_count, 0);
    assert_eq!(
        v.tables().ctip(7),
        Some(Ctip { outpoint: OutPoint { txid: [0x10; 32], vout: 0 }, value: 100 })
    );
    v.disconnect_block(&coinbase_block(10, &[])).unwrap();
    assert_eq!(v.tables().proposal_count(), 0);
}

#[test]
fn ctip_txid_comes_from_the_block() {
    let mut v = slot_seven_with_ctip();
    let b = ctip_block(12, vec![OutPoint { txid: [0x10; 32], vout: 0 }], 200);
    v.connect_block(&b, 12).unwrap();
    let c = v.tables().ctip(7).unwrap();
    assert!(b.txdata[1..].iter().any(|tx| tx.txid == c.outpoint.txid));
}

#[test]
fn activated_data_hash_leaves_proposals() {
    let mut v = Bip300::new();
    v.connect_block(&coinbase_block(1, &[m1(6, &[0x66])]), 1).unwrap();
    for h in 2..(2 + 1816) {
        v.connect_block(&coinbase_block(h, &[m2(6, &[0x66])]), h).unwrap();
    }
    let s = v.tables().sidechain(6).unwrap();
    assert!(v.tables().proposal(&sha256d(&s.data)).is_none());
}

#[test]
fn proposal_key_is_sha256d_of_empty_data() {
    let mut v = Bip300::new();
    v.connect_block(&coinbase_block(1, &[m1(1, &[])]), 1).unwrap();
    let mut expected = [0u8; 32];
    let hex = "5df6e0e2761359d30a8275058e299fcc0381534545f55cf43e41983f5d4c9456";
    for i in 0..32 {
        expected[i] = u8::from_str_radix(&hex[2 * i..2 * i + 2], 16).unwrap();
    }
    assert!(v.tables().proposal(&expected).is_some());
}
