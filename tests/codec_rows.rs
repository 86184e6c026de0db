use bip300::assembler::{
    assemble_messages, get_coinbase_psbt, AckBundlesRequest, AckSidechainRequest, CoinbaseRequest,
    ProposeBundleRequest, ProposeSidechainRequest, RequestError,
};
use bip300::codec::{encode, parse, CoinbaseMessage, M4AckBundles, ParseError};
use bip300::types::{Bundle, Ctip, Deposit, OutPoint, Sidechain, SidechainProposal};

fn all_messages() -> Vec<CoinbaseMessage> {
    vec![
        CoinbaseMessage::M1ProposeSidechain { sidechain_number: 5, data: vec![0xaa, 0xbb] },
        CoinbaseMessage::M1ProposeSidechain { sidechain_number: 0, data: vec![] },
        CoinbaseMessage::M2AckSidechain { sidechain_number: 5, data_hash: [7; 32] },
        CoinbaseMessage::M3ProposeBundle { sidechain_number: 255, bundle_txid: [9; 32] },
        CoinbaseMessage::M4AckBundles(M4AckBundles::RepeatPrevious),
        CoinbaseMessage::M4AckBundles(M4AckBundles::LeadingBy50),
        CoinbaseMessage::M4AckBundles(M4AckBundles::OneByte { upvotes: vec![0, 0xfe, 0xff] }),
        CoinbaseMessage::M4AckBundles(M4AckBundles::OneByte { upvotes: vec![] }),
        CoinbaseMessage::M4AckBundles(M4AckBundles::TwoBytes { upvotes: vec![0x1234, 0xfffe, 0xffff] }),
    ]
}

#[test]
fn codec_round_trip() {
    for m in all_messages() {
        assert_eq!(parse(&encode(&m)), Ok(m));
    }
}

#[test]
fn encode_exact_bytes() {
    let m = CoinbaseMessage::M1ProposeSidechain { sidechain_number: 5, data: vec![0xaa] };
    assert_eq!(encode(&m), vec![0xd5, 0xe0, 0xc4, 0xaf, 5, 0xaa]);
    let m = CoinbaseMessage::M4AckBundles(M4AckBundles::TwoBytes { upvotes: vec![0x0102, 300] });
    assert_eq!(encode(&m), vec![0xd7, 0x7d, 0x17, 0x76, 2, 0x01, 0x02, 0x01, 0x2c]);
    let m = CoinbaseMessage::M4AckBundles(M4AckBundles::LeadingBy50);
    assert_eq!(encode(&m), vec![0xd7, 0x7d, 0x17, 0x76, 3]);
}

#[test]
fn parse_errors() {
    assert_eq!(parse(&[0xd5, 0xe0, 0xc4]), Err(ParseError::Truncated));
    assert_eq!(parse(&[1, 2, 3, 4, 5]), Err(ParseError::UnknownMagic));
    assert_eq!(parse(&[0xd5, 0xe0, 0xc4, 0xaf]), Err(ParseError::Truncated));
    assert_eq!(parse(&[0xd6, 0xe1, 0xc5, 0xbf, 1, 2, 3]), Err(ParseError::Truncated));
    let mut long = vec![0xd4, 0x5a, 0xa9, 0x43, 1];
    long.extend_from_slice(&[0u8; 33]);
    assert_eq!(parse(&long), Err(ParseError::InvalidLength));
    assert_eq!(parse(&[0xd7, 0x7d, 0x17, 0x76, 9]), Err(ParseError::InvalidTag));
    assert_eq!(parse(&[0xd7, 0x7d, 0x17, 0x76, 2, 1]), Err(ParseError::InvalidLength));
    assert_eq!(parse(&[0xd7, 0x7d, 0x17, 0x76, 0, 1]), Err(ParseError::InvalidLength));
    assert_eq!(parse(&[0xd7, 0x7d, 0x17, 0x76]), Err(ParseError::Truncated));
}

fn upvote_request(upvotes: Vec<u32>) -> CoinbaseRequest {
    CoinbaseRequest {
        propose_sidechains: vec![],
        ack_sidechains: vec![],
        propose_bundles: vec![],
        ack_bundles: Some(AckBundlesRequest::Upvotes(upvotes)),
    }
}

#[test]
fn assembler_width_choice() {
    assert_eq!(
        assemble_messages(&upvote_request(vec![0, 1, 300])),
        Ok(vec![CoinbaseMessage::M4AckBundles(M4AckBundles::TwoBytes { upvotes: vec![0, 1, 300] })])
    );
    assert_eq!(
        assemble_messages(&upvote_request(vec![0, 1, 2])),
        Ok(vec![CoinbaseMessage::M4AckBundles(M4AckBundles::OneByte { upvotes: vec![0, 1, 2] })])
    );
    assert_eq!(
        assemble_messages(&upvote_request(vec![0, 70000])),
        Err(RequestError::UpvoteTooLarge)
    );
    assert_eq!(get_coinbase_psbt(&upvote_request(vec![0, 70000])), Err(RequestError::UpvoteTooLarge));
}

#[test]
fn assembler_keeps_request_order_and_checks_fields() {
    let req = CoinbaseRequest {
        propose_sidechains: vec![ProposeSidechainRequest { sidechain_number: 3, data: vec![1] }],
        ack_sidechains: vec![AckSidechainRequest { sidechain_number: 3, data_hash: vec![2; 32] }],
        propose_bundles: vec![ProposeBundleRequest { sidechain_number: 4, bundle_txid: vec![3; 32] }],
        ack_bundles: Some(AckBundlesRequest::RepeatPrevious),
    };
    assert_eq!(
        assemble_messages(&req),
        Ok(vec![
            CoinbaseMessage::M1ProposeSidechain { sidechain_number: 3, data: vec![1] },
            CoinbaseMessage::M2AckSidechain { sidechain_number: 3, data_hash: [2; 32] },
            CoinbaseMessage::M3ProposeBundle { sidechain_number: 4, bundle_txid: [3; 32] },
            CoinbaseMessage::M4AckBundles(M4AckBundles::RepeatPrevious),
        ])
    );
    let mut bad = req.clone();
    bad.ack_sidechains[0].data_hash = vec![2; 31];
    assert_eq!(assemble_messages(&bad), Err(RequestError::InvalidHashLength));
    let mut bad = req.clone();
    bad.propose_bundles[0].sidechain_number = 256;
    assert_eq!(assemble_messages(&bad), Err(RequestError::SidechainNumberOutOfRange));
}

#[test]
fn coinbase_transaction_holds_the_scripts() {
    let req = CoinbaseRequest {
        propose_sidechains: vec![ProposeSidechainRequest { sidechain_number: 3, data: vec![1, 2] }],
        ack_sidechains: vec![],
        propose_bundles: vec![],
        ack_bundles: Some(AckBundlesRequest::LeadingBy50),
    };
    let bytes = get_coinbase_psbt(&req).unwrap();
    let tx: bitcoin::Transaction = bitcoin::consensus::encode::deserialize(&bytes).unwrap();
    assert_eq!(tx.version, bitcoin::transaction::Version::TWO);
    assert!(tx.input.is_empty());
    assert_eq!(tx.output.len(), 2);
    assert_eq!(tx.output[0].value, bitcoin::Amount::ZERO);
    assert_eq!(tx.output[0].script_pubkey.as_bytes(), &[0xd5, 0xe0, 0xc4, 0xaf, 3, 1, 2]);
    assert_eq!(tx.output[1].script_pubkey.as_bytes(), &[0xd7, 0x7d, 0x17, 0x76, 3]);
}

#[test]
fn ctip_packing() {
    let c = Ctip { outpoint: OutPoint { txid: [0xab; 32], vout: 0x01020304 }, value: 0x1122334455667788 };
    let b = Ctip::as_bytes(&c);
    assert_eq!(b.len(), 44);
    assert_eq!(&b[..32], &[0xab; 32]);
    assert_eq!(&b[32..36], &[1, 2, 3, 4]);
    assert_eq!(&b[36..], &[0x11, 0x22, 0x33, 0x44, 0x55, 0x66, 0x77, 0x88]);
    assert_eq!(Ctip::from_bytes(&b), c);
    assert_eq!(Ctip::fixed_width(), Some(44));
    assert_eq!(Ctip::value_type_name(), "Ctip");
}

#[test]
fn deposit_packing() {
    let d = Deposit { address: [3; 32], value: 7, total_value: 0x0100 };
    let b = Deposit::as_bytes(&d);
    assert_eq!(b.len(), 48);
    assert_eq!(&b[32..40], &[0, 0, 0, 0, 0, 0, 0, 7]);
    assert_eq!(&b[40..], &[0, 0, 0, 0, 0, 0, 1, 0]);
    assert_eq!(Deposit::from_bytes(&b), d);
    assert_eq!(Deposit::fixed_width(), Some(48));
    assert_eq!(Deposit::value_type_name(), "Deposit");
}

#[test]
fn variable_width_rows_round_trip() {
    let s = Sidechain { sidechain_number: 4, data: vec![9, 8, 7], vote_count: 0x0203, proposal_height: 5, activation_height: 6 };
    let b = Sidechain::as_bytes(&s);
    assert_eq!(b, vec![4, 3, 0, 0, 0, 0, 0, 0, 0, 9, 8, 7, 3, 2, 5, 0, 0, 0, 6, 0, 0, 0]);
    assert_eq!(Sidechain::from_bytes(&b), Some(s));
    assert_eq!(Sidechain::from_bytes(&b[..b.len() - 1]), None);
    assert_eq!(Sidechain::fixed_width(), None);
    let p = SidechainProposal { sidechain_number: 1, data: vec![], vote_count: 2, proposal_height: 3 };
    let b = SidechainProposal::as_bytes(&p);
    assert_eq!(b.len(), 15);
    assert_eq!(SidechainProposal::from_bytes(&b), Some(p));
    let u = Bundle { bundle_txid: [5; 32], vote_count: 258 };
    let b = Bundle::as_bytes(&u);
    assert_eq!(&b[32..], &[2, 1]);
    assert_eq!(Bundle::from_bytes(&b), Some(u));
    assert_eq!(Bundle::from_bytes(&b[1..]), None);
}

#[test]
fn assembler_width_boundaries() {
    let one = |v: Vec<u8>| Ok(vec![CoinbaseMessage::M4AckBundles(M4AckBundles::OneByte { upvotes: v })]);
    let two = |v: Vec<u16>| Ok(vec![CoinbaseMessage::M4AckBundles(M4AckBundles::TwoBytes { upvotes: v })]);
    assert_eq!(assemble_messages(&upvote_request(vec![255])), one(vec![255]));
    assert_eq!(assemble_messages(&upvote_request(vec![256])), two(vec![256]));
    assert_eq!(assemble_messages(&upvote_request(vec![65535])), two(vec![65535]));
    assert_eq!(assemble_messages(&upvote_request(vec![65536])), Err(RequestError::UpvoteTooLarge));
    assert_eq!(assemble_messages(&upvote_request(vec![])), one(vec![]));
}

#[test]
fn empty_request_gives_no_outputs() {
    let req = CoinbaseRequest {
        propose_sidechains: vec![],
        ack_sidechains: vec![],
        propose_bundles: vec![],
        ack_bundles: None,
    };
    assert_eq!(assemble_messages(&req), Ok(vec![]));
    let tx: bitcoin::Transaction =
        bitcoin::consensus::encode::deserialize(&get_coinbase_psbt(&req).unwrap()).unwrap();
    assert!(tx.output.is_empty());
}

#[test]
fn coinbase_transaction_exact_bytes() {
    let req = CoinbaseRequest {
        propose_sidechains: vec![],
        ack_sidechains: vec![],
        propose_bundles: vec![],
        ack_bundles: Some(AckBundlesRequest::LeadingBy50),
    };
    let mut expected = vec![2, 0, 0, 0, 0x00, 0x01, 0x00, 1];
    expected.extend_from_slice(&[0; 8]);
    expected.extend_from_slice(&[5, 0xd7, 0x7d, 0x17, 0x76, 3]);
    expected.extend_from_slice(&[0, 0, 0, 0]);
    assert_eq!(get_coinbase_psbt(&req), Ok(expected));
}

#[test]
fn coinbase_transaction_long_script_length() {
    let req = CoinbaseRequest {
        propose_sidechains: vec![ProposeSidechainRequest { sidechain_number: 1, data: vec![7; 300] }],
        ack_sidechains: vec![],
        propose_bundles: vec![],
        ack_bundles: None,
    };
    let bytes = get_coinbase_psbt(&req).unwrap();
    assert_eq!(&bytes[..8], &[2, 0, 0, 0, 0x00, 0x01, 0x00, 1]);
    assert_eq!(&bytes[8..16], &[0; 8]);
    assert_eq!(&bytes[16..19], &[0xfd, 0x31, 0x01]);
    assert_eq!(&bytes[19..24], &[0xd5, 0xe0, 0xc4, 0xaf, 1]);
    assert_eq!(bytes.len(), 19 + 305 + 4);
}
