use vstd::prelude::*;
use crate::codec::{encode, encode_spec, CoinbaseMessage, M4AckBundles, MessageV};
use crate::codec::copy_bytes;
use crate::codec::copy_hash;
use crate::rows::{le_u16_bytes, le_u32_bytes, le_u64_bytes};

verus! {

/// Request to propose a sidechain in the next coinbase.
#[derive(Clone, Debug, PartialEq, Eq)]
pub struct ProposeSidechainRequest {
    pub sidechain_number: u32,
    pub data: Vec<u8>,
}

/// Request to ack a sidechain proposal by its data hash.
#[derive(Clone, Debug, PartialEq, Eq)]
pub struct AckSidechainRequest {
    pub sidechain_number: u32,
    pub data_hash: Vec<u8>,
}

/// Request to propose a withdrawal bundle.
#[derive(Clone, Debug, PartialEq, Eq)]
pub struct ProposeBundleRequest {
    pub sidechain_number: u32,
    pub bundle_txid: Vec<u8>,
}

/// Requested M4 vote.
#[derive(Clone, Debug, PartialEq, Eq)]
pub enum AckBundlesRequest {
    RepeatPrevious,
    LeadingBy50,
    /// Entry `i` is sidechain `i`'s vote.
    Upvotes(Vec<u32>),
}

/// Everything a miner asks to have in its coinbase.
#[derive(Clone, Debug, PartialEq, Eq)]
pub struct CoinbaseRequest {
    pub propose_sidechains: Vec<ProposeSidechainRequest>,
    pub ack_sidechains: Vec<AckSidechainRequest>,
    pub propose_bundles: Vec<ProposeBundleRequest>,
    pub ack_bundles: Option<AckBundlesRequest>,
}

/// Why a request cannot be assembled.
#[derive(Clone, Copy, Debug, PartialEq, Eq, Structural)]
pub enum RequestError {
    /// A sidechain number above 255.
    SidechainNumberOutOfRange,
    /// A data hash or bundle txid that is not 32 bytes.
    InvalidHashLength,
    /// An upvote above 65 535.
    UpvoteTooLarge,
}

pub open spec fn numbers_in_range(req: CoinbaseRequest) -> bool {
    &&& forall|i: int|
        0 <= i < req.propose_sidechains@.len() ==> #[trigger] req.propose_sidechains@[i].sidechain_number
            <= 255
    &&& forall|i: int|
        0 <= i < req.ack_sidechains@.len() ==> #[trigger] req.ack_sidechains@[i].sidechain_number
            <= 255
    &&& forall|i: int|
        0 <= i < req.propose_bundles@.len() ==> #[trigger] req.propose_bundles@[i].sidechain_number
            <= 255
}

pub open spec fn hashes_sized(req: CoinbaseRequest) -> bool {
    &&& forall|i: int|
        0 <= i < req.ack_sidechains@.len() ==> #[trigger] req.ack_sidechains@[i].data_hash@.len() == 32
    &&& forall|i: int|
        0 <= i < req.propose_bundles@.len() ==> #[trigger] req.propose_bundles@[i].bundle_txid@.len()
            == 32
}

/// Largest-vote test: every upvote is at most `max`.
pub open spec fn upvotes_at_most(u: Seq<u32>, max: u32) -> bool {
    forall|i: int| 0 <= i < u.len() ==> #[trigger] u[i] <= max
}

pub open spec fn upvotes_fit(req: CoinbaseRequest) -> bool {
    match req.ack_bundles {
        Some(AckBundlesRequest::Upvotes(u)) => upvotes_at_most(u@, 0xffff),
        _ => true,
    }
}

/// The M4 message of a request: one byte per vote when every vote fits in
/// a byte, two bytes otherwise.
pub open spec fn ack_bundles_message(a: AckBundlesRequest) -> MessageV {
    match a {
        AckBundlesRequest::RepeatPrevious => MessageV::RepeatPrevious,
        AckBundlesRequest::LeadingBy50 => MessageV::LeadingBy50,
        AckBundlesRequest::Upvotes(u) => if upvotes_at_most(u@, 0xff) {
            MessageV::OneByte { upvotes: u@.map_values(|v: u32| v as u8) }
        } else {
            MessageV::TwoBytes { upvotes: u@.map_values(|v: u32| v as u16) }
        },
    }
}

/// The messages of a valid request, in request order.
pub open spec fn request_messages(req: CoinbaseRequest) -> Seq<MessageV> {
    req.propose_sidechains@.map_values(
        |p: ProposeSidechainRequest|
            MessageV::ProposeSidechain { sidechain_number: p.sidechain_number as u8, data: p.data@ },
    ) + req.ack_sidechains@.map_values(
        |a: AckSidechainRequest|
            MessageV::AckSidechain { sidechain_number: a.sidechain_number as u8, data_hash: a.data_hash@ },
    ) + req.propose_bundles@.map_values(
        |b: ProposeBundleRequest|
            MessageV::ProposeBundle {
                sidechain_number: b.sidechain_number as u8,
                bundle_txid: b.bundle_txid@,
            },
    ) + match req.ack_bundles {
        Some(a) => seq![ack_bundles_message(a)],
        None => Seq::empty(),
    }
}

/// The messages a request asks for, or the first kind of problem with it.
pub open spec fn assemble_spec(req: CoinbaseRequest) -> Result<Seq<MessageV>, RequestError> {
    if !numbers_in_range(req) {
        Err(RequestError::SidechainNumberOutOfRange)
    } else if !hashes_sized(req) {
        Err(RequestError::InvalidHashLength)
    } else if !upvotes_fit(req) {
        Err(RequestError::UpvoteTooLarge)
    } else {
        Ok(request_messages(req))
    }
}

/// Version of an assembled coinbase transaction.
pub const COINBASE_VERSION: i32 = 2;
/// Lock time of an assembled coinbase transaction (block height zero).
pub const COINBASE_LOCK_TIME: u32 = 0;

/// Bitcoin's compact-size encoding of a count.
pub open spec fn compact_size(n: nat) -> Seq<u8> {
    if n <= 0xfc {
        seq![n as u8]
    } else if n <= 0xffff {
        seq![0xfdu8] + le_u16_bytes(n as u16)
    } else if n <= 0xffff_ffff {
        seq![0xfeu8] + le_u32_bytes(n as u32)
    } else {
        seq![0xffu8] + le_u64_bytes(n as u64)
    }
}

/// An output: value in 8 little-endian bytes, then the script with its
/// compact-size length.
pub open spec fn tx_out_bytes(value: u64, script: Seq<u8>) -> Seq<u8> {
    le_u64_bytes(value) + compact_size(script.len()) + script
}

/// The outputs one after another.
pub open spec fn tx_outs_bytes(outputs: Seq<(u64, Seq<u8>)>) -> Seq<u8>
    decreases outputs.len(),
{
    if outputs.len() == 0 {
        Seq::empty()
    } else {
        tx_outs_bytes(outputs.drop_last()) + tx_out_bytes(outputs.last().0, outputs.last().1)
    }
}

/// The consensus bytes of a transaction without inputs: version, the segwit
/// marker and flag (always written when there are no inputs), an empty input
/// list, the outputs, the lock time.
pub open spec fn transaction_bytes(version: i32, lock_time: u32, outputs: Seq<(u64, Seq<u8>)>) -> Seq<
    u8,
> {
    le_u32_bytes(version as u32) + seq![0x00u8, 0x01u8, 0x00u8] + compact_size(outputs.len())
        + tx_outs_bytes(outputs) + le_u32_bytes(lock_time)
}

/// Relies on `bitcoin::consensus::encode::serialize` of a `bitcoin::Transaction`
/// with no inputs: `Transaction::consensus_encode` writes the version, the
/// segwit marker and flag (no inputs), the input and output vectors with
/// compact-size counts, no witnesses, and the lock time; an output is its
/// amount and its script with a compact-size length.
#[verifier::external_body]
fn serialize_transaction(version: i32, lock_time: u32, outputs: Vec<(u64, Vec<u8>)>) -> (r: Vec<u8>)
    ensures
        r@ == transaction_bytes(
            version,
            lock_time,
            outputs@.map_values(|o: (u64, Vec<u8>)| (o.0, o.1@)),
        ),
{
    let output = outputs.into_iter().map(|(value, script)| bitcoin::TxOut {
        value: bitcoin::Amount::from_sat(value),
        script_pubkey: bitcoin::ScriptBuf::from_bytes(script),
    }).collect();
    let transaction = bitcoin::Transaction {
        version: bitcoin::transaction::Version(version),
        lock_time: bitcoin::absolute::LockTime::from_consensus(lock_time),
        input: Vec::new(),
        output,
    };
    bitcoin::consensus::encode::serialize(&transaction)
}

fn all_at_most(u: &Vec<u32>, max: u32) -> (r: bool)
    ensures
        r == upvotes_at_most(u@, max),
{
    let mut i: usize = 0;
    while i < u.len()
        invariant
            i <= u@.len(),
            forall|k: int| 0 <= k < i ==> #[trigger] u@[k] <= max,
        decreases u@.len() - i,
    {
        if u[i] > max {
            return false;
        }
        i = i + 1;
    }
    true
}

fn check_request(req: &CoinbaseRequest) -> (r: Option<RequestError>)
    ensures
        r == (match assemble_spec(*req) {
            Ok(_) => None,
            Err(e) => Some(e),
        }),
{
    let mut i: usize = 0;
    while i < req.propose_sidechains.len()
        invariant
            i <= req.propose_sidechains@.len(),
            forall|k: int| 0 <= k < i ==> #[trigger] req.propose_sidechains@[k].sidechain_number <= 255,
        decreases req.propose_sidechains@.len() - i,
    {
        if req.propose_sidechains[i].sidechain_number > 255 {
            return Some(RequestError::SidechainNumberOutOfRange);
        }
        i = i + 1;
    }
    let mut i: usize = 0;
    while i < req.ack_sidechains.len()
        invariant
            i <= req.ack_sidechains@.len(),
            forall|k: int| 0 <= k < i ==> #[trigger] req.ack_sidechains@[k].sidechain_number <= 255,
        decreases req.ack_sidechains@.len() - i,
    {
        if req.ack_sidechains[i].sidechain_number > 255 {
            return Some(RequestError::SidechainNumberOutOfRange);
        }
        i = i + 1;
    }
    let mut i: usize = 0;
    while i < req.propose_bundles.len()
        invariant
            i <= req.propose_bundles@.len(),
            forall|k: int| 0 <= k < i ==> #[trigger] req.propose_bundles@[k].sidechain_number <= 255,
        decreases req.propose_bundles@.len() - i,
    {
        if req.propose_bundles[i].sidechain_number > 255 {
            return Some(RequestError::SidechainNumberOutOfRange);
        }
        i = i + 1;
    }
    let mut i: usize = 0;
    while i < req.ack_sidechains.len()
        invariant
            i <= req.ack_sidechains@.len(),
            numbers_in_range(*req),
            forall|k: int| 0 <= k < i ==> #[trigger] req.ack_sidechains@[k].data_hash@.len() == 32,
        decreases req.ack_sidechains@.len() - i,
    {
        if req.ack_sidechains[i].data_hash.len() != 32 {
            return Some(RequestError::InvalidHashLength);
        }
        i = i + 1;
    }
    let mut i: usize = 0;
    while i < req.propose_bundles.len()
        invariant
            i <= req.propose_bundles@.len(),
            numbers_in_range(*req),
            forall|k: int| 0 <= k < i ==> #[trigger] req.propose_bundles@[k].bundle_txid@.len() == 32,
        decreases req.propose_bundles@.len() - i,
    {
        if req.propose_bundles[i].bundle_txid.len() != 32 {
            return Some(RequestError::InvalidHashLength);
        }
        i = i + 1;
    }
    match &req.ack_bundles {
        Some(AckBundlesRequest::Upvotes(u)) => {
            if !all_at_most(u, 0xffff) {
                return Some(RequestError::UpvoteTooLarge);
            }
        },
        _ => {},
    }
    None
}

fn ack_bundles_to_message(a: &AckBundlesRequest) -> (r: CoinbaseMessage)
    requires
        match a {
            AckBundlesRequest::Upvotes(u) => upvotes_at_most(u@, 0xffff),
            _ => true,
        },
    ensures
        r@ == ack_bundles_message(*a),
{
    match a {
        AckBundlesRequest::RepeatPrevious => CoinbaseMessage::M4AckBundles(M4AckBundles::RepeatPrevious),
        AckBundlesRequest::LeadingBy50 => CoinbaseMessage::M4AckBundles(M4AckBundles::LeadingBy50),
        AckBundlesRequest::Upvotes(u) => {
            if all_at_most(u, 0xff) {
                let mut upvotes: Vec<u8> = Vec::new();
                let mut i: usize = 0;
                while i < u.len()
                    invariant
                        i <= u@.len(),
                        upvotes_at_most(u@, 0xff),
                        upvotes@ == u@.subrange(0, i as int).map_values(|v: u32| v as u8),
                    decreases u@.len() - i,
                {
                    upvotes.push(u[i] as u8);
                    i = i + 1;
                    assert(upvotes@ =~= u@.subrange(0, i as int).map_values(|v: u32| v as u8));
                }
                assert(u@.subrange(0, u@.len() as int) =~= u@);
                CoinbaseMessage::M4AckBundles(M4AckBundles::OneByte { upvotes })
            } else {
                let mut upvotes: Vec<u16> = Vec::new();
                let mut i: usize = 0;
                while i < u.len()
                    invariant
                        i <= u@.len(),
                        upvotes_at_most(u@, 0xffff),
                        upvotes@ == u@.subrange(0, i as int).map_values(|v: u32| v as u16),
                    decreases u@.len() - i,
                {
                    upvotes.push(u[i] as u16);
                    i = i + 1;
                    assert(upvotes@ =~= u@.subrange(0, i as int).map_values(|v: u32| v as u16));
                }
                assert(u@.subrange(0, u@.len() as int) =~= u@);
                CoinbaseMessage::M4AckBundles(M4AckBundles::TwoBytes { upvotes })
            }
        },
    }
}

/// The coinbase messages a request asks for, in request order; the width of
/// an M4 vote vector is the smallest that holds its largest vote.
pub fn assemble_messages(req: &CoinbaseRequest) -> (r: Result<Vec<CoinbaseMessage>, RequestError>)
    ensures
        match assemble_spec(*req) {
            Ok(ms) => r is Ok && r->Ok_0@.map_values(|m: CoinbaseMessage| m@) == ms,
            Err(e) => r == Err::<Vec<CoinbaseMessage>, RequestError>(e),
        },
{
    match check_request(req) {
        Some(e) => return Err(e),
        None => {},
    }
    let ghost target = request_messages(*req);
    let ghost n1 = req.propose_sidechains@.len();
    let ghost n2 = req.ack_sidechains@.len();
    let ghost n3 = req.propose_bundles@.len();
    let mut ms: Vec<CoinbaseMessage> = Vec::new();
    let mut i: usize = 0;
    while i < req.propose_sidechains.len()
        invariant
            i <= n1,
            n1 == req.propose_sidechains@.len(),
            target == request_messages(*req),
            numbers_in_range(*req),
            ms@.len() == i,
            forall|k: int| 0 <= k < i ==> #[trigger] ms@[k]@ == target[k],
        decreases n1 - i,
    {
        let p = &req.propose_sidechains[i];
        ms.push(CoinbaseMessage::M1ProposeSidechain { sidechain_number: p.sidechain_number as u8, data: copy_bytes(&p.data) });
        i = i + 1;
    }
    let mut i: usize = 0;
    while i < req.ack_sidechains.len()
        invariant
            i <= n2,
            n1 == req.propose_sidechains@.len(),
            n2 == req.ack_sidechains@.len(),
            target == request_messages(*req),
            numbers_in_range(*req),
            hashes_sized(*req),
            ms@.len() == n1 + i,
            forall|k: int| 0 <= k < n1 + i ==> #[trigger] ms@[k]@ == target[k],
        decreases n2 - i,
    {
        let a = &req.ack_sidechains[i];
        assert(a.data_hash@.len() == 32);
        let data_hash = copy_hash(a.data_hash.as_slice(), 0);
        assert(data_hash@ =~= a.data_hash@);
        ms.push(CoinbaseMessage::M2AckSidechain { sidechain_number: a.sidechain_number as u8, data_hash });
        i = i + 1;
    }
    let mut i: usize = 0;
    while i < req.propose_bundles.len()
        invariant
            i <= n3,
            n1 == req.propose_sidechains@.len(),
            n2 == req.ack_sidechains@.len(),
            n3 == req.propose_bundles@.len(),
            target == request_messages(*req),
            numbers_in_range(*req),
            hashes_sized(*req),
            ms@.len() == n1 + n2 + i,
            forall|k: int| 0 <= k < n1 + n2 + i ==> #[trigger] ms@[k]@ == target[k],
        decreases n3 - i,
    {
        let b = &req.propose_bundles[i];
        assert(b.bundle_txid@.len() == 32);
        let bundle_txid = copy_hash(b.bundle_txid.as_slice(), 0);
        assert(bundle_txid@ =~= b.bundle_txid@);
        ms.push(CoinbaseMessage::M3ProposeBundle { sidechain_number: b.sidechain_number as u8, bundle_txid });
        i = i + 1;
    }
    match &req.ack_bundles {
        Some(a) => {
            ms.push(ack_bundles_to_message(a));
        },
        None => {},
    }
    assert(ms@.map_values(|m: CoinbaseMessage| m@) =~= target);
    Ok(ms)
}

/// The serialized coinbase transaction for a request: no inputs, version 2,
/// lock time zero, and one zero-value output per requested message holding
/// that message's script, in request order.
pub fn get_coinbase_psbt(req: &CoinbaseRequest) -> (r: Result<Vec<u8>, RequestError>)
    ensures
        match assemble_spec(*req) {
            Ok(ms) => r is Ok && r->Ok_0@ == transaction_bytes(
                COINBASE_VERSION,
                COINBASE_LOCK_TIME,
                ms.map_values(|m: MessageV| (0u64, encode_spec(m))),
            ),
            Err(e) => r == Err::<Vec<u8>, RequestError>(e),
        },
{
    let ms = match assemble_messages(req) {
        Ok(ms) => ms,
        Err(e) => return Err(e),
    };
    let ghost mv = ms@.map_values(|m: CoinbaseMessage| m@);
    let mut outputs: Vec<(u64, Vec<u8>)> = Vec::new();
    let mut i: usize = 0;
    while i < ms.len()
        invariant
            i <= ms@.len(),
            mv == ms@.map_values(|m: CoinbaseMessage| m@),
            outputs@.len() == i,
            forall|k: int|
                0 <= k < i ==> (#[trigger] outputs@[k]).0 == 0 && outputs@[k].1@ == encode_spec(
                    mv[k],
                ),
        decreases ms@.len() - i,
    {
        outputs.push((0u64, encode(&ms[i])));
        i = i + 1;
    }
    assert(outputs@.map_values(|o: (u64, Vec<u8>)| (o.0, o.1@)) =~= mv.map_values(
        |m: MessageV| (0u64, encode_spec(m)),
    ));
    Ok(serialize_transaction(COINBASE_VERSION, COINBASE_LOCK_TIME, outputs))
}

} // verus!
