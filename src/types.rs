use vstd::prelude::*;

verus! {

/// A 32-byte hash (txid, block hash, SHA256d digest).
pub type Hash256 = [u8; 32];

/// A transaction output reference.
#[derive(Clone, Copy, Debug, PartialEq, Eq)]
pub struct OutPoint {
    pub txid: Hash256,
    pub vout: u32,
}

/// Critical Treasury Tip: the UTXO holding a sidechain's locked funds.
#[derive(Clone, Copy, Debug, PartialEq, Eq)]
pub struct Ctip {
    pub outpoint: OutPoint,
    pub value: u64,
}

/// A sidechain awaiting enough acks to activate.
#[derive(Clone, Debug, PartialEq, Eq)]
pub struct SidechainProposal {
    pub sidechain_number: u8,
    pub data: Vec<u8>,
    pub vote_count: u16,
    pub proposal_height: u32,
}

/// Model of a `SidechainProposal`.
pub struct ProposalV {
    pub sidechain_number: u8,
    pub data: Seq<u8>,
    pub vote_count: u16,
    pub proposal_height: u32,
}

impl View for SidechainProposal {
    type V = ProposalV;

    open spec fn view(&self) -> ProposalV {
        ProposalV {
            sidechain_number: self.sidechain_number,
            data: self.data@,
            vote_count: self.vote_count,
            proposal_height: self.proposal_height,
        }
    }
}

/// An activated sidechain.
#[derive(Clone, Debug, PartialEq, Eq)]
pub struct Sidechain {
    pub sidechain_number: u8,
    pub data: Vec<u8>,
    pub vote_count: u16,
    pub proposal_height: u32,
    pub activation_height: u32,
}

/// Model of a `Sidechain`.
pub struct SidechainV {
    pub sidechain_number: u8,
    pub data: Seq<u8>,
    pub vote_count: u16,
    pub proposal_height: u32,
    pub activation_height: u32,
}

impl View for Sidechain {
    type V = SidechainV;

    open spec fn view(&self) -> SidechainV {
        SidechainV {
            sidechain_number: self.sidechain_number,
            data: self.data@,
            vote_count: self.vote_count,
            proposal_height: self.proposal_height,
            activation_height: self.activation_height,
        }
    }
}

/// A proposed withdrawal bundle and its votes.
#[derive(Clone, Copy, Debug, PartialEq, Eq)]
pub struct Bundle {
    pub bundle_txid: Hash256,
    pub vote_count: u16,
}

/// Model of a `Bundle`.
pub struct BundleV {
    pub bundle_txid: Seq<u8>,
    pub vote_count: u16,
}

impl View for Bundle {
    type V = BundleV;

    open spec fn view(&self) -> BundleV {
        BundleV { bundle_txid: self.bundle_txid@, vote_count: self.vote_count }
    }
}

/// A deposit into a sidechain's treasury.
#[derive(Clone, Copy, Debug, PartialEq, Eq)]
pub struct Deposit {
    pub address: Hash256,
    pub value: u64,
    pub total_value: u64,
}

/// A transaction output: an amount in satoshis and its locking script.
#[derive(Clone, Debug, PartialEq, Eq)]
pub struct TxOut {
    pub value: u64,
    pub script_pubkey: Vec<u8>,
}

/// What block application reads of a transaction.
#[derive(Clone, Debug, PartialEq, Eq)]
pub struct Transaction {
    pub txid: Hash256,
    /// The outpoints that the inputs spend, in order.
    pub input: Vec<OutPoint>,
    pub output: Vec<TxOut>,
}

/// What block application reads of a block; `txdata[0]` is the coinbase.
#[derive(Clone, Debug, PartialEq, Eq)]
pub struct Block {
    pub block_hash: Hash256,
    pub txdata: Vec<Transaction>,
}

/// Two hashes hold the same bytes.
pub fn hash_eq(a: &Hash256, b: &Hash256) -> (r: bool)
    ensures
        r == (a@ == b@),
{
    let mut i: usize = 0;
    while i < 32
        invariant
            i <= 32,
            a@.len() == 32,
            b@.len() == 32,
            forall|k: int| 0 <= k < i ==> a@[k] == b@[k],
        decreases 32 - i,
    {
        if a[i] != b[i] {
            return false;
        }
        i = i + 1;
    }
    assert(a@ =~= b@);
    true
}

/// Two outpoints are equal.
pub fn outpoint_eq(a: &OutPoint, b: &OutPoint) -> (r: bool)
    ensures
        r == (a == b),
{
    if a.vout != b.vout {
        return false;
    }
    let r = hash_eq(&a.txid, &b.txid);
    proof {
        if r {
            assert(a.txid =~= b.txid);
        }
    }
    r
}

} // verus!
