use vstd::prelude::*;
use crate::codec::{
    parse_spec, MessageV, ParseError, ABSTAIN_ONE_BYTE, ABSTAIN_TWO_BYTES, ALARM_ONE_BYTE,
    ALARM_TWO_BYTES,
};
use crate::hash::sha256d_of;
use crate::types::{
    Block, BundleV, Ctip, OutPoint, ProposalV, SidechainV, Transaction, TxOut,
};

verus! {

/// Age beyond which a proposal for an occupied slot fails.
pub const USED_MAX_AGE: u32 = 26_300;
/// Acks a proposal for an occupied slot needs to succeed.
pub const USED_THRESHOLD: u16 = 13_150;
/// Age beyond which a proposal for an empty slot fails.
pub const UNUSED_MAX_AGE: u32 = 2016;
/// Acks a proposal for an empty slot needs to succeed.
pub const UNUSED_THRESHOLD: u16 = 1815;
/// Number of sidechain slots.
pub const SLOTS: usize = 256;

/// First byte of a drivechain (CTIP) output script: OP_NOP5.
pub const OP_DRIVECHAIN: u8 = 0xb4;
/// Push of one byte.
pub const OP_PUSHBYTES_1: u8 = 0x01;
/// OP_TRUE (OP_1).
pub const OP_TRUE: u8 = 0x51;

/// Ways in which a block breaks the rules.
#[derive(Clone, Copy, Debug, PartialEq, Eq, Structural)]
pub enum Violation {
    /// Two identical M2 messages in one coinbase.
    DuplicateAckSidechain,
    /// More than one M4 message in one coinbase.
    MultipleAckBundles,
    /// A transaction with more than one drivechain output.
    MultipleDrivechainOutputs,
    /// A drivechain output for a sidechain without a CTIP.
    MissingCtip { sidechain_number: u8 },
    /// A drivechain output whose transaction does not spend the old CTIP.
    CtipNotSpent { sidechain_number: u8 },
}

/// Rules that are not implemented yet.
#[derive(Clone, Copy, Debug, PartialEq, Eq, Structural)]
pub enum Unsupported {
    RepeatPrevious,
    LeadingBy50,
    Withdrawal,
}

/// Why a block cannot be applied; the state is then left as it was.
#[derive(Clone, Copy, Debug, PartialEq, Eq, Structural)]
pub enum BlockError {
    /// A coinbase output is not a coinbase message.
    Parse(ParseError),
    /// An output starts with OP_DRIVECHAIN but does not have the drivechain form.
    InvalidDrivechainOutput,
    InvariantViolation(Violation),
    Unimplemented(Unsupported),
    /// The block is not the last one connected.
    NotTip,
}

/// Model of all tables.
pub struct TablesV {
    /// `proposal_by_datahash`, as (data hash, proposal) pairs in insertion order.
    pub proposals: Seq<(Seq<u8>, ProposalV)>,
    /// `sidechain_by_number`, indexed by slot.
    pub sidechains: Seq<Option<SidechainV>>,
    /// `bundles_by_sidechain`, indexed by slot.
    pub bundles: Seq<Option<Seq<BundleV>>>,
    /// `ctip_by_sidechain`, indexed by slot.
    pub ctips: Seq<Option<Ctip>>,
    pub previous_votes: Seq<Seq<u8>>,
    pub leading_by_50: Seq<Seq<u8>>,
}

/// The table invariants: one entry per slot, a CTIP only for an activated
/// sidechain, proposal keys distinct and equal to the hash of the
/// proposal's data.
pub open spec fn tables_wf(t: TablesV) -> bool {
    &&& t.sidechains.len() == SLOTS
    &&& t.bundles.len() == SLOTS
    &&& t.ctips.len() == SLOTS
    &&& forall|n: int| 0 <= n < SLOTS && #[trigger] t.ctips[n] is Some ==> t.sidechains[n] is Some
    &&& forall|i: int|
        0 <= i < t.proposals.len() ==> #[trigger] t.proposals[i].0 == sha256d_of(
            t.proposals[i].1.data,
        )
    &&& forall|i: int, j: int|
        0 <= i < j < t.proposals.len() ==> #[trigger] t.proposals[i].0 != #[trigger] t.proposals[j].0
}

/// The first position of key `k`, if any.
pub open spec fn key_index(ps: Seq<(Seq<u8>, ProposalV)>, k: Seq<u8>) -> Option<int> {
    if exists|i: int| 0 <= i < ps.len() && ps[i].0 == k {
        Some(
            choose|i: int|
                0 <= i < ps.len() && ps[i].0 == k && forall|j: int| 0 <= j < i ==> ps[j].0 != k,
        )
    } else {
        None
    }
}

/// Counter increment that stops at the largest value.
pub open spec fn sat_inc(x: u16) -> u16 {
    if x == u16::MAX {
        x
    } else {
        (x + 1) as u16
    }
}

/// Counter decrement that stops at zero.
pub open spec fn sat_dec(x: u16) -> u16 {
    if x == 0 {
        0
    } else {
        (x - 1) as u16
    }
}

/// The proposal is too old for its votes.
pub open spec fn proposal_failed(p: ProposalV, used: bool, height: u32) -> bool {
    let age = height - p.proposal_height;
    if used {
        age > USED_MAX_AGE && p.vote_count <= USED_THRESHOLD
    } else {
        age > UNUSED_MAX_AGE && p.vote_count <= UNUSED_THRESHOLD
    }
}

/// The proposal has enough votes.
pub open spec fn proposal_succeeded(p: ProposalV, used: bool) -> bool {
    if used {
        p.vote_count > USED_THRESHOLD
    } else {
        p.vote_count > UNUSED_THRESHOLD
    }
}

/// M1: record a new proposal unless its data hash is already proposed.
pub open spec fn apply_propose_sidechain(t: TablesV, sn: u8, data: Seq<u8>, height: u32) -> TablesV {
    let h = sha256d_of(data);
    if key_index(t.proposals, h) is Some {
        t
    } else {
        TablesV {
            proposals: t.proposals.push(
                (h, ProposalV { sidechain_number: sn, data, vote_count: 0, proposal_height: height }),
            ),
            ..t
        }
    }
}

/// M2: count an ack, then expire or activate the proposal.
pub open spec fn apply_ack_sidechain(t: TablesV, sn: u8, h: Seq<u8>, height: u32) -> TablesV {
    match key_index(t.proposals, h) {
        None => t,
        Some(i) => {
            let p = t.proposals[i].1;
            if p.sidechain_number != sn {
                t
            } else {
                let p2 = ProposalV { vote_count: sat_inc(p.vote_count), ..p };
                let used = t.sidechains[sn as int] is Some;
                if proposal_failed(p2, used, height) {
                    TablesV { proposals: t.proposals.remove(i), ..t }
                } else if proposal_succeeded(p2, used) && !used {
                    let s = SidechainV {
                        sidechain_number: p2.sidechain_number,
                        data: p2.data,
                        vote_count: p2.vote_count,
                        proposal_height: p2.proposal_height,
                        activation_height: height,
                    };
                    TablesV {
                        proposals: t.proposals.remove(i),
                        sidechains: t.sidechains.update(sn as int, Some(s)),
                        bundles: if t.bundles[sn as int] is Some {
                            t.bundles
                        } else {
                            t.bundles.update(sn as int, Some(Seq::empty()))
                        },
                        ..t
                    }
                } else {
                    TablesV { proposals: t.proposals.update(i, (h, p2)), ..t }
                }
            }
        },
    }
}

/// M3: append a bundle to an activated slot's list.
pub open spec fn apply_propose_bundle(t: TablesV, sn: u8, txid: Seq<u8>) -> TablesV {
    match t.bundles[sn as int] {
        Some(l) => TablesV {
            bundles: t.bundles.update(
                sn as int,
                Some(l.push(BundleV { bundle_txid: txid, vote_count: 0 })),
            ),
            ..t
        },
        None => t,
    }
}

/// One sidechain's M4 vote on its bundle list.
pub open spec fn vote_bundles(l: Seq<BundleV>, alarm: bool, index: int) -> Seq<BundleV> {
    if alarm {
        Seq::new(
            l.len(),
            |k: int| BundleV { bundle_txid: l[k].bundle_txid, vote_count: sat_dec(l[k].vote_count) },
        )
    } else if 0 <= index < l.len() {
        l.update(
            index,
            BundleV { bundle_txid: l[index].bundle_txid, vote_count: sat_inc(l[index].vote_count) },
        )
    } else {
        l
    }
}

/// An M4 vote vector: entry `i` is sidechain `i`'s vote.
pub open spec fn apply_upvotes(
    bs: Seq<Option<Seq<BundleV>>>,
    votes: Seq<int>,
    abstain: int,
    alarm: int,
) -> Seq<Option<Seq<BundleV>>> {
    Seq::new(
        bs.len(),
        |i: int|
            if i < votes.len() && votes[i] != abstain && bs[i] is Some {
                Some(vote_bundles(bs[i]->0, votes[i] == alarm, votes[i]))
            } else {
                bs[i]
            },
    )
}

/// The effect of one coinbase message.
pub open spec fn apply_message(t: TablesV, m: MessageV, height: u32) -> Result<TablesV, BlockError> {
    match m {
        MessageV::ProposeSidechain { sidechain_number, data } => Ok(
            apply_propose_sidechain(t, sidechain_number, data, height),
        ),
        MessageV::AckSidechain { sidechain_number, data_hash } => Ok(
            apply_ack_sidechain(t, sidechain_number, data_hash, height),
        ),
        MessageV::ProposeBundle { sidechain_number, bundle_txid } => Ok(
            apply_propose_bundle(t, sidechain_number, bundle_txid),
        ),
        MessageV::OneByte { upvotes } => Ok(
            TablesV {
                bundles: apply_upvotes(
                    t.bundles,
                    upvotes.map_values(|v: u8| v as int),
                    ABSTAIN_ONE_BYTE as int,
                    ALARM_ONE_BYTE as int,
                ),
                ..t
            },
        ),
        MessageV::TwoBytes { upvotes } => Ok(
            TablesV {
                bundles: apply_upvotes(
                    t.bundles,
                    upvotes.map_values(|v: u16| v as int),
                    ABSTAIN_TWO_BYTES as int,
                    ALARM_TWO_BYTES as int,
                ),
                ..t
            },
        ),
        MessageV::RepeatPrevious => Err(BlockError::Unimplemented(Unsupported::RepeatPrevious)),
        MessageV::LeadingBy50 => Err(BlockError::Unimplemented(Unsupported::LeadingBy50)),
    }
}

/// The messages in order, applied one after another.
pub open spec fn apply_messages(t: TablesV, ms: Seq<MessageV>, height: u32) -> Result<
    TablesV,
    BlockError,
>
    decreases ms.len(),
{
    if ms.len() == 0 {
        Ok(t)
    } else {
        match apply_messages(t, ms.drop_last(), height) {
            Ok(t1) => apply_message(t1, ms.last(), height),
            Err(e) => Err(e),
        }
    }
}

/// The coinbase outputs parsed in order; the first failure wins.
pub open spec fn parse_outputs(outs: Seq<TxOut>) -> Result<Seq<MessageV>, ParseError>
    decreases outs.len(),
{
    if outs.len() == 0 {
        Ok(Seq::empty())
    } else {
        match parse_outputs(outs.drop_last()) {
            Ok(ms) => match parse_spec(outs.last().script_pubkey@) {
                Ok(m) => Ok(ms.push(m)),
                Err(e) => Err(e),
            },
            Err(e) => Err(e),
        }
    }
}

pub open spec fn is_ack_bundles(m: MessageV) -> bool {
    match m {
        MessageV::RepeatPrevious | MessageV::OneByte { .. } | MessageV::TwoBytes { .. }
        | MessageV::LeadingBy50 => true,
        _ => false,
    }
}

/// Two M2 messages for the same sidechain and hash.
pub open spec fn has_duplicate_ack(ms: Seq<MessageV>) -> bool {
    exists|i: int, j: int|
        0 <= i < j < ms.len() && ms[i] is AckSidechain && #[trigger] ms[i] == #[trigger] ms[j]
}

/// Two M4 messages.
pub open spec fn has_two_ack_bundles(ms: Seq<MessageV>) -> bool {
    exists|i: int, j: int|
        0 <= i < j < ms.len() && #[trigger] is_ack_bundles(ms[i]) && #[trigger] is_ack_bundles(
            ms[j],
        )
}

/// The script starts with OP_DRIVECHAIN.
pub open spec fn is_drivechain_script(s: Seq<u8>) -> bool {
    s.len() >= 1 && s[0] == OP_DRIVECHAIN
}

/// The script has the full drivechain form `OP_DRIVECHAIN OP_PUSHBYTES_1 <n> OP_TRUE`.
pub open spec fn drivechain_well_formed(s: Seq<u8>) -> bool {
    s.len() >= 4 && s[0] == OP_DRIVECHAIN && s[1] == OP_PUSHBYTES_1 && s[3] == OP_TRUE
}

/// The position of the one drivechain output, scanning in order.
pub open spec fn scan_outputs(outs: Seq<TxOut>) -> Result<Option<int>, BlockError>
    decreases outs.len(),
{
    if outs.len() == 0 {
        Ok(None)
    } else {
        match scan_outputs(outs.drop_last()) {
            Ok(found) => {
                let s = outs.last().script_pubkey@;
                if !is_drivechain_script(s) {
                    Ok(found)
                } else if found is Some {
                    Err(BlockError::InvariantViolation(Violation::MultipleDrivechainOutputs))
                } else if !drivechain_well_formed(s) {
                    Err(BlockError::InvalidDrivechainOutput)
                } else {
                    Ok(Some(outs.len() - 1))
                }
            },
            Err(e) => Err(e),
        }
    }
}


/// An M2 raises the vote count of the proposal it names by one (stopping
/// at the largest count) and leaves every other proposal's count alone: no
/// count that stays in the table goes down.
pub proof fn lemma_ack_vote_monotone(t: TablesV, sn: u8, h: Seq<u8>, height: u32)
    requires
        tables_wf(t),
    ensures
        forall|i: int, j: int|
            0 <= i < t.proposals.len() && 0 <= j < apply_ack_sidechain(t, sn, h, height).proposals.len()
                && #[trigger] t.proposals[i].0 == #[trigger] apply_ack_sidechain(
                t,
                sn,
                h,
                height,
            ).proposals[j].0 ==> {
                let before = t.proposals[i].1.vote_count;
                let after = apply_ack_sidechain(t, sn, h, height).proposals[j].1.vote_count;
                ||| after == before
                ||| (t.proposals[i].0 == h && after == sat_inc(before))
            },
{
    let t2 = apply_ack_sidechain(t, sn, h, height);
    match key_index(t.proposals, h) {
        None => {},
        Some(x) => {
            assert forall|i: int, j: int|
                0 <= i < t.proposals.len() && 0 <= j < t2.proposals.len()
                    && #[trigger] t.proposals[i].0 == #[trigger] t2.proposals[j].0 implies {
                let before = t.proposals[i].1.vote_count;
                let after = t2.proposals[j].1.vote_count;
                ||| after == before
                ||| (t.proposals[i].0 == h && after == sat_inc(before))
            } by {
                if t2.proposals.len() < t.proposals.len() {
                    let jj = if j < x { j } else { j + 1 };
                    assert(t2.proposals[j] == t.proposals[jj]);
                    if i != jj {
                        assert(t.proposals[i].0 != t.proposals[jj].0);
                    }
                } else if j != i {
                    assert(t2.proposals[j] == t.proposals[j]);
                    assert(t.proposals[i].0 != t.proposals[j].0);
                }
            }
        },
    }
}

/// An M4 alarm lowers every bundle of the slot by one but leaves a bundle at
/// zero votes at zero.
pub proof fn lemma_alarm_saturates(
    bs: Seq<Option<Seq<BundleV>>>,
    votes: Seq<int>,
    abstain: int,
    alarm: int,
    slot: int,
    k: int,
)
    requires
        0 <= slot < bs.len(),
        slot < votes.len(),
        votes[slot] == alarm,
        alarm != abstain,
        bs[slot] is Some,
        0 <= k < bs[slot]->0.len(),
    ensures
        apply_upvotes(bs, votes, abstain, alarm)[slot] is Some,
        apply_upvotes(bs, votes, abstain, alarm)[slot]->0.len() == bs[slot]->0.len(),
        apply_upvotes(bs, votes, abstain, alarm)[slot]->0[k].vote_count == sat_dec(
            bs[slot]->0[k].vote_count,
        ),
        bs[slot]->0[k].vote_count == 0 ==> apply_upvotes(bs, votes, abstain, alarm)[slot]->0[k].vote_count
            == 0,
{
}

proof fn lemma_messages_keep_ctips(t: TablesV, ms: Seq<MessageV>, height: u32)
    ensures
        apply_messages(t, ms, height) is Ok ==> apply_messages(t, ms, height)->Ok_0.ctips == t.ctips,
    decreases ms.len(),
{
    if ms.len() > 0 {
        lemma_messages_keep_ctips(t, ms.drop_last(), height);
    }
}

/// `c` is the drivechain output of `tx` for slot `n`: the outpoint names that
/// output, whose script has the full drivechain form for `n` and whose value
/// is `c.value`.
pub open spec fn ctip_made_by(tx: Transaction, n: int, c: Ctip) -> bool {
    &&& c.outpoint.txid == tx.txid
    &&& exists|v: int|
        0 <= v < tx.output@.len() && v as u32 == c.outpoint.vout && drivechain_well_formed(
            #[trigger] tx.output@[v].script_pubkey@,
        ) && tx.output@[v].script_pubkey@[2] as int == n && tx.output@[v].value == c.value
}

proof fn lemma_transaction_ctip(t: TablesV, tx: Transaction)
    requires
        t.ctips.len() == SLOTS,
        apply_transaction(t, tx) is Ok,
    ensures
        apply_transaction(t, tx)->Ok_0.ctips.len() == SLOTS,
        forall|n: int|
            0 <= n < SLOTS && #[trigger] apply_transaction(t, tx)->Ok_0.ctips[n] != t.ctips[n]
                ==> apply_transaction(t, tx)->Ok_0.ctips[n] is Some && ctip_made_by(
                tx,
                n,
                apply_transaction(t, tx)->Ok_0.ctips[n]->0,
            ),
        forall|n: int|
            0 <= n < SLOTS && #[trigger] apply_transaction(t, tx)->Ok_0.ctips[n] is Some ==> t.ctips[n] is Some,
{
    lemma_scan_found(tx.output@);
    match scan_outputs(tx.output@) {
        Ok(Some(v)) => {
            let t2 = apply_transaction(t, tx)->Ok_0;
            let sn = tx.output@[v].script_pubkey@[2] as int;
            assert forall|n: int|
                0 <= n < SLOTS && #[trigger] t2.ctips[n] != t.ctips[n] implies t2.ctips[n] is Some
                    && ctip_made_by(tx, n, t2.ctips[n]->0) by {
                assert(n == sn);
                assert(drivechain_well_formed(tx.output@[v].script_pubkey@));
            }
        },
        _ => {},
    }
}

proof fn lemma_transactions_ctips(t: TablesV, txs: Seq<Transaction>)
    requires
        t.ctips.len() == SLOTS,
        apply_transactions(t, txs) is Ok,
    ensures
        ({
            let t2 = apply_transactions(t, txs)->Ok_0;
            &&& t2.ctips.len() == t.ctips.len()
            &&& forall|n: int|
                0 <= n < t.ctips.len() && #[trigger] t2.ctips[n] != t.ctips[n] ==> t2.ctips[n] is Some
                    && exists|k: int|
                    0 <= k < txs.len() && #[trigger] ctip_made_by(txs[k], n, t2.ctips[n]->0)
            &&& forall|n: int| 0 <= n < SLOTS && #[trigger] t2.ctips[n] is Some ==> t.ctips[n] is Some
        }),
    decreases txs.len(),
{
    if txs.len() > 0 {
        let pre = txs.drop_last();
        lemma_transactions_ctips(t, pre);
        let t1 = apply_transactions(t, pre)->Ok_0;
        let t2 = apply_transactions(t, txs)->Ok_0;
        lemma_transaction_ctip(t1, txs.last());
        assert forall|n: int|
            0 <= n < t.ctips.len() && #[trigger] t2.ctips[n] != t.ctips[n] implies t2.ctips[n] is Some
                && exists|k: int|
                0 <= k < txs.len() && #[trigger] ctip_made_by(txs[k], n, t2.ctips[n]->0) by {
            if t2.ctips[n] == t1.ctips[n] {
                let k = choose|k: int|
                    0 <= k < pre.len() && #[trigger] ctip_made_by(pre[k], n, t1.ctips[n]->0);
                assert(txs[k] == pre[k]);
            } else {
                assert(ctip_made_by(txs[txs.len() - 1], n, t2.ctips[n]->0));
            }
        }
    }
}

/// When a connected block changes a sidechain's CTIP, the new CTIP is the
/// drivechain output for that sidechain of one of the block's non-coinbase
/// transactions: same txid, an output index holding the drivechain script
/// for the slot, and that output's value.
pub proof fn lemma_ctip_continuity(t: TablesV, block: Block, height: u32)
    requires
        tables_wf(t),
        block.txdata@.len() >= 1,
        connect_spec(t, block, height) is Ok,
    ensures
        ({
            let t2 = connect_spec(t, block, height)->Ok_0;
            &&& t2.ctips.len() == t.ctips.len()
            &&& forall|n: int|
                0 <= n < t.ctips.len() && #[trigger] t2.ctips[n] != t.ctips[n] ==> t2.ctips[n] is Some
                    && exists|k: int|
                    1 <= k < block.txdata@.len() && #[trigger] ctip_made_by(
                        block.txdata@[k],
                        n,
                        t2.ctips[n]->0,
                    )
        }),
{
    let ms = parse_outputs(block.txdata@[0].output@)->Ok_0;
    lemma_messages_keep_ctips(t, ms, height);
    let t1 = apply_messages(t, ms, height)->Ok_0;
    let txs = block.txdata@.subrange(1, block.txdata@.len() as int);
    lemma_transactions_ctips(t1, txs);
    let t2 = connect_spec(t, block, height)->Ok_0;
    assert(t2 == apply_transactions(t1, txs)->Ok_0);
    assert forall|n: int|
        0 <= n < t.ctips.len() && #[trigger] t2.ctips[n] != t.ctips[n] implies t2.ctips[n] is Some
            && exists|k: int|
            1 <= k < block.txdata@.len() && #[trigger] ctip_made_by(block.txdata@[k], n, t2.ctips[n]->0) by {
        let k = choose|k: int| 0 <= k < txs.len() && #[trigger] ctip_made_by(txs[k], n, t2.ctips[n]->0);
        assert(block.txdata@[k + 1] == txs[k]);
    }
}

/// The transaction has an output of the full drivechain form for slot `n`.
pub open spec fn has_drivechain_output_for(tx: Transaction, n: int) -> bool {
    exists|w: int|
        0 <= w < tx.output@.len() && drivechain_well_formed(#[trigger] tx.output@[w].script_pubkey@)
            && tx.output@[w].script_pubkey@[2] as int == n
}

proof fn lemma_unspent_ctip_transactions(t: TablesV, txs: Seq<Transaction>, k: int, n: int)
    requires
        t.ctips.len() == SLOTS,
        0 <= k < txs.len(),
        0 <= n < SLOTS,
        has_drivechain_output_for(txs[k], n),
        match t.ctips[n] {
            Some(c) => !spends(txs[k], c.outpoint),
            None => true,
        },
        forall|j: int| 0 <= j < k ==> !has_drivechain_output_for(#[trigger] txs[j], n),
    ensures
        apply_transactions(t, txs) is Err,
    decreases txs.len(),
{
    let pre = txs.drop_last();
    if k < txs.len() - 1 {
        assert forall|j: int| 0 <= j < k implies !has_drivechain_output_for(#[trigger] pre[j], n) by {
            assert(pre[j] == txs[j]);
        }
        assert(pre[k] == txs[k]);
        lemma_unspent_ctip_transactions(t, pre, k, n);
    } else if apply_transactions(t, pre) is Ok {
        lemma_transactions_ctips(t, pre);
        let t1 = apply_transactions(t, pre)->Ok_0;
        if t1.ctips[n] != t.ctips[n] {
            let j = choose|j: int| 0 <= j < pre.len() && #[trigger] ctip_made_by(pre[j], n, t1.ctips[n]->0);
            assert(pre[j] == txs[j]);
            let c = t1.ctips[n]->0;
            let v = choose|v: int|
                0 <= v < pre[j].output@.len() && v as u32 == c.outpoint.vout && drivechain_well_formed(
                    #[trigger] pre[j].output@[v].script_pubkey@,
                ) && pre[j].output@[v].script_pubkey@[2] as int == n && pre[j].output@[v].value == c.value;
            assert(has_drivechain_output_for(txs[j], n));
        }
        let tx = txs[k];
        lemma_scan_found(tx.output@);
        let w = choose|w: int|
            0 <= w < tx.output@.len() && drivechain_well_formed(#[trigger] tx.output@[w].script_pubkey@)
                && tx.output@[w].script_pubkey@[2] as int == n;
        assert(is_drivechain_script(tx.output@[w].script_pubkey@));
        assert(txs.last() == tx);
    }
}

/// A block in which a non-coinbase transaction makes a drivechain output for
/// slot `n` without spending that slot's CTIP (or where the slot has no
/// CTIP), and no earlier transaction makes one for `n`, is refused; the
/// state is then left as it was (see `Bip300::connect_block`).
pub proof fn lemma_unspent_ctip_refused(t: TablesV, block: Block, height: u32, k: int, n: int)
    requires
        tables_wf(t),
        1 <= k < block.txdata@.len(),
        0 <= n < SLOTS,
        has_drivechain_output_for(block.txdata@[k], n),
        match t.ctips[n] {
            Some(c) => !spends(block.txdata@[k], c.outpoint),
            None => true,
        },
        forall|j: int| 1 <= j < k ==> !has_drivechain_output_for(#[trigger] block.txdata@[j], n),
    ensures
        connect_spec(t, block, height) is Err,
{
    match parse_outputs(block.txdata@[0].output@) {
        Ok(ms) => {
            if !has_duplicate_ack(ms) && !has_two_ack_bundles(ms) {
                lemma_messages_keep_ctips(t, ms, height);
                if apply_messages(t, ms, height) is Ok {
                    let t1 = apply_messages(t, ms, height)->Ok_0;
                    let txs = block.txdata@.subrange(1, block.txdata@.len() as int);
                    assert(txs[k - 1] == block.txdata@[k]);
                    assert forall|j: int| 0 <= j < k - 1 implies !has_drivechain_output_for(
                        #[trigger] txs[j],
                        n,
                    ) by {
                        assert(txs[j] == block.txdata@[j + 1]);
                    }
                    lemma_unspent_ctip_transactions(t1, txs, k - 1, n);
                }
            }
        },
        Err(_) => {},
    }
}

/// No pending proposal is keyed by the data hash of an activated sidechain.
pub open spec fn promotion_disjoint(t: TablesV) -> bool {
    forall|i: int, n: int|
        0 <= i < t.proposals.len() && 0 <= n < t.sidechains.len() && t.sidechains[n] is Some
            ==> #[trigger] t.proposals[i].0 != sha256d_of(#[trigger] t.sidechains[n]->0.data)
}

/// Every sidechain of `a` stands in the same slot of `b`.
pub open spec fn sidechains_kept(a: Seq<Option<SidechainV>>, b: Seq<Option<SidechainV>>) -> bool {
    &&& a.len() == b.len()
    &&& forall|n: int| 0 <= n < a.len() && #[trigger] a[n] is Some ==> b[n] == a[n]
}

/// No M1 of `ms` proposes data with the data hash of a sidechain in `sc`.
pub open spec fn no_reproposal(ms: Seq<MessageV>, sc: Seq<Option<SidechainV>>) -> bool {
    forall|i: int, n: int|
        0 <= i < ms.len() && 0 <= n < sc.len() && #[trigger] ms[i] is ProposeSidechain
            && #[trigger] sc[n] is Some ==> sha256d_of(ms[i]->ProposeSidechain_data) != sha256d_of(
            sc[n]->0.data,
        )
}

proof fn lemma_message_step(t: TablesV, m: MessageV, height: u32)
    requires
        tables_wf(t),
        apply_message(t, m, height) is Ok,
    ensures
        tables_wf(apply_message(t, m, height)->Ok_0),
        sidechains_kept(t.sidechains, apply_message(t, m, height)->Ok_0.sidechains),
        promotion_disjoint(t) && (m is ProposeSidechain ==> forall|n: int|
            0 <= n < t.sidechains.len() && #[trigger] t.sidechains[n] is Some ==> sha256d_of(
                m->ProposeSidechain_data,
            ) != sha256d_of(t.sidechains[n]->0.data)) ==> promotion_disjoint(
            apply_message(t, m, height)->Ok_0,
        ),
{
    let t2 = apply_message(t, m, height)->Ok_0;
    match m {
        MessageV::ProposeSidechain { sidechain_number, data } => {
            let h = sha256d_of(data);
            if key_index(t.proposals, h) is None {
                assert forall|a: int, b: int| 0 <= a < b < t2.proposals.len() implies #[trigger] t2.proposals[a].0
                    != #[trigger] t2.proposals[b].0 by {
                    if b == t.proposals.len() {
                        assert(t.proposals[a].0 != h);
                    }
                }
            }
        },
        MessageV::AckSidechain { sidechain_number, data_hash } => {
            match key_index(t.proposals, data_hash) {
                None => {},
                Some(x) => {
                    let p = t.proposals[x].1;
                    if p.sidechain_number == sidechain_number && t2.proposals.len() < t.proposals.len() {
                        assert forall|a: int, b: int| 0 <= a < b < t2.proposals.len() implies #[trigger] t2.proposals[a].0
                            != #[trigger] t2.proposals[b].0 by {
                            let aa = if a < x { a } else { a + 1 };
                            let bb = if b < x { b } else { b + 1 };
                            assert(t2.proposals[a] == t.proposals[aa]);
                            assert(t2.proposals[b] == t.proposals[bb]);
                            assert(t.proposals[aa].0 != t.proposals[bb].0);
                        }
                        assert forall|a: int| 0 <= a < t2.proposals.len() implies #[trigger] t2.proposals[a].0
                            == sha256d_of(t2.proposals[a].1.data) by {
                            let aa = if a < x { a } else { a + 1 };
                            assert(t2.proposals[a] == t.proposals[aa]);
                        }
                        if promotion_disjoint(t) {
                            assert forall|i: int, n: int|
                                0 <= i < t2.proposals.len() && 0 <= n < t2.sidechains.len()
                                    && t2.sidechains[n] is Some implies #[trigger] t2.proposals[i].0
                                != sha256d_of(#[trigger] t2.sidechains[n]->0.data) by {
                                let ii = if i < x { i } else { i + 1 };
                                assert(t2.proposals[i] == t.proposals[ii]);
                                if n == sidechain_number as int && t.sidechains[n] is None {
                                    assert(t.proposals[x].0 == sha256d_of(p.data));
                                    assert(t.proposals[ii].0 != t.proposals[x].0);
                                } else {
                                    assert(t2.sidechains[n] == t.sidechains[n]);
                                }
                            }
                        }
                    } else if p.sidechain_number == sidechain_number {
                        assert forall|a: int, b: int| 0 <= a < b < t2.proposals.len() implies #[trigger] t2.proposals[a].0
                            != #[trigger] t2.proposals[b].0 by {
                            assert(t.proposals[a].0 != t.proposals[b].0);
                        }
                        assert forall|a: int| 0 <= a < t2.proposals.len() implies #[trigger] t2.proposals[a].0
                            == sha256d_of(t2.proposals[a].1.data) by {
                            assert(t.proposals[a].0 == sha256d_of(t.proposals[a].1.data));
                        }
                    }
                },
            }
        },
        _ => {},
    }
}

proof fn lemma_messages_wf(t: TablesV, ms: Seq<MessageV>, height: u32)
    requires
        tables_wf(t),
        apply_messages(t, ms, height) is Ok,
    ensures
        tables_wf(apply_messages(t, ms, height)->Ok_0),
        sidechains_kept(t.sidechains, apply_messages(t, ms, height)->Ok_0.sidechains),
    decreases ms.len(),
{
    if ms.len() > 0 {
        lemma_messages_wf(t, ms.drop_last(), height);
        let t1 = apply_messages(t, ms.drop_last(), height)->Ok_0;
        lemma_message_step(t1, ms.last(), height);
    }
}

proof fn lemma_messages_disjoint(
    t: TablesV,
    ms: Seq<MessageV>,
    height: u32,
    fin: Seq<Option<SidechainV>>,
)
    requires
        tables_wf(t),
        promotion_disjoint(t),
        apply_messages(t, ms, height) is Ok,
        sidechains_kept(apply_messages(t, ms, height)->Ok_0.sidechains, fin),
        no_reproposal(ms, fin),
    ensures
        promotion_disjoint(apply_messages(t, ms, height)->Ok_0),
    decreases ms.len(),
{
    if ms.len() > 0 {
        let pre = ms.drop_last();
        lemma_messages_wf(t, pre, height);
        let t1 = apply_messages(t, pre, height)->Ok_0;
        let m = ms.last();
        lemma_message_step(t1, m, height);
        let t2 = apply_messages(t, ms, height)->Ok_0;
        assert(sidechains_kept(t1.sidechains, fin)) by {
            assert forall|n: int| 0 <= n < t1.sidechains.len() && #[trigger] t1.sidechains[n] is Some implies fin[n]
                == t1.sidechains[n] by {
                assert(t2.sidechains[n] == t1.sidechains[n]);
            }
        }
        assert(no_reproposal(pre, fin)) by {
            assert forall|i: int, n: int|
                0 <= i < pre.len() && 0 <= n < fin.len() && #[trigger] pre[i] is ProposeSidechain
                    && #[trigger] fin[n] is Some implies sha256d_of(pre[i]->ProposeSidechain_data)
                != sha256d_of(fin[n]->0.data) by {
                assert(ms[i] == pre[i]);
            }
        }
        lemma_messages_disjoint(t, pre, height, fin);
        if m is ProposeSidechain {
            assert forall|n: int| 0 <= n < t1.sidechains.len() && #[trigger] t1.sidechains[n] is Some implies sha256d_of(
                m->ProposeSidechain_data,
            ) != sha256d_of(t1.sidechains[n]->0.data) by {
                assert(fin[n] == t1.sidechains[n]);
                assert(ms[ms.len() - 1] == m);
            }
        }
    }
}

proof fn lemma_transactions_keep(t: TablesV, txs: Seq<Transaction>)
    requires
        apply_transactions(t, txs) is Ok,
    ensures
        apply_transactions(t, txs)->Ok_0.proposals == t.proposals,
        apply_transactions(t, txs)->Ok_0.sidechains == t.sidechains,
        apply_transactions(t, txs)->Ok_0.bundles == t.bundles,
    decreases txs.len(),
{
    if txs.len() > 0 {
        lemma_transactions_keep(t, txs.drop_last());
    }
}

/// After a connected block no pending proposal is keyed by the data hash of
/// an activated sidechain, provided this held before and the block does not
/// propose again the data of a sidechain that is active after it.
pub proof fn lemma_promotion_disjoint(t: TablesV, block: Block, height: u32)
    requires
        tables_wf(t),
        promotion_disjoint(t),
        block.txdata@.len() >= 1,
        connect_spec(t, block, height) is Ok,
        no_reproposal(
            parse_outputs(block.txdata@[0].output@)->Ok_0,
            connect_spec(t, block, height)->Ok_0.sidechains,
        ),
    ensures
        tables_wf(connect_spec(t, block, height)->Ok_0),
        promotion_disjoint(connect_spec(t, block, height)->Ok_0),
{
    let ms = parse_outputs(block.txdata@[0].output@)->Ok_0;
    let t1 = apply_messages(t, ms, height)->Ok_0;
    let txs = block.txdata@.subrange(1, block.txdata@.len() as int);
    let t2 = connect_spec(t, block, height)->Ok_0;
    assert(t2 == apply_transactions(t1, txs)->Ok_0);
    lemma_messages_wf(t, ms, height);
    lemma_transactions_keep(t1, txs);
    lemma_transactions_ctips(t1, txs);
    lemma_messages_disjoint(t, ms, height, t2.sidechains);
}

/// `m` is an M4 whose vote for slot `s` is the alarm.
pub open spec fn is_alarm_for(m: MessageV, s: int) -> bool {
    match m {
        MessageV::OneByte { upvotes } => s < upvotes.len() && upvotes[s] == ALARM_ONE_BYTE,
        MessageV::TwoBytes { upvotes } => s < upvotes.len() && upvotes[s] == ALARM_TWO_BYTES,
        _ => false,
    }
}

/// `m` is an M3 for slot `s`.
pub open spec fn proposes_bundle_for(m: MessageV, s: int) -> bool {
    match m {
        MessageV::ProposeBundle { sidechain_number, .. } => sidechain_number as int == s,
        _ => false,
    }
}

proof fn lemma_messages_bundle_slot(
    t: TablesV,
    ms: Seq<MessageV>,
    height: u32,
    s: int,
    l: Seq<BundleV>,
)
    requires
        t.bundles.len() == SLOTS,
        0 <= s < SLOTS,
        t.bundles[s] == Some(l),
        apply_messages(t, ms, height) is Ok,
        !has_two_ack_bundles(ms),
        forall|i: int| 0 <= i < ms.len() && #[trigger] is_ack_bundles(ms[i]) ==> is_alarm_for(ms[i], s),
        forall|i: int| 0 <= i < ms.len() ==> !proposes_bundle_for(#[trigger] ms[i], s),
    ensures
        apply_messages(t, ms, height)->Ok_0.bundles.len() == SLOTS,
        apply_messages(t, ms, height)->Ok_0.bundles[s] == if exists|i: int|
            0 <= i < ms.len() && #[trigger] is_ack_bundles(ms[i]) {
            Some(vote_bundles(l, true, 0))
        } else {
            Some(l)
        },
    decreases ms.len(),
{
    if ms.len() > 0 {
        let pre = ms.drop_last();
        let m = ms.last();
        assert(m == ms[ms.len() - 1]);
        assert forall|i: int| 0 <= i < pre.len() implies #[trigger] pre[i] == ms[i] by {}
        assert(!has_two_ack_bundles(pre)) by {
            if has_two_ack_bundles(pre) {
                let (a, b) = choose|a: int, b: int|
                    0 <= a < b < pre.len() && #[trigger] is_ack_bundles(pre[a]) && #[trigger] is_ack_bundles(pre[b]);
                assert(is_ack_bundles(ms[a]) && is_ack_bundles(ms[b]));
            }
        }
        assert forall|i: int| 0 <= i < pre.len() && #[trigger] is_ack_bundles(pre[i]) implies is_alarm_for(pre[i], s) by {
            assert(is_ack_bundles(ms[i]));
        }
        assert forall|i: int| 0 <= i < pre.len() implies !proposes_bundle_for(#[trigger] pre[i], s) by {
            assert(!proposes_bundle_for(ms[i], s));
        }
        lemma_messages_bundle_slot(t, pre, height, s, l);
        let t1 = apply_messages(t, pre, height)->Ok_0;
        if is_ack_bundles(m) {
            assert(is_alarm_for(m, s));
            if exists|i: int| 0 <= i < pre.len() && #[trigger] is_ack_bundles(pre[i]) {
                let i = choose|i: int| 0 <= i < pre.len() && #[trigger] is_ack_bundles(pre[i]);
                assert(is_ack_bundles(ms[i]) && is_ack_bundles(ms[ms.len() - 1]));
            }
            assert(exists|i: int| 0 <= i < ms.len() && #[trigger] is_ack_bundles(ms[i]));
        } else {
            assert(!proposes_bundle_for(ms[ms.len() - 1], s));
            if exists|i: int| 0 <= i < ms.len() && #[trigger] is_ack_bundles(ms[i]) {
                let i = choose|i: int| 0 <= i < ms.len() && #[trigger] is_ack_bundles(ms[i]);
                assert(i < pre.len());
                assert(is_ack_bundles(pre[i]));
            }
        }
    }
}

/// A connected block whose one M4 raises the alarm for slot `s`, and which
/// proposes no bundle for `s`, lowers every bundle of `s` by one vote and
/// leaves a bundle at zero votes at zero.
pub proof fn lemma_alarm_in_block(t: TablesV, block: Block, height: u32, s: int)
    requires
        tables_wf(t),
        block.txdata@.len() >= 1,
        connect_spec(t, block, height) is Ok,
        0 <= s < SLOTS,
        t.bundles[s] is Some,
        exists|i: int|
            0 <= i < parse_outputs(block.txdata@[0].output@)->Ok_0.len() && is_alarm_for(
                #[trigger] parse_outputs(block.txdata@[0].output@)->Ok_0[i],
                s,
            ),
        forall|i: int|
            0 <= i < parse_outputs(block.txdata@[0].output@)->Ok_0.len() ==> !proposes_bundle_for(
                #[trigger] parse_outputs(block.txdata@[0].output@)->Ok_0[i],
                s,
            ),
    ensures
        ({
            let l = t.bundles[s]->0;
            let l2 = connect_spec(t, block, height)->Ok_0.bundles[s];
            &&& l2 is Some
            &&& l2->0.len() == l.len()
            &&& forall|j: int|
                0 <= j < l.len() ==> (#[trigger] l2->0[j]).bundle_txid == l[j].bundle_txid
                    && l2->0[j].vote_count == sat_dec(l[j].vote_count)
                    && (l[j].vote_count == 0 ==> l2->0[j].vote_count == 0)
        }),
{
    let ms = parse_outputs(block.txdata@[0].output@)->Ok_0;
    let l = t.bundles[s]->0;
    let a = choose|i: int| 0 <= i < ms.len() && #[trigger] is_alarm_for(ms[i], s);
    assert(is_alarm_for(ms[a], s));
    assert(is_ack_bundles(ms[a]));
    assert forall|i: int| 0 <= i < ms.len() && #[trigger] is_ack_bundles(ms[i]) implies is_alarm_for(ms[i], s) by {
        if i != a {
            if i < a {
                assert(is_ack_bundles(ms[i]) && is_ack_bundles(ms[a]));
            } else {
                assert(is_ack_bundles(ms[a]) && is_ack_bundles(ms[i]));
            }
        }
    }
    lemma_messages_bundle_slot(t, ms, height, s, l);
    let t1 = apply_messages(t, ms, height)->Ok_0;
    let txs = block.txdata@.subrange(1, block.txdata@.len() as int);
    lemma_transactions_keep(t1, txs);
    assert(connect_spec(t, block, height)->Ok_0 == apply_transactions(t1, txs)->Ok_0);
}

/// The proposal keyed by `h`, if any.
pub open spec fn proposal_of(t: TablesV, h: Seq<u8>) -> Option<ProposalV> {
    match key_index(t.proposals, h) {
        Some(i) => Some(t.proposals[i].1),
        None => None,
    }
}

/// The messages hold the M2 for slot `sn` and hash `h`.
pub open spec fn has_ack_for(ms: Seq<MessageV>, sn: u8, h: Seq<u8>) -> bool {
    exists|i: int|
        0 <= i < ms.len() && #[trigger] ms[i] == MessageV::AckSidechain {
            sidechain_number: sn,
            data_hash: h,
        }
}

proof fn lemma_first_key_exists(ps: Seq<(Seq<u8>, ProposalV)>, i: int, h: Seq<u8>)
    requires
        0 <= i < ps.len(),
        ps[i].0 == h,
    ensures
        exists|c: int| 0 <= c < ps.len() && ps[c].0 == h && forall|j: int| 0 <= j < c ==> ps[j].0 != h,
    decreases i,
{
    if exists|j: int| 0 <= j < i && ps[j].0 == h {
        let j = choose|j: int| 0 <= j < i && ps[j].0 == h;
        lemma_first_key_exists(ps, j, h);
    } else {
        assert(forall|j: int| 0 <= j < i ==> ps[j].0 != h);
    }
}

proof fn lemma_key_index_at(ps: Seq<(Seq<u8>, ProposalV)>, i: int, h: Seq<u8>)
    requires
        forall|a: int, b: int| 0 <= a < b < ps.len() ==> #[trigger] ps[a].0 != #[trigger] ps[b].0,
        0 <= i < ps.len(),
        ps[i].0 == h,
    ensures
        key_index(ps, h) == Some(i),
{
    lemma_first_key_exists(ps, i, h);
    let c = choose|c: int| 0 <= c < ps.len() && ps[c].0 == h && forall|j: int| 0 <= j < c ==> ps[j].0 != h;
    if i < c {
        assert(ps[i].0 != ps[c].0);
    } else if c < i {
        assert(ps[c].0 != ps[i].0);
    }
}

proof fn lemma_key_index_found(ps: Seq<(Seq<u8>, ProposalV)>, h: Seq<u8>)
    ensures
        key_index(ps, h) is Some ==> 0 <= key_index(ps, h)->0 < ps.len() && ps[key_index(ps, h)->0].0
            == h,
{
    if exists|i: int| 0 <= i < ps.len() && ps[i].0 == h {
        let i = choose|i: int| 0 <= i < ps.len() && ps[i].0 == h;
        lemma_first_key_exists(ps, i, h);
    }
}

#[verifier::rlimit(80)]
proof fn lemma_ack_step_m2(t: TablesV, sn: u8, dh: Seq<u8>, height: u32, h: Seq<u8>)
    requires
        tables_wf(t),
        key_index(apply_ack_sidechain(t, sn, dh, height).proposals, h) is Some,
    ensures
        ({
            let t2 = apply_ack_sidechain(t, sn, dh, height);
            let j = key_index(t2.proposals, h)->0;
            let p = t.proposals[key_index(t.proposals, h)->0].1;
            &&& key_index(t.proposals, h) is Some
            &&& t2.proposals[j].1.sidechain_number == p.sidechain_number
            &&& t2.proposals[j].1.vote_count == if sn == p.sidechain_number && dh == h {
                sat_inc(p.vote_count)
            } else {
                p.vote_count
            }
        }),
{
    let t2 = apply_ack_sidechain(t, sn, dh, height);
    lemma_key_index_found(t2.proposals, h);
    let j = key_index(t2.proposals, h)->0;
    lemma_key_index_found(t.proposals, dh);
    match key_index(t.proposals, dh) {
        None => {
            lemma_key_index_at(t.proposals, j, h);
        },
        Some(x) => {
            if t2.proposals.len() < t.proposals.len() {
                let jj = if j < x { j } else { j + 1 };
                assert(t2.proposals[j] == t.proposals[jj]);
                assert(t.proposals[jj].0 != t.proposals[x].0);
                lemma_key_index_at(t.proposals, jj, h);
            } else if j != x {
                assert(t2.proposals[j] == t.proposals[j]);
                assert(t.proposals[j].0 != t.proposals[x].0);
                lemma_key_index_at(t.proposals, j, h);
            } else {
                lemma_key_index_at(t.proposals, j, h);
            }
        },
    }
}

#[verifier::rlimit(80)]
proof fn lemma_ack_step(t: TablesV, m: MessageV, height: u32, h: Seq<u8>)
    requires
        tables_wf(t),
        apply_message(t, m, height) is Ok,
        m is ProposeSidechain ==> sha256d_of(m->ProposeSidechain_data) != h,
    ensures
        proposal_of(apply_message(t, m, height)->Ok_0, h) is Some ==> {
            let p = proposal_of(t, h)->0;
            let q = proposal_of(apply_message(t, m, height)->Ok_0, h)->0;
            &&& proposal_of(t, h) is Some
            &&& q.sidechain_number == p.sidechain_number
            &&& q.vote_count == if m == (MessageV::AckSidechain {
                sidechain_number: p.sidechain_number,
                data_hash: h,
            }) {
                sat_inc(p.vote_count)
            } else {
                p.vote_count
            }
        },
{
    let t2 = apply_message(t, m, height)->Ok_0;
    lemma_key_index_found(t2.proposals, h);
    if key_index(t2.proposals, h) is Some {
        let j = key_index(t2.proposals, h)->0;
        match m {
            MessageV::ProposeSidechain { sidechain_number, data } => {
                if t2.proposals.len() > t.proposals.len() {
                    assert(t2.proposals[j] == t.proposals[j]);
                }
                lemma_key_index_at(t.proposals, j, h);
            },
            MessageV::AckSidechain { sidechain_number, data_hash } => {
                lemma_ack_step_m2(t, sidechain_number, data_hash, height, h);
            },
            _ => {
                lemma_key_index_at(t.proposals, j, h);
            },
        }
    }
}

proof fn lemma_ack_messages(t: TablesV, ms: Seq<MessageV>, height: u32, h: Seq<u8>, p: ProposalV)
    requires
        tables_wf(t),
        proposal_of(t, h) == Some(p),
        apply_messages(t, ms, height) is Ok,
        !has_duplicate_ack(ms),
        forall|i: int|
            0 <= i < ms.len() && #[trigger] ms[i] is ProposeSidechain ==> sha256d_of(
                ms[i]->ProposeSidechain_data,
            ) != h,
    ensures
        proposal_of(apply_messages(t, ms, height)->Ok_0, h) is Some ==> {
            let q = proposal_of(apply_messages(t, ms, height)->Ok_0, h)->0;
            &&& q.sidechain_number == p.sidechain_number
            &&& q.vote_count == if has_ack_for(ms, p.sidechain_number, h) {
                sat_inc(p.vote_count)
            } else {
                p.vote_count
            }
        },
    decreases ms.len(),
{
    if ms.len() > 0 {
        let pre = ms.drop_last();
        let m = ms.last();
        let last = ms.len() - 1;
        assert(m == ms[last]);
        assert forall|i: int| 0 <= i < pre.len() implies #[trigger] pre[i] == ms[i] by {}
        assert(!has_duplicate_ack(pre)) by {
            if has_duplicate_ack(pre) {
                let (a, b) = choose|a: int, b: int|
                    0 <= a < b < pre.len() && pre[a] is AckSidechain && #[trigger] pre[a] == #[trigger] pre[b];
                assert(ms[a] == ms[b]);
            }
        }
        assert forall|i: int| 0 <= i < pre.len() && #[trigger] pre[i] is ProposeSidechain implies sha256d_of(
            pre[i]->ProposeSidechain_data,
        ) != h by {
            assert(ms[i] is ProposeSidechain);
        }
        lemma_ack_messages(t, pre, height, h, p);
        lemma_messages_wf(t, pre, height);
        let t1 = apply_messages(t, pre, height)->Ok_0;
        lemma_ack_step(t1, m, height, h);
        let ack = MessageV::AckSidechain { sidechain_number: p.sidechain_number, data_hash: h };
        if m == ack {
            if has_ack_for(pre, p.sidechain_number, h) {
                let i = choose|i: int| 0 <= i < pre.len() && #[trigger] pre[i] == ack;
                assert(ms[i] == ms[last]);
            }
            assert(ms[last] == ack);
        } else {
            if has_ack_for(ms, p.sidechain_number, h) {
                let i = choose|i: int| 0 <= i < ms.len() && #[trigger] ms[i] == ack;
                assert(i != last);
                assert(pre[i] == ack);
            }
            if has_ack_for(pre, p.sidechain_number, h) {
                let i = choose|i: int| 0 <= i < pre.len() && #[trigger] pre[i] == ack;
                assert(ms[i] == ack);
            }
        }
    }
}

/// Across a connected block a proposal's vote count never goes down and
/// rises by at most one: by one (stopping at the largest count) when the
/// coinbase holds the M2 naming its slot and data hash, and not at all
/// otherwise, provided no M1 of the block proposes data with that hash.
pub proof fn lemma_block_vote_monotone(t: TablesV, block: Block, height: u32, h: Seq<u8>)
    requires
        tables_wf(t),
        block.txdata@.len() >= 1,
        connect_spec(t, block, height) is Ok,
        proposal_of(t, h) is Some,
        forall|i: int|
            0 <= i < parse_outputs(block.txdata@[0].output@)->Ok_0.len() && (
            #[trigger] parse_outputs(block.txdata@[0].output@)->Ok_0[i]) is ProposeSidechain
                ==> sha256d_of(
                parse_outputs(block.txdata@[0].output@)->Ok_0[i]->ProposeSidechain_data,
            ) != h,
    ensures
        proposal_of(connect_spec(t, block, height)->Ok_0, h) is Some ==> {
            let p = proposal_of(t, h)->0;
            let q = proposal_of(connect_spec(t, block, height)->Ok_0, h)->0;
            &&& q.sidechain_number == p.sidechain_number
            &&& q.vote_count == if has_ack_for(
                parse_outputs(block.txdata@[0].output@)->Ok_0,
                p.sidechain_number,
                h,
            ) {
                sat_inc(p.vote_count)
            } else {
                p.vote_count
            }
        },
{
    let ms = parse_outputs(block.txdata@[0].output@)->Ok_0;
    let p = proposal_of(t, h)->0;
    lemma_ack_messages(t, ms, height, h, p);
    let t1 = apply_messages(t, ms, height)->Ok_0;
    let txs = block.txdata@.subrange(1, block.txdata@.len() as int);
    lemma_transactions_keep(t1, txs);
    assert(connect_spec(t, block, height)->Ok_0 == apply_transactions(t1, txs)->Ok_0);
}

/// A found drivechain output is in range and has the full form.
pub proof fn lemma_scan_found(outs: Seq<TxOut>)
    ensures
        match scan_outputs(outs) {
            Ok(Some(v)) => 0 <= v < outs.len() && drivechain_well_formed(outs[v].script_pubkey@)
                && forall|w: int|
                0 <= w < outs.len() && w != v ==> !is_drivechain_script(
                    #[trigger] outs[w].script_pubkey@,
                ),
            Ok(None) => forall|w: int|
                0 <= w < outs.len() ==> !is_drivechain_script(#[trigger] outs[w].script_pubkey@),
            _ => true,
        },
    decreases outs.len(),
{
    if outs.len() > 0 {
        let pre = outs.drop_last();
        lemma_scan_found(pre);
        let last = outs.len() - 1;
        assert(outs.last() == outs[last]);
        match scan_outputs(pre) {
            Ok(Some(v)) => {
                if !is_drivechain_script(outs[last].script_pubkey@) {
                    assert forall|w: int| 0 <= w < outs.len() && w != v implies !is_drivechain_script(
                        #[trigger] outs[w].script_pubkey@,
                    ) by {
                        if w < last {
                            assert(pre[w] == outs[w]);
                        }
                    }
                }
            },
            Ok(None) => {
                assert forall|w: int| 0 <= w < last implies !is_drivechain_script(
                    #[trigger] outs[w].script_pubkey@,
                ) by {
                    assert(pre[w] == outs[w]);
                }
            },
            Err(_) => {},
        }
    }
}

/// Some input of the transaction spends `o`.
pub open spec fn spends(tx: Transaction, o: OutPoint) -> bool {
    exists|i: int| 0 <= i < tx.input@.len() && tx.input@[i] == o
}

/// The CTIP transition that one non-coinbase transaction makes.
pub open spec fn apply_transaction(t: TablesV, tx: Transaction) -> Result<TablesV, BlockError> {
    match scan_outputs(tx.output@) {
        Err(e) => Err(e),
        Ok(None) => Ok(t),
        Ok(Some(v)) => {
            let out = tx.output@[v];
            let sn = out.script_pubkey@[2];
            match t.ctips[sn as int] {
                None => Err(
                    BlockError::InvariantViolation(Violation::MissingCtip { sidechain_number: sn }),
                ),
                Some(old) => if !spends(tx, old.outpoint) {
                    Err(
                        BlockError::InvariantViolation(
                            Violation::CtipNotSpent { sidechain_number: sn },
                        ),
                    )
                } else if out.value >= old.value {
                    Ok(
                        TablesV {
                            ctips: t.ctips.update(
                                sn as int,
                                Some(
                                    Ctip {
                                        outpoint: OutPoint { txid: tx.txid, vout: v as u32 },
                                        value: out.value,
                                    },
                                ),
                            ),
                            ..t
                        },
                    )
                } else {
                    Err(BlockError::Unimplemented(Unsupported::Withdrawal))
                },
            }
        },
    }
}

/// The transactions in order, applied one after another.
pub open spec fn apply_transactions(t: TablesV, txs: Seq<Transaction>) -> Result<TablesV, BlockError>
    decreases txs.len(),
{
    if txs.len() == 0 {
        Ok(t)
    } else {
        match apply_transactions(t, txs.drop_last()) {
            Ok(t1) => apply_transaction(t1, txs.last()),
            Err(e) => Err(e),
        }
    }
}

/// The tables after connecting `block` at `height`, or why it is refused.
pub open spec fn connect_spec(t: TablesV, block: Block, height: u32) -> Result<TablesV, BlockError> {
    match parse_outputs(block.txdata@[0].output@) {
        Err(e) => Err(BlockError::Parse(e)),
        Ok(ms) => if has_duplicate_ack(ms) {
            Err(BlockError::InvariantViolation(Violation::DuplicateAckSidechain))
        } else if has_two_ack_bundles(ms) {
            Err(BlockError::InvariantViolation(Violation::MultipleAckBundles))
        } else {
            match apply_messages(t, ms, height) {
                Ok(t1) => apply_transactions(t1, block.txdata@.subrange(1, block.txdata@.len() as int)),
                Err(e) => Err(e),
            }
        },
    }
}

} // verus!
