use vstd::prelude::*;
use crate::codec::{
    copy_bytes, CoinbaseMessage, M4AckBundles, ABSTAIN_ONE_BYTE, ABSTAIN_TWO_BYTES, ALARM_ONE_BYTE,
    ALARM_TWO_BYTES,
};
use crate::hash::{sha256d, sha256d_of};
use crate::state::{
    apply_ack_sidechain, apply_message, apply_propose_bundle, apply_propose_sidechain,
    apply_transaction, apply_upvotes, key_index, lemma_scan_found, proposal_failed,
    proposal_succeeded, sat_inc, scan_outputs, tables_wf, vote_bundles, BlockError, TablesV,
    Unsupported, Violation, OP_DRIVECHAIN, OP_PUSHBYTES_1, OP_TRUE, SLOTS, UNUSED_MAX_AGE,
    UNUSED_THRESHOLD, USED_MAX_AGE, USED_THRESHOLD,
};
use crate::types::{
    hash_eq, outpoint_eq, Bundle, BundleV, Ctip, Hash256, OutPoint, ProposalV, Sidechain,
    SidechainProposal, SidechainV, Transaction, TxOut,
};

verus! {

/// A row of `proposal_by_datahash`.
#[derive(Clone, Debug)]
pub struct ProposalEntry {
    pub data_hash: Hash256,
    pub proposal: SidechainProposal,
}

/// The tables of the BIP300 state, held in memory.
pub struct Tables {
    proposals: Vec<ProposalEntry>,
    sidechains: Vec<Option<Sidechain>>,
    bundles: Vec<Option<Vec<Bundle>>>,
    ctips: Vec<Option<Ctip>>,
    previous_votes: Vec<Hash256>,
    leading_by_50: Vec<Hash256>,
}

pub open spec fn entry_view(e: ProposalEntry) -> (Seq<u8>, ProposalV) {
    (e.data_hash@, e.proposal@)
}

pub open spec fn sidechain_slot_view(o: Option<Sidechain>) -> Option<SidechainV> {
    match o {
        Some(s) => Some(s@),
        None => None,
    }
}

pub open spec fn bundle_list_view(l: Seq<Bundle>) -> Seq<BundleV> {
    l.map_values(|b: Bundle| b@)
}

pub open spec fn bundle_slot_view(o: Option<Vec<Bundle>>) -> Option<Seq<BundleV>> {
    match o {
        Some(l) => Some(bundle_list_view(l@)),
        None => None,
    }
}

pub open spec fn hashes_view(v: Seq<Hash256>) -> Seq<Seq<u8>> {
    v.map_values(|h: Hash256| h@)
}

/// The state with every table empty.
pub open spec fn empty_tables() -> TablesV {
    TablesV {
        proposals: Seq::empty(),
        sidechains: Seq::new(SLOTS as nat, |i: int| None),
        bundles: Seq::new(SLOTS as nat, |i: int| None),
        ctips: Seq::new(SLOTS as nat, |i: int| None),
        previous_votes: Seq::empty(),
        leading_by_50: Seq::empty(),
    }
}

impl View for Tables {
    type V = TablesV;

    closed spec fn view(&self) -> TablesV {
        TablesV {
            proposals: self.proposals@.map_values(|e: ProposalEntry| entry_view(e)),
            sidechains: self.sidechains@.map_values(|o: Option<Sidechain>| sidechain_slot_view(o)),
            bundles: self.bundles@.map_values(|o: Option<Vec<Bundle>>| bundle_slot_view(o)),
            ctips: self.ctips@,
            previous_votes: hashes_view(self.previous_votes@),
            leading_by_50: hashes_view(self.leading_by_50@),
        }
    }
}

fn copy_proposal(p: &SidechainProposal) -> (r: SidechainProposal)
    ensures
        r@ == p@,
{
    SidechainProposal {
        sidechain_number: p.sidechain_number,
        data: copy_bytes(&p.data),
        vote_count: p.vote_count,
        proposal_height: p.proposal_height,
    }
}

fn copy_sidechain(s: &Sidechain) -> (r: Sidechain)
    ensures
        r@ == s@,
{
    Sidechain {
        sidechain_number: s.sidechain_number,
        data: copy_bytes(&s.data),
        vote_count: s.vote_count,
        proposal_height: s.proposal_height,
        activation_height: s.activation_height,
    }
}

fn copy_bundles(l: &Vec<Bundle>) -> (r: Vec<Bundle>)
    ensures
        r@ == l@,
{
    let mut r: Vec<Bundle> = Vec::new();
    let mut i: usize = 0;
    while i < l.len()
        invariant
            i <= l@.len(),
            r@ == l@.subrange(0, i as int),
        decreases l@.len() - i,
    {
        r.push(l[i]);
        i = i + 1;
        assert(r@ =~= l@.subrange(0, i as int));
    }
    assert(r@ =~= l@);
    r
}

fn copy_hashes(l: &Vec<Hash256>) -> (r: Vec<Hash256>)
    ensures
        r@ == l@,
{
    let mut r: Vec<Hash256> = Vec::new();
    let mut i: usize = 0;
    while i < l.len()
        invariant
            i <= l@.len(),
            r@ == l@.subrange(0, i as int),
        decreases l@.len() - i,
    {
        r.push(l[i]);
        i = i + 1;
        assert(r@ =~= l@.subrange(0, i as int));
    }
    assert(r@ =~= l@);
    r
}

fn vote_list(l: &Vec<Bundle>, alarm: bool, index: u16) -> (r: Vec<Bundle>)
    ensures
        bundle_list_view(r@) == vote_bundles(bundle_list_view(l@), alarm, index as int),
{
    let ghost target = vote_bundles(bundle_list_view(l@), alarm, index as int);
    if alarm {
        let mut r: Vec<Bundle> = Vec::new();
        let mut k: usize = 0;
        while k < l.len()
            invariant
                k <= l@.len(),
                r@.len() == k,
                target.len() == l@.len(),
                target == vote_bundles(bundle_list_view(l@), alarm, index as int),
                alarm,
                forall|j: int| 0 <= j < k ==> #[trigger] r@[j]@ == target[j],
            decreases l@.len() - k,
        {
            let b = l[k];
            let vote_count = if b.vote_count == 0 {
                0
            } else {
                b.vote_count - 1
            };
            r.push(Bundle { bundle_txid: b.bundle_txid, vote_count });
            k = k + 1;
        }
        assert(bundle_list_view(r@) =~= target);
        r
    } else {
        let mut r = copy_bundles(l);
        let ix = index as usize;
        if ix < r.len() {
            let b = r[ix];
            let vote_count = if b.vote_count == u16::MAX {
                b.vote_count
            } else {
                b.vote_count + 1
            };
            r[ix] = Bundle { bundle_txid: b.bundle_txid, vote_count };
        }
        assert(bundle_list_view(r@) =~= target);
        r
    }
}

fn widen_votes(upvotes: &Vec<u8>) -> (r: Vec<u16>)
    ensures
        r@.map_values(|v: u16| v as int) == upvotes@.map_values(|v: u8| v as int),
{
    let mut r: Vec<u16> = Vec::new();
    let mut i: usize = 0;
    while i < upvotes.len()
        invariant
            i <= upvotes@.len(),
            r@.len() == i,
            forall|k: int| 0 <= k < i ==> #[trigger] r@[k] as int == upvotes@[k] as int,
        decreases upvotes@.len() - i,
    {
        r.push(upvotes[i] as u16);
        i = i + 1;
    }
    assert(r@.map_values(|v: u16| v as int) =~= upvotes@.map_values(|v: u8| v as int));
    r
}

/// Finds the one drivechain output of a transaction.
pub fn scan_drivechain_outputs(outs: &Vec<TxOut>) -> (r: Result<Option<usize>, BlockError>)
    ensures
        match r {
            Ok(Some(v)) => scan_outputs(outs@) == Ok::<Option<int>, BlockError>(Some(v as int)),
            Ok(None) => scan_outputs(outs@) == Ok::<Option<int>, BlockError>(None),
            Err(e) => scan_outputs(outs@) == Err::<Option<int>, BlockError>(e),
        },
{
    let mut state: Result<Option<usize>, BlockError> = Ok(None);
    let mut i: usize = 0;
    while i < outs.len()
        invariant
            i <= outs@.len(),
            match state {
                Ok(Some(v)) => v < i && scan_outputs(outs@.subrange(0, i as int)) == Ok::<
                    Option<int>,
                    BlockError,
                >(Some(v as int)),
                Ok(None) => scan_outputs(outs@.subrange(0, i as int)) == Ok::<Option<int>, BlockError>(
                    None,
                ),
                Err(e) => scan_outputs(outs@.subrange(0, i as int)) == Err::<Option<int>, BlockError>(
                    e,
                ),
            },
        decreases outs@.len() - i,
    {
        let ghost prefix = outs@.subrange(0, i as int + 1);
        assert(prefix.drop_last() =~= outs@.subrange(0, i as int));
        assert(prefix.last() == outs@[i as int]);
        let s = &outs[i].script_pubkey;
        if let Ok(found) = state {
            if s.len() >= 1 && s[0] == OP_DRIVECHAIN {
                if found.is_some() {
                    state = Err(BlockError::InvariantViolation(Violation::MultipleDrivechainOutputs));
                } else if !(s.len() >= 4 && s[1] == OP_PUSHBYTES_1 && s[3] == OP_TRUE) {
                    state = Err(BlockError::InvalidDrivechainOutput);
                } else {
                    state = Ok(Some(i));
                }
            }
        }
        i = i + 1;
    }
    assert(outs@.subrange(0, outs@.len() as int) =~= outs@);
    state
}

impl Tables {
    /// Every table empty.
    pub fn new() -> (r: Tables)
        ensures
            r@ == empty_tables(),
            tables_wf(r@),
    {
        let mut sidechains: Vec<Option<Sidechain>> = Vec::new();
        let mut bundles: Vec<Option<Vec<Bundle>>> = Vec::new();
        let mut ctips: Vec<Option<Ctip>> = Vec::new();
        let mut i: usize = 0;
        while i < SLOTS
            invariant
                i <= SLOTS,
                sidechains@.len() == i,
                bundles@.len() == i,
                ctips@.len() == i,
                forall|k: int| 0 <= k < i ==> sidechains@[k] is None,
                forall|k: int| 0 <= k < i ==> bundles@[k] is None,
                forall|k: int| 0 <= k < i ==> ctips@[k] is None,
            decreases SLOTS - i,
        {
            sidechains.push(None);
            bundles.push(None);
            ctips.push(None);
            i = i + 1;
        }
        let r = Tables {
            proposals: Vec::new(),
            sidechains,
            bundles,
            ctips,
            previous_votes: Vec::new(),
            leading_by_50: Vec::new(),
        };
        assert(r@.proposals =~= empty_tables().proposals);
        assert(r@.sidechains =~= empty_tables().sidechains);
        assert(r@.bundles =~= empty_tables().bundles);
        assert(r@.ctips =~= empty_tables().ctips);
        assert(r@.previous_votes =~= empty_tables().previous_votes);
        assert(r@.leading_by_50 =~= empty_tables().leading_by_50);
        r
    }

    /// Position of the proposal keyed by `h`.
    pub fn find_proposal(&self, h: &Hash256) -> (r: Option<usize>)
        ensures
            match r {
                Some(i) => i < self@.proposals.len() && key_index(self@.proposals, h@) == Some(i as int),
                None => key_index(self@.proposals, h@) is None,
            },
    {
        let ghost ps = self@.proposals;
        let mut i: usize = 0;
        while i < self.proposals.len()
            invariant
                i <= self.proposals@.len(),
                ps == self@.proposals,
                ps.len() == self.proposals@.len(),
                forall|j: int| 0 <= j < i ==> ps[j].0 != h@,
            decreases self.proposals@.len() - i,
        {
            if hash_eq(&self.proposals[i].data_hash, h) {
                proof {
                    assert(ps[i as int].0 == h@);
                    let c = choose|c: int|
                        0 <= c < ps.len() && ps[c].0 == h@ && forall|j: int|
                            0 <= j < c ==> ps[j].0 != h@;
                    assert(0 <= c < ps.len() && ps[c].0 == h@ && forall|j: int|
                        0 <= j < c ==> ps[j].0 != h@);
                    if c < i {
                    } else if c > i {
                        assert(ps[i as int].0 != h@);
                    }
                }
                return Some(i);
            }
            i = i + 1;
        }
        None
    }

    /// M1: propose a sidechain.
    pub fn propose_sidechain(&mut self, sidechain_number: u8, data: &Vec<u8>, height: u32)
        requires
            tables_wf(old(self)@),
        ensures
            final(self)@ == apply_propose_sidechain(old(self)@, sidechain_number, data@, height),
            tables_wf(final(self)@),
    {
        let h = sha256d(data.as_slice());
        if self.find_proposal(&h).is_some() {
            return;
        }
        let proposal = SidechainProposal {
            sidechain_number,
            data: copy_bytes(data),
            vote_count: 0,
            proposal_height: height,
        };
        self.proposals.push(ProposalEntry { data_hash: h, proposal });
        proof {
            let t = final(self)@;
            let o = old(self)@;
            assert(t.proposals =~= apply_propose_sidechain(o, sidechain_number, data@, height).proposals);
            assert forall|i: int, j: int| 0 <= i < j < t.proposals.len() implies #[trigger] t.proposals[i].0
                != #[trigger] t.proposals[j].0 by {
                if j == t.proposals.len() - 1 {
                    assert(o.proposals[i].0 != h@);
                }
            }
        }
    }

    /// M2: ack a proposal, then expire or activate it.
    pub fn ack_sidechain(&mut self, sidechain_number: u8, data_hash: &Hash256, height: u32)
        requires
            tables_wf(old(self)@),
        ensures
            final(self)@ == apply_ack_sidechain(old(self)@, sidechain_number, data_hash@, height),
            tables_wf(final(self)@),
    {
        let ghost o = self@;
        let i = match self.find_proposal(data_hash) {
            Some(i) => i,
            None => return,
        };
        if self.proposals[i].proposal.sidechain_number != sidechain_number {
            return;
        }
        let old_vote = self.proposals[i].proposal.vote_count;
        let vote = if old_vote == u16::MAX {
            old_vote
        } else {
            old_vote + 1
        };
        let proposal_height = self.proposals[i].proposal.proposal_height;
        let used = self.sidechains[sidechain_number as usize].is_some();
        let failed = if used {
            height > proposal_height && height - proposal_height > USED_MAX_AGE && vote
                <= USED_THRESHOLD
        } else {
            height > proposal_height && height - proposal_height > UNUSED_MAX_AGE && vote
                <= UNUSED_THRESHOLD
        };
        let succeeded = if used {
            vote > USED_THRESHOLD
        } else {
            vote > UNUSED_THRESHOLD
        };
        let ghost p2 = ProposalV { vote_count: sat_inc(o.proposals[i as int].1.vote_count), ..o.proposals[i as int].1 };
        assert(p2.vote_count == vote);
        assert(failed == proposal_failed(p2, used, height));
        assert(succeeded == proposal_succeeded(p2, used));
        if failed {
            self.proposals.remove(i);
            proof {
                assert(self@.proposals =~= o.proposals.remove(i as int));
            }
        } else if succeeded && !used {
            let e = self.proposals.remove(i);
            let s = Sidechain {
                sidechain_number: e.proposal.sidechain_number,
                data: e.proposal.data,
                vote_count: vote,
                proposal_height,
                activation_height: height,
            };
            self.sidechains[sidechain_number as usize] = Some(s);
            if self.bundles[sidechain_number as usize].is_none() {
                self.bundles[sidechain_number as usize] = Some(Vec::new());
            }
            proof {
                let t = apply_ack_sidechain(o, sidechain_number, data_hash@, height);
                assert(self@.proposals =~= t.proposals);
                assert(self@.sidechains =~= t.sidechains);
                assert(bundle_list_view(Seq::<Bundle>::empty()) =~= Seq::<BundleV>::empty());
                assert(self@.bundles =~= t.bundles);
            }
        } else {
            self.proposals[i].proposal.vote_count = vote;
            proof {
                let t = apply_ack_sidechain(o, sidechain_number, data_hash@, height);
                assert(self@.proposals =~= t.proposals);
            }
        }
        proof {
            let t = self@;
            assert forall|a: int, b: int| 0 <= a < b < t.proposals.len() implies #[trigger] t.proposals[a].0
                != #[trigger] t.proposals[b].0 by {
                if failed || (succeeded && !used) {
                    if a >= i {
                        assert(o.proposals[a + 1].0 != o.proposals[b + 1].0);
                    } else if b >= i {
                        assert(o.proposals[a].0 != o.proposals[b + 1].0);
                    } else {
                        assert(o.proposals[a].0 != o.proposals[b].0);
                    }
                } else {
                    assert(o.proposals[a].0 != o.proposals[b].0);
                }
            }
            assert forall|a: int| 0 <= a < t.proposals.len() implies #[trigger] t.proposals[a].0
                == sha256d_of(t.proposals[a].1.data) by {
                if failed || (succeeded && !used) {
                    if a >= i {
                        assert(o.proposals[a + 1].0 == sha256d_of(o.proposals[a + 1].1.data));
                    } else {
                        assert(o.proposals[a].0 == sha256d_of(o.proposals[a].1.data));
                    }
                } else {
                    assert(o.proposals[a].0 == sha256d_of(o.proposals[a].1.data));
                }
            }
        }
    }

    /// M3: append a bundle to an activated slot.
    pub fn propose_bundle(&mut self, sidechain_number: u8, bundle_txid: &Hash256)
        requires
            tables_wf(old(self)@),
        ensures
            final(self)@ == apply_propose_bundle(old(self)@, sidechain_number, bundle_txid@),
            tables_wf(final(self)@),
    {
        let ghost o = self@;
        let n = sidechain_number as usize;
        let updated = match &self.bundles[n] {
            Some(l) => {
                let mut l2 = copy_bundles(l);
                l2.push(Bundle { bundle_txid: *bundle_txid, vote_count: 0 });
                l2
            },
            None => return,
        };
        let ghost uv = updated@;
        let ghost before = self.bundles@;
        self.bundles[n] = Some(updated);
        proof {
            let t = apply_propose_bundle(o, sidechain_number, bundle_txid@);
            assert(bundle_list_view(uv) =~= t.bundles[n as int]->0);
            assert(self.bundles@ == before.update(n as int, Some(updated)));
            assert(self@.bundles[n as int] == Some(bundle_list_view(uv)));
            assert(self@.bundles =~= t.bundles);
        }
    }

    /// M4 with explicit votes: entry `i` of `votes` is sidechain `i`'s vote.
    pub fn apply_votes(&mut self, votes: &Vec<u16>, abstain: u16, alarm: u16)
        requires
            tables_wf(old(self)@),
        ensures
            final(self)@ == (TablesV {
                bundles: apply_upvotes(
                    old(self)@.bundles,
                    votes@.map_values(|v: u16| v as int),
                    abstain as int,
                    alarm as int,
                ),
                ..old(self)@
            }),
            tables_wf(final(self)@),
    {
        let ghost o = self@;
        let ghost vs = votes@.map_values(|v: u16| v as int);
        let ghost target = apply_upvotes(o.bundles, vs, abstain as int, alarm as int);
        let mut i: usize = 0;
        while i < SLOTS && i < votes.len()
            invariant
                i <= SLOTS,
                self.bundles@.len() == SLOTS,
                o.bundles.len() == SLOTS,
                target == apply_upvotes(o.bundles, vs, abstain as int, alarm as int),
                vs == votes@.map_values(|v: u16| v as int),
                self@ == (TablesV { bundles: self@.bundles, ..o }),
                forall|k: int| 0 <= k < i ==> #[trigger] self@.bundles[k] == target[k],
                forall|k: int| i <= k < SLOTS ==> #[trigger] self@.bundles[k] == o.bundles[k],
            decreases SLOTS - i,
        {
            let v = votes[i];
            let ghost before = self@.bundles;
            assert(vs[i as int] == v as int);
            if v != abstain {
                let updated = match &self.bundles[i] {
                    Some(l) => Some(vote_list(l, v == alarm, v)),
                    None => None,
                };
                match updated {
                    Some(u) => {
                        let ghost uv = u@;
                        self.bundles[i] = Some(u);
                        assert(self@.bundles =~= before.update(i as int, Some(bundle_list_view(uv))));
                    },
                    None => {},
                }
            }
            proof {
                assert(before[i as int] == o.bundles[i as int]);
                if v == abstain {
                    assert(self@.bundles[i as int] == before[i as int]);
                } else if o.bundles[i as int] is None {
                    assert(self@.bundles[i as int] == before[i as int]);
                } else {
                    assert(self@.bundles[i as int] == Some(vote_bundles(o.bundles[i as int]->0, v == alarm, v as int)));
                }
            }
            assert(self@.bundles[i as int] == target[i as int]);
            i = i + 1;
        }
        assert(self@.bundles =~= target);
    }

    /// The effect of one coinbase message; on an error nothing changes.
    pub fn apply_message(&mut self, m: &CoinbaseMessage, height: u32) -> (r: Result<(), BlockError>)
        requires
            tables_wf(old(self)@),
        ensures
            tables_wf(final(self)@),
            match apply_message(old(self)@, m@, height) {
                Ok(t) => r is Ok && final(self)@ == t,
                Err(e) => r == Err::<(), BlockError>(e) && final(self)@ == old(self)@,
            },
    {
        match m {
            CoinbaseMessage::M1ProposeSidechain { sidechain_number, data } => {
                self.propose_sidechain(*sidechain_number, data, height);
                Ok(())
            },
            CoinbaseMessage::M2AckSidechain { sidechain_number, data_hash } => {
                self.ack_sidechain(*sidechain_number, data_hash, height);
                Ok(())
            },
            CoinbaseMessage::M3ProposeBundle { sidechain_number, bundle_txid } => {
                self.propose_bundle(*sidechain_number, bundle_txid);
                Ok(())
            },
            CoinbaseMessage::M4AckBundles(M4AckBundles::OneByte { upvotes }) => {
                let votes = widen_votes(upvotes);
                self.apply_votes(&votes, ABSTAIN_ONE_BYTE as u16, ALARM_ONE_BYTE as u16);
                Ok(())
            },
            CoinbaseMessage::M4AckBundles(M4AckBundles::TwoBytes { upvotes }) => {
                self.apply_votes(upvotes, ABSTAIN_TWO_BYTES, ALARM_TWO_BYTES);
                Ok(())
            },
            CoinbaseMessage::M4AckBundles(M4AckBundles::RepeatPrevious) => Err(
                BlockError::Unimplemented(Unsupported::RepeatPrevious),
            ),
            CoinbaseMessage::M4AckBundles(M4AckBundles::LeadingBy50) => Err(
                BlockError::Unimplemented(Unsupported::LeadingBy50),
            ),
        }
    }

    /// The CTIP transition of one non-coinbase transaction; on an error
    /// nothing changes.
    pub fn apply_transaction(&mut self, tx: &Transaction) -> (r: Result<(), BlockError>)
        requires
            tables_wf(old(self)@),
        ensures
            tables_wf(final(self)@),
            match apply_transaction(old(self)@, *tx) {
                Ok(t) => r is Ok && final(self)@ == t,
                Err(e) => r == Err::<(), BlockError>(e) && final(self)@ == old(self)@,
            },
    {
        let v = match scan_drivechain_outputs(&tx.output) {
            Err(e) => return Err(e),
            Ok(None) => return Ok(()),
            Ok(Some(v)) => v,
        };
        proof {
            lemma_scan_found(tx.output@);
        }
        let out = &tx.output[v];
        let sidechain_number = out.script_pubkey[2];
        let old_ctip = match self.ctips[sidechain_number as usize] {
            None => return Err(BlockError::InvariantViolation(Violation::MissingCtip { sidechain_number })),
            Some(c) => c,
        };
        let mut spent = false;
        let mut k: usize = 0;
        while k < tx.input.len()
            invariant
                k <= tx.input@.len(),
                spent == exists|j: int| 0 <= j < k && tx.input@[j] == old_ctip.outpoint,
            decreases tx.input@.len() - k,
        {
            if outpoint_eq(&tx.input[k], &old_ctip.outpoint) {
                spent = true;
            }
            k = k + 1;
        }
        if !spent {
            return Err(BlockError::InvariantViolation(Violation::CtipNotSpent { sidechain_number }));
        }
        if out.value >= old_ctip.value {
            let ghost o = self@;
            self.ctips[sidechain_number as usize] = Some(
                Ctip { outpoint: OutPoint { txid: tx.txid, vout: v as u32 }, value: out.value },
            );
            assert(self@.ctips =~= apply_transaction(o, *tx)->Ok_0.ctips);
            Ok(())
        } else {
            Err(BlockError::Unimplemented(Unsupported::Withdrawal))
        }
    }

    /// The activated sidechain in slot `n`.
    pub fn sidechain(&self, n: u8) -> (r: Option<Sidechain>)
        requires
            tables_wf(self@),
        ensures
            sidechain_slot_view(r) == self@.sidechains[n as int],
    {
        match &self.sidechains[n as usize] {
            Some(s) => Some(copy_sidechain(s)),
            None => None,
        }
    }

    /// The CTIP of slot `n`.
    pub fn ctip(&self, n: u8) -> (r: Option<Ctip>)
        requires
            tables_wf(self@),
        ensures
            r == self@.ctips[n as int],
    {
        self.ctips[n as usize]
    }

    /// The bundle list of slot `n`.
    pub fn bundles(&self, n: u8) -> (r: Option<Vec<Bundle>>)
        requires
            tables_wf(self@),
        ensures
            bundle_slot_view(r) == self@.bundles[n as int],
    {
        match &self.bundles[n as usize] {
            Some(l) => Some(copy_bundles(l)),
            None => None,
        }
    }

    /// The proposal keyed by `data_hash`.
    pub fn proposal(&self, data_hash: &Hash256) -> (r: Option<SidechainProposal>)
        ensures
            match key_index(self@.proposals, data_hash@) {
                Some(i) => r is Some && r->0@ == self@.proposals[i].1,
                None => r is None,
            },
    {
        match self.find_proposal(data_hash) {
            Some(i) => Some(copy_proposal(&self.proposals[i].proposal)),
            None => None,
        }
    }

    /// Number of pending proposals.
    pub fn proposal_count(&self) -> (r: usize)
        ensures
            r == self@.proposals.len(),
    {
        self.proposals.len()
    }

    /// The `i`-th pending proposal and its key, in insertion order.
    pub fn proposal_entry(&self, i: usize) -> (r: &ProposalEntry)
        requires
            i < self@.proposals.len(),
        ensures
            entry_view(*r) == self@.proposals[i as int],
    {
        &self.proposals[i]
    }

    /// Puts a stored sidechain back into its slot.
    pub fn restore_sidechain(&mut self, sidechain: Sidechain)
        requires
            tables_wf(old(self)@),
        ensures
            tables_wf(final(self)@),
            final(self)@ == (TablesV {
                sidechains: old(self)@.sidechains.update(
                    sidechain.sidechain_number as int,
                    Some(sidechain@),
                ),
                ..old(self)@
            }),
    {
        let ghost o = self@;
        let ghost v = sidechain@;
        let n = sidechain.sidechain_number as usize;
        self.sidechains[n] = Some(sidechain);
        assert(self@.sidechains =~= o.sidechains.update(n as int, Some(v)));
    }

    /// Puts a stored CTIP back into slot `n`, which holds a sidechain.
    pub fn restore_ctip(&mut self, n: u8, ctip: Ctip)
        requires
            tables_wf(old(self)@),
            old(self)@.sidechains[n as int] is Some,
        ensures
            tables_wf(final(self)@),
            final(self)@ == (TablesV {
                ctips: old(self)@.ctips.update(n as int, Some(ctip)),
                ..old(self)@
            }),
    {
        self.ctips[n as usize] = Some(ctip);
    }

    /// Puts a stored bundle list back into slot `n`.
    pub fn restore_bundles(&mut self, n: u8, bundles: Vec<Bundle>)
        requires
            tables_wf(old(self)@),
        ensures
            tables_wf(final(self)@),
            final(self)@ == (TablesV {
                bundles: old(self)@.bundles.update(n as int, Some(bundle_list_view(bundles@))),
                ..old(self)@
            }),
    {
        let ghost o = self@;
        let ghost v = bundles@;
        self.bundles[n as usize] = Some(bundles);
        assert(self@.bundles =~= o.bundles.update(n as int, Some(bundle_list_view(v))));
    }

    /// Puts a stored proposal back, keyed by the hash of its data; one with
    /// the same key is replaced.
    pub fn restore_proposal(&mut self, proposal: SidechainProposal)
        requires
            tables_wf(old(self)@),
        ensures
            tables_wf(final(self)@),
            final(self)@ == (TablesV {
                proposals: match key_index(old(self)@.proposals, sha256d_of(proposal@.data)) {
                    Some(i) => old(self)@.proposals.update(i, (sha256d_of(proposal@.data), proposal@)),
                    None => old(self)@.proposals.push((sha256d_of(proposal@.data), proposal@)),
                },
                ..old(self)@
            }),
    {
        let ghost o = self@;
        let ghost pv = proposal@;
        let h = sha256d(proposal.data.as_slice());
        match self.find_proposal(&h) {
            Some(i) => {
                self.proposals[i] = ProposalEntry { data_hash: h, proposal };
                proof {
                    assert(self@.proposals =~= o.proposals.update(i as int, (h@, pv)));
                    let t = self@;
                    assert forall|a: int, b: int| 0 <= a < b < t.proposals.len() implies #[trigger] t.proposals[a].0
                        != #[trigger] t.proposals[b].0 by {
                        assert(o.proposals[a].0 != o.proposals[b].0);
                    }
                }
            },
            None => {
                self.proposals.push(ProposalEntry { data_hash: h, proposal });
                proof {
                    assert(self@.proposals =~= o.proposals.push((h@, pv)));
                    let t = self@;
                    assert forall|a: int, b: int| 0 <= a < b < t.proposals.len() implies #[trigger] t.proposals[a].0
                        != #[trigger] t.proposals[b].0 by {
                        if b == t.proposals.len() - 1 {
                            assert(o.proposals[a].0 != h@);
                        }
                    }
                }
            },
        }
    }

    /// A copy with the same contents.
    pub fn duplicate(&self) -> (r: Tables)
        ensures
            r@ == self@,
    {
        let mut proposals: Vec<ProposalEntry> = Vec::new();
        let mut i: usize = 0;
        while i < self.proposals.len()
            invariant
                i <= self.proposals@.len(),
                proposals@.len() == i,
                forall|k: int|
                    0 <= k < i ==> #[trigger] entry_view(proposals@[k]) == entry_view(
                        self.proposals@[k],
                    ),
            decreases self.proposals@.len() - i,
        {
            let e = &self.proposals[i];
            proposals.push(ProposalEntry { data_hash: e.data_hash, proposal: copy_proposal(&e.proposal) });
            i = i + 1;
        }
        let mut sidechains: Vec<Option<Sidechain>> = Vec::new();
        let mut bundles: Vec<Option<Vec<Bundle>>> = Vec::new();
        let mut j: usize = 0;
        while j < self.sidechains.len()
            invariant
                j <= self.sidechains@.len(),
                sidechains@.len() == j,
                forall|k: int|
                    0 <= k < j ==> #[trigger] sidechain_slot_view(sidechains@[k])
                        == sidechain_slot_view(self.sidechains@[k]),
            decreases self.sidechains@.len() - j,
        {
            match &self.sidechains[j] {
                Some(s) => sidechains.push(Some(copy_sidechain(s))),
                None => sidechains.push(None),
            }
            j = j + 1;
        }
        let mut k: usize = 0;
        while k < self.bundles.len()
            invariant
                k <= self.bundles@.len(),
                bundles@.len() == k,
                forall|m: int|
                    0 <= m < k ==> #[trigger] bundle_slot_view(bundles@[m]) == bundle_slot_view(
                        self.bundles@[m],
                    ),
            decreases self.bundles@.len() - k,
        {
            match &self.bundles[k] {
                Some(l) => {
                    bundles.push(Some(copy_bundles(l)));
                },
                None => bundles.push(None),
            }
            k = k + 1;
        }
        let r = Tables {
            proposals,
            sidechains,
            bundles,
            ctips: self.ctips.clone(),
            previous_votes: copy_hashes(&self.previous_votes),
            leading_by_50: copy_hashes(&self.leading_by_50),
        };
        assert(r@.proposals =~= self@.proposals);
        assert(r@.sidechains =~= self@.sidechains);
        assert(r@.bundles =~= self@.bundles);
        assert(r@.ctips =~= self@.ctips);
        r
    }
}

} // verus!
