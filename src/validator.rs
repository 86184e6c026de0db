use vstd::prelude::*;
use crate::codec::{parse, CoinbaseMessage, MessageV, ParseError};
use crate::state::{
    apply_messages, apply_transaction, apply_transactions, connect_spec, has_duplicate_ack,
    has_two_ack_bundles, is_ack_bundles, parse_outputs, tables_wf, BlockError, TablesV, Violation,
};
use crate::tables::Tables;
use crate::types::{hash_eq, Block, Hash256, Transaction, TxOut};

verus! {

/// Model of the validator: the tables and, for each connected block not yet
/// disconnected, its hash and the tables as they were before it.
pub struct Bip300V {
    pub tables: TablesV,
    pub undo: Seq<(Seq<u8>, TablesV)>,
}

pub open spec fn bip300_wf(s: Bip300V) -> bool {
    &&& tables_wf(s.tables)
    &&& forall|i: int| 0 <= i < s.undo.len() ==> tables_wf(#[trigger] s.undo[i].1)
}

/// The state after connecting `block` at `height`.
pub open spec fn connect_state(s: Bip300V, block: Block, height: u32) -> Result<Bip300V, BlockError> {
    match connect_spec(s.tables, block, height) {
        Ok(t) => Ok(Bip300V { tables: t, undo: s.undo.push((block.block_hash@, s.tables)) }),
        Err(e) => Err(e),
    }
}

/// The state after disconnecting `block`, which must be the last one connected.
pub open spec fn disconnect_state(s: Bip300V, block: Block) -> Result<Bip300V, BlockError> {
    if s.undo.len() > 0 && s.undo.last().0 == block.block_hash@ {
        Ok(Bip300V { tables: s.undo.last().1, undo: s.undo.drop_last() })
    } else {
        Err(BlockError::NotTip)
    }
}

/// The undo record of one connected block.
pub struct UndoRecord {
    pub block_hash: Hash256,
    pub tables: Tables,
}

/// The BIP300 validator state.
pub struct Bip300 {
    tables: Tables,
    undo: Vec<UndoRecord>,
}

impl View for Bip300 {
    type V = Bip300V;

    closed spec fn view(&self) -> Bip300V {
        Bip300V {
            tables: self.tables@,
            undo: self.undo@.map_values(|u: UndoRecord| (u.block_hash@, u.tables@)),
        }
    }
}

/// Parses every coinbase output; the first failure is returned.
pub fn parse_coinbase(outs: &Vec<TxOut>) -> (r: Result<Vec<CoinbaseMessage>, ParseError>)
    ensures
        match r {
            Ok(ms) => parse_outputs(outs@) == Ok::<Seq<MessageV>, ParseError>(
                ms@.map_values(|m: CoinbaseMessage| m@),
            ),
            Err(e) => parse_outputs(outs@) == Err::<Seq<MessageV>, ParseError>(e),
        },
{
    let mut ms: Vec<CoinbaseMessage> = Vec::new();
    let mut err: Option<ParseError> = None;
    let mut i: usize = 0;
    assert(outs@.subrange(0, 0) =~= Seq::<TxOut>::empty());
    assert(ms@.map_values(|m: CoinbaseMessage| m@) =~= Seq::<MessageV>::empty());
    while i < outs.len()
        invariant
            i <= outs@.len(),
            match err {
                None => parse_outputs(outs@.subrange(0, i as int)) == Ok::<Seq<MessageV>, ParseError>(
                    ms@.map_values(|m: CoinbaseMessage| m@),
                ),
                Some(e) => parse_outputs(outs@.subrange(0, i as int)) == Err::<
                    Seq<MessageV>,
                    ParseError,
                >(e),
            },
        decreases outs@.len() - i,
    {
        let ghost prefix = outs@.subrange(0, i as int + 1);
        assert(prefix.drop_last() =~= outs@.subrange(0, i as int));
        assert(prefix.last() == outs@[i as int]);
        if err.is_none() {
            match parse(outs[i].script_pubkey.as_slice()) {
                Ok(m) => {
                    let ghost before = ms@.map_values(|m: CoinbaseMessage| m@);
                    ms.push(m);
                    assert(ms@.map_values(|m: CoinbaseMessage| m@) =~= before.push(m@));
                },
                Err(e) => {
                    err = Some(e);
                },
            }
        }
        i = i + 1;
    }
    assert(outs@.subrange(0, outs@.len() as int) =~= outs@);
    match err {
        None => Ok(ms),
        Some(e) => Err(e),
    }
}

fn same_ack(a: &CoinbaseMessage, b: &CoinbaseMessage) -> (r: bool)
    ensures
        r == (a@ is AckSidechain && a@ == b@),
{
    match (a, b) {
        (
            CoinbaseMessage::M2AckSidechain { sidechain_number: n1, data_hash: h1 },
            CoinbaseMessage::M2AckSidechain { sidechain_number: n2, data_hash: h2 },
        ) => *n1 == *n2 && hash_eq(h1, h2),
        _ => false,
    }
}

fn is_m4(m: &CoinbaseMessage) -> (r: bool)
    ensures
        r == is_ack_bundles(m@),
{
    match m {
        CoinbaseMessage::M4AckBundles(_) => true,
        _ => false,
    }
}

/// The rule that a coinbase's messages break as a whole, if any.
pub fn find_conflict(ms: &Vec<CoinbaseMessage>) -> (r: Option<Violation>)
    ensures
        r == (if has_duplicate_ack(ms@.map_values(|m: CoinbaseMessage| m@)) {
            Some(Violation::DuplicateAckSidechain)
        } else if has_two_ack_bundles(ms@.map_values(|m: CoinbaseMessage| m@)) {
            Some(Violation::MultipleAckBundles)
        } else {
            None
        }),
{
    let ghost v = ms@.map_values(|m: CoinbaseMessage| m@);
    let mut dup = false;
    let mut seen_m4 = false;
    let mut two_m4 = false;
    let mut j: usize = 0;
    while j < ms.len()
        invariant
            j <= ms@.len(),
            v == ms@.map_values(|m: CoinbaseMessage| m@),
            dup == exists|a: int, b: int|
                0 <= a < b < j && v[a] is AckSidechain && #[trigger] v[a] == #[trigger] v[b],
            seen_m4 == exists|a: int| 0 <= a < j && #[trigger] is_ack_bundles(v[a]),
            two_m4 == exists|a: int, b: int|
                0 <= a < b < j && #[trigger] is_ack_bundles(v[a]) && #[trigger] is_ack_bundles(
                    v[b],
                ),
        decreases ms@.len() - j,
    {
        let ghost old_dup = dup;
        let ghost old_seen = seen_m4;
        let ghost old_two = two_m4;
        let this_m4 = is_m4(&ms[j]);
        if this_m4 {
            if seen_m4 {
                two_m4 = true;
            }
            seen_m4 = true;
        }
        let mut found = false;
        let mut i: usize = 0;
        while i < j
            invariant
                i <= j < ms@.len(),
                v == ms@.map_values(|m: CoinbaseMessage| m@),
                found == exists|a: int| 0 <= a < i && v[a] is AckSidechain && #[trigger] v[a] == v[j as int],
            decreases j - i,
        {
            let same = same_ack(&ms[i], &ms[j]);
            proof {
                if same {
                    assert(v[i as int] is AckSidechain && v[i as int] == v[j as int]);
                }
            }
            if same {
                found = true;
            }
            i = i + 1;
        }
        if found {
            dup = true;
        }
        proof {
            let jj = j as int;
            if found {
                let a = choose|a: int| 0 <= a < jj && v[a] is AckSidechain && #[trigger] v[a] == v[jj];
                assert(0 <= a < jj + 1 && v[a] is AckSidechain && v[a] == v[jj]);
            }
            if old_dup {
                let (a, b) = choose|a: int, b: int|
                    0 <= a < b < jj && v[a] is AckSidechain && #[trigger] v[a] == #[trigger] v[b];
                assert(0 <= a < b < jj + 1 && v[a] is AckSidechain && v[a] == v[b]);
            }
            if !dup {
                assert forall|a: int, b: int|
                    0 <= a < b < jj + 1 && v[a] is AckSidechain implies !(#[trigger] v[a] == #[trigger] v[b]) by {
                    if b < jj {
                    } else {
                        if v[a] == v[b] {
                            assert(0 <= a < jj && v[a] is AckSidechain && v[a] == v[jj]);
                        }
                    }
                }
            }
            if this_m4 {
                assert(is_ack_bundles(v[jj]));
            }
            if old_seen {
                let a = choose|a: int| 0 <= a < jj && #[trigger] is_ack_bundles(v[a]);
                assert(0 <= a < jj + 1 && is_ack_bundles(v[a]));
                if this_m4 {
                    assert(0 <= a < jj < jj + 1 && is_ack_bundles(v[a]) && is_ack_bundles(v[jj]));
                }
            }
            if old_two {
                let (a, b) = choose|a: int, b: int|
                    0 <= a < b < jj && #[trigger] is_ack_bundles(v[a]) && #[trigger] is_ack_bundles(v[b]);
                assert(0 <= a < b < jj + 1 && is_ack_bundles(v[a]) && is_ack_bundles(v[b]));
            }
            if !two_m4 {
                assert forall|a: int, b: int|
                    0 <= a < b < jj + 1 && #[trigger] is_ack_bundles(v[a]) implies !#[trigger] is_ack_bundles(v[b]) by {
                    if b == jj {
                        assert(0 <= a < jj && is_ack_bundles(v[a]));
                    }
                }
            }
            if !seen_m4 {
                assert forall|a: int| 0 <= a < jj + 1 implies !#[trigger] is_ack_bundles(v[a]) by {
                    if a < jj {
                    }
                }
            }
        }
        j = j + 1;
    }
    if dup {
        Some(Violation::DuplicateAckSidechain)
    } else if two_m4 {
        Some(Violation::MultipleAckBundles)
    } else {
        None
    }
}

/// Applies the coinbase messages in order; stops changing at the first error.
fn apply_message_list(t: &mut Tables, ms: &Vec<CoinbaseMessage>, height: u32) -> (r: Result<(), BlockError>)
    requires
        tables_wf(old(t)@),
    ensures
        tables_wf(final(t)@),
        match apply_messages(old(t)@, ms@.map_values(|m: CoinbaseMessage| m@), height) {
            Ok(t1) => r is Ok && final(t)@ == t1,
            Err(e) => r == Err::<(), BlockError>(e),
        },
{
    let ghost o = t@;
    let ghost v = ms@.map_values(|m: CoinbaseMessage| m@);
    let mut state: Result<(), BlockError> = Ok(());
    let mut i: usize = 0;
    assert(v.subrange(0, 0) =~= Seq::<MessageV>::empty());
    while i < ms.len()
        invariant
            i <= ms@.len(),
            v == ms@.map_values(|m: CoinbaseMessage| m@),
            tables_wf(t@),
            match apply_messages(o, v.subrange(0, i as int), height) {
                Ok(t1) => state is Ok && t@ == t1,
                Err(e) => state == Err::<(), BlockError>(e),
            },
        decreases ms@.len() - i,
    {
        let ghost prefix = v.subrange(0, i as int + 1);
        assert(prefix.drop_last() =~= v.subrange(0, i as int));
        assert(prefix.last() == ms@[i as int]@);
        if state.is_ok() {
            state = t.apply_message(&ms[i], height);
        }
        i = i + 1;
    }
    assert(v.subrange(0, ms@.len() as int) =~= v);
    state
}

/// Applies the non-coinbase transactions in order; stops changing at the first error.
fn apply_transaction_list(t: &mut Tables, txs: &Vec<Transaction>) -> (r: Result<(), BlockError>)
    requires
        tables_wf(old(t)@),
        txs@.len() >= 1,
    ensures
        tables_wf(final(t)@),
        match apply_transactions(old(t)@, txs@.subrange(1, txs@.len() as int)) {
            Ok(t1) => r is Ok && final(t)@ == t1,
            Err(e) => r == Err::<(), BlockError>(e),
        },
{
    let ghost o = t@;
    let mut state: Result<(), BlockError> = Ok(());
    let mut i: usize = 1;
    assert(txs@.subrange(1, 1) =~= Seq::<Transaction>::empty());
    while i < txs.len()
        invariant
            1 <= i <= txs@.len(),
            tables_wf(t@),
            match apply_transactions(o, txs@.subrange(1, i as int)) {
                Ok(t1) => state is Ok && t@ == t1,
                Err(e) => state == Err::<(), BlockError>(e),
            },
        decreases txs@.len() - i,
    {
        let ghost prefix = txs@.subrange(1, i as int + 1);
        assert(prefix.drop_last() =~= txs@.subrange(1, i as int));
        assert(prefix.last() == txs@[i as int]);
        if state.is_ok() {
            state = t.apply_transaction(&txs[i]);
        }
        i = i + 1;
    }
    state
}

/// Applies a whole block to the tables; on an error they may be partly changed.
fn apply_block(t: &mut Tables, block: &Block, height: u32) -> (r: Result<(), BlockError>)
    requires
        tables_wf(old(t)@),
        block.txdata@.len() >= 1,
    ensures
        tables_wf(final(t)@),
        match connect_spec(old(t)@, *block, height) {
            Ok(t1) => r is Ok && final(t)@ == t1,
            Err(e) => r == Err::<(), BlockError>(e),
        },
{
    let ms = match parse_coinbase(&block.txdata[0].output) {
        Ok(ms) => ms,
        Err(e) => return Err(BlockError::Parse(e)),
    };
    match find_conflict(&ms) {
        Some(v) => return Err(BlockError::InvariantViolation(v)),
        None => {},
    }
    match apply_message_list(t, &ms, height) {
        Ok(()) => {},
        Err(e) => return Err(e),
    }
    apply_transaction_list(t, &block.txdata)
}

/// Disconnecting a block right after connecting it gives back the state
/// from before the connect: every table and the undo log.
pub proof fn lemma_reorg_reversible(s: Bip300V, block: Block, height: u32)
    requires
        connect_state(s, block, height) is Ok,
    ensures
        disconnect_state(connect_state(s, block, height)->Ok_0, block) == Ok::<Bip300V, BlockError>(s),
{
    let s1 = connect_state(s, block, height)->Ok_0;
    assert(s1.undo.drop_last() =~= s.undo);
}

impl Bip300 {
    /// A validator with empty tables and no connected blocks.
    pub fn new() -> (r: Bip300)
        ensures
            r@.tables == crate::tables::empty_tables(),
            r@.undo.len() == 0,
            bip300_wf(r@),
    {
        Bip300 { tables: Tables::new(), undo: Vec::new() }
    }

    /// A validator over tables loaded from storage, with no undo records.
    pub fn from_tables(tables: Tables) -> (r: Bip300)
        requires
            tables_wf(tables@),
        ensures
            r@.tables == tables@,
            r@.undo.len() == 0,
            bip300_wf(r@),
    {
        let r = Bip300 { tables, undo: Vec::new() };
        assert(r@.undo =~= Seq::<(Seq<u8>, TablesV)>::empty());
        r
    }

    /// The current tables.
    pub fn tables(&self) -> (r: &Tables)
        ensures
            r@ == self@.tables,
    {
        &self.tables
    }

    /// Applies `block` at `height` all at once: on success the tables are
    /// those `connect_spec` gives and an undo record is kept; on an error
    /// nothing changes.
    pub fn connect_block(&mut self, block: &Block, height: u32) -> (r: Result<(), BlockError>)
        requires
            bip300_wf(old(self)@),
            block.txdata@.len() >= 1,
        ensures
            bip300_wf(final(self)@),
            match connect_state(old(self)@, *block, height) {
                Ok(s) => r is Ok && final(self)@ == s,
                Err(e) => r == Err::<(), BlockError>(e) && final(self)@ == old(self)@,
            },
    {
        let ghost o = self@;
        let snapshot = self.tables.duplicate();
        match apply_block(&mut self.tables, block, height) {
            Ok(()) => {
                self.undo.push(UndoRecord { block_hash: block.block_hash, tables: snapshot });
                proof {
                    assert(self@.undo =~= o.undo.push((block.block_hash@, o.tables)));
                    assert forall|i: int| 0 <= i < self@.undo.len() implies tables_wf(#[trigger] self@.undo[i].1) by {
                        if i < o.undo.len() {
                            assert(self@.undo[i] == o.undo[i]);
                        }
                    }
                }
                Ok(())
            },
            Err(e) => {
                self.tables = snapshot;
                Err(e)
            },
        }
    }

    /// Undoes the last connected block, which must be `block`.
    pub fn disconnect_block(&mut self, block: &Block) -> (r: Result<(), BlockError>)
        requires
            bip300_wf(old(self)@),
        ensures
            bip300_wf(final(self)@),
            match disconnect_state(old(self)@, *block) {
                Ok(s) => r is Ok && final(self)@ == s,
                Err(e) => r == Err::<(), BlockError>(e) && final(self)@ == old(self)@,
            },
    {
        let ghost o = self@;
        let n = self.undo.len();
        if n == 0 || !hash_eq(&self.undo[n - 1].block_hash, &block.block_hash) {
            return Err(BlockError::NotTip);
        }
        let record = self.undo.pop().unwrap();
        self.tables = record.tables;
        proof {
            assert(self@.undo =~= o.undo.drop_last());
            assert(tables_wf(o.undo[n - 1].1));
            assert forall|i: int| 0 <= i < self@.undo.len() implies tables_wf(#[trigger] self@.undo[i].1) by {
                assert(self@.undo[i] == o.undo[i]);
            }
        }
        Ok(())
    }

    /// Whether `block` at `height` would connect, without changing anything.
    pub fn is_block_valid(&self, block: &Block, height: u32) -> (r: Result<(), BlockError>)
        requires
            bip300_wf(self@),
            block.txdata@.len() >= 1,
        ensures
            match connect_spec(self@.tables, *block, height) {
                Ok(_) => r is Ok,
                Err(e) => r == Err::<(), BlockError>(e),
            },
    {
        let mut scratch = self.tables.duplicate();
        apply_block(&mut scratch, block, height)
    }

    /// Whether the CTIP rules accept `transaction` against the current tables.
    pub fn is_transaction_valid(&self, transaction: &Transaction) -> (r: Result<(), BlockError>)
        requires
            bip300_wf(self@),
        ensures
            match apply_transaction(self@.tables, *transaction) {
                Ok(_) => r is Ok,
                Err(e) => r == Err::<(), BlockError>(e),
            },
    {
        let mut scratch = self.tables.duplicate();
        scratch.apply_transaction(transaction)
    }
}

} // verus!
