use vstd::prelude::*;
use crate::codec::{copy_hash, copy_range, push_all};
use crate::types::{
    Bundle, BundleV, Ctip, Deposit, OutPoint, ProposalV, Sidechain, SidechainProposal,
    SidechainV,
};

verus! {

/// Big-endian bytes of a 32-bit integer.
pub open spec fn be_u32_bytes(x: u32) -> Seq<u8> {
    seq![(x >> 24u32) as u8, (x >> 16u32) as u8, (x >> 8u32) as u8, x as u8]
}

/// Big-endian bytes of a 64-bit integer.
pub open spec fn be_u64_bytes(x: u64) -> Seq<u8> {
    seq![
        (x >> 56u64) as u8, (x >> 48u64) as u8, (x >> 40u64) as u8, (x >> 32u64) as u8,
        (x >> 24u64) as u8, (x >> 16u64) as u8, (x >> 8u64) as u8, x as u8,
    ]
}

/// The 44-byte packing of a CTIP: txid, vout (big-endian), value (big-endian).
pub open spec fn ctip_bytes(c: Ctip) -> Seq<u8> {
    c.outpoint.txid@ + be_u32_bytes(c.outpoint.vout) + be_u64_bytes(c.value)
}

fn write_be_u32(out: &mut Vec<u8>, x: u32)
    ensures
        final(out)@ == old(out)@ + be_u32_bytes(x),
{
    out.push((x >> 24u32) as u8);
    out.push((x >> 16u32) as u8);
    out.push((x >> 8u32) as u8);
    out.push(x as u8);
    assert(final(out)@ =~= old(out)@ + be_u32_bytes(x));
}

/// The integer that four big-endian bytes hold.
pub open spec fn be_u32_of(s: Seq<u8>) -> u32 {
    ((s[0] as u32) << 24u32) | ((s[1] as u32) << 16u32) | ((s[2] as u32) << 8u32) | (s[3] as u32)
}

/// The integer that eight big-endian bytes hold.
pub open spec fn be_u64_of(s: Seq<u8>) -> u64 {
    ((s[0] as u64) << 56u64) | ((s[1] as u64) << 48u64) | ((s[2] as u64) << 40u64) | ((
    s[3] as u64) << 32u64) | ((s[4] as u64) << 24u64) | ((s[5] as u64) << 16u64) | ((s[6] as u64)
        << 8u64) | (s[7] as u64)
}

pub proof fn lemma_be_u32_round_trip(x: u32)
    ensures
        be_u32_of(be_u32_bytes(x)) == x,
{
    let b = be_u32_bytes(x);
    let (b0, b1, b2, b3) = (b[0], b[1], b[2], b[3]);
    assert(b0 == (x >> 24u32) as u8 && b1 == (x >> 16u32) as u8 && b2 == (x >> 8u32) as u8 && b3
        == x as u8);
    assert(((((x >> 24u32) as u8) as u32) << 24u32) | ((((x >> 16u32) as u8) as u32) << 16u32) | ((
    ((x >> 8u32) as u8) as u32) << 8u32) | ((x as u8) as u32) == x) by (bit_vector);
}

pub proof fn lemma_be_u64_round_trip(x: u64)
    ensures
        be_u64_of(be_u64_bytes(x)) == x,
{
    let b = be_u64_bytes(x);
    assert(b[0] == (x >> 56u64) as u8 && b[1] == (x >> 48u64) as u8 && b[2] == (x >> 40u64) as u8
        && b[3] == (x >> 32u64) as u8 && b[4] == (x >> 24u64) as u8 && b[5] == (x >> 16u64) as u8
        && b[6] == (x >> 8u64) as u8 && b[7] == x as u8);
    assert(((((x >> 56u64) as u8) as u64) << 56u64) | ((((x >> 48u64) as u8) as u64) << 48u64) | ((
    ((x >> 40u64) as u8) as u64) << 40u64) | ((((x >> 32u64) as u8) as u64) << 32u64) | ((((x
        >> 24u64) as u8) as u64) << 24u64) | ((((x >> 16u64) as u8) as u64) << 16u64) | ((((x
        >> 8u64) as u8) as u64) << 8u64) | ((x as u8) as u64) == x) by (bit_vector);
}

fn write_be_u64(out: &mut Vec<u8>, x: u64)
    ensures
        final(out)@ == old(out)@ + be_u64_bytes(x),
{
    out.push((x >> 56u64) as u8);
    out.push((x >> 48u64) as u8);
    out.push((x >> 40u64) as u8);
    out.push((x >> 32u64) as u8);
    out.push((x >> 24u64) as u8);
    out.push((x >> 16u64) as u8);
    out.push((x >> 8u64) as u8);
    out.push(x as u8);
    assert(final(out)@ =~= old(out)@ + be_u64_bytes(x));
}

fn read_be_u32(s: &[u8], at: usize) -> (r: u32)
    requires
        at + 4 <= s@.len(),
    ensures
        r == be_u32_of(s@.subrange(at as int, at + 4)),
{
    let r = ((s[at] as u32) << 24u32) | ((s[at + 1] as u32) << 16u32) | ((s[at + 2] as u32) << 8u32)
        | (s[at + 3] as u32);
    let ghost w = s@.subrange(at as int, at + 4);
    assert(w[0] == s@[at as int] && w[1] == s@[at + 1] && w[2] == s@[at + 2] && w[3] == s@[at + 3]);
    r
}

fn read_be_u64(s: &[u8], at: usize) -> (r: u64)
    requires
        at + 8 <= s@.len(),
    ensures
        r == be_u64_of(s@.subrange(at as int, at + 8)),
{
    let r = ((s[at] as u64) << 56u64) | ((s[at + 1] as u64) << 48u64) | ((s[at + 2] as u64) << 40u64)
        | ((s[at + 3] as u64) << 32u64) | ((s[at + 4] as u64) << 24u64) | ((s[at + 5] as u64)
        << 16u64) | ((s[at + 6] as u64) << 8u64) | (s[at + 7] as u64);
    let ghost w = s@.subrange(at as int, at + 8);
    assert(w[0] == s@[at as int] && w[1] == s@[at + 1] && w[2] == s@[at + 2] && w[3] == s@[at + 3]
        && w[4] == s@[at + 4] && w[5] == s@[at + 5] && w[6] == s@[at + 6] && w[7] == s@[at + 7]);
    r
}

/// The CTIP that 44 packed bytes hold.
pub open spec fn ctip_of_bytes(s: Seq<u8>) -> (Seq<u8>, u32, u64) {
    (s.subrange(0, 32), be_u32_of(s.subrange(32, 36)), be_u64_of(s.subrange(36, 44)))
}

/// Reading back the packing of a CTIP gives its txid, vout and value.
pub proof fn lemma_ctip_round_trip(c: Ctip)
    ensures
        ctip_of_bytes(ctip_bytes(c)) == (c.outpoint.txid@, c.outpoint.vout, c.value),
{
    let b = ctip_bytes(c);
    assert(b.subrange(0, 32) =~= c.outpoint.txid@);
    assert(b.subrange(32, 36) =~= be_u32_bytes(c.outpoint.vout));
    assert(b.subrange(36, 44) =~= be_u64_bytes(c.value));
    lemma_be_u32_round_trip(c.outpoint.vout);
    lemma_be_u64_round_trip(c.value);
}

/// The 48-byte packing of a deposit: address, value, total value (big-endian).
pub open spec fn deposit_bytes(d: Deposit) -> Seq<u8> {
    d.address@ + be_u64_bytes(d.value) + be_u64_bytes(d.total_value)
}

/// The deposit fields that 48 packed bytes hold.
pub open spec fn deposit_of_bytes(s: Seq<u8>) -> (Seq<u8>, u64, u64) {
    (s.subrange(0, 32), be_u64_of(s.subrange(32, 40)), be_u64_of(s.subrange(40, 48)))
}

/// Reading back the packing of a deposit gives its fields.
pub proof fn lemma_deposit_round_trip(d: Deposit)
    ensures
        deposit_of_bytes(deposit_bytes(d)) == (d.address@, d.value, d.total_value),
{
    let b = deposit_bytes(d);
    assert(b.subrange(0, 32) =~= d.address@);
    assert(b.subrange(32, 40) =~= be_u64_bytes(d.value));
    assert(b.subrange(40, 48) =~= be_u64_bytes(d.total_value));
    lemma_be_u64_round_trip(d.value);
    lemma_be_u64_round_trip(d.total_value);
}

impl Ctip {
    /// Name under which CTIP rows are stored.
    pub fn value_type_name() -> (r: &'static str)
        ensures
            r@ == "Ctip"@,
    {
        "Ctip"
    }

    /// CTIP rows are 44 bytes.
    pub fn fixed_width() -> (r: Option<usize>)
        ensures
            r == Some(44usize),
    {
        Some(44)
    }

    /// Packs a CTIP: txid, then vout and value big-endian.
    pub fn as_bytes(value: &Ctip) -> (r: Vec<u8>)
        ensures
            r@ == ctip_bytes(*value),
            r@.len() == 44,
    {
        let mut out: Vec<u8> = Vec::new();
        push_all(&mut out, value.outpoint.txid.as_slice());
        write_be_u32(&mut out, value.outpoint.vout);
        write_be_u64(&mut out, value.value);
        assert(out@ =~= ctip_bytes(*value));
        out
    }

    /// Unpacks the first 44 bytes of a CTIP row.
    pub fn from_bytes(data: &[u8]) -> (r: Ctip)
        requires
            data@.len() >= 44,
        ensures
            (r.outpoint.txid@, r.outpoint.vout, r.value) == ctip_of_bytes(data@),
    {
        let txid = copy_hash(data, 0);
        let vout = read_be_u32(data, 32);
        let value = read_be_u64(data, 36);
        Ctip { outpoint: OutPoint { txid, vout }, value }
    }
}

impl Deposit {
    /// Name under which deposit rows are stored.
    pub fn value_type_name() -> (r: &'static str)
        ensures
            r@ == "Deposit"@,
    {
        "Deposit"
    }

    /// Deposit rows are 48 bytes.
    pub fn fixed_width() -> (r: Option<usize>)
        ensures
            r == Some(48usize),
    {
        Some(48)
    }

    /// Packs a deposit: address, then value and total value big-endian.
    pub fn as_bytes(value: &Deposit) -> (r: Vec<u8>)
        ensures
            r@ == deposit_bytes(*value),
            r@.len() == 48,
    {
        let mut out: Vec<u8> = Vec::new();
        push_all(&mut out, value.address.as_slice());
        write_be_u64(&mut out, value.value);
        write_be_u64(&mut out, value.total_value);
        assert(out@ =~= deposit_bytes(*value));
        out
    }

    /// Unpacks the first 48 bytes of a deposit row.
    pub fn from_bytes(data: &[u8]) -> (r: Deposit)
        requires
            data@.len() >= 48,
        ensures
            (r.address@, r.value, r.total_value) == deposit_of_bytes(data@),
    {
        let address = copy_hash(data, 0);
        let value = read_be_u64(data, 32);
        let total_value = read_be_u64(data, 40);
        Deposit { address, value, total_value }
    }
}

pub open spec fn le_u16_bytes(x: u16) -> Seq<u8> {
    seq![x as u8, (x >> 8u16) as u8]
}

pub open spec fn le_u32_bytes(x: u32) -> Seq<u8> {
    seq![x as u8, (x >> 8u32) as u8, (x >> 16u32) as u8, (x >> 24u32) as u8]
}

pub open spec fn le_u64_bytes(x: u64) -> Seq<u8> {
    seq![
        x as u8, (x >> 8u64) as u8, (x >> 16u64) as u8, (x >> 24u64) as u8,
        (x >> 32u64) as u8, (x >> 40u64) as u8, (x >> 48u64) as u8, (x >> 56u64) as u8,
    ]
}

pub open spec fn le_u16_of(s: Seq<u8>) -> u16 {
    (s[0] as u16) | ((s[1] as u16) << 8u16)
}

pub open spec fn le_u32_of(s: Seq<u8>) -> u32 {
    (s[0] as u32) | ((s[1] as u32) << 8u32) | ((s[2] as u32) << 16u32) | ((s[3] as u32) << 24u32)
}

pub open spec fn le_u64_of(s: Seq<u8>) -> u64 {
    (s[0] as u64) | ((s[1] as u64) << 8u64) | ((s[2] as u64) << 16u64) | ((s[3] as u64) << 24u64)
        | ((s[4] as u64) << 32u64) | ((s[5] as u64) << 40u64) | ((s[6] as u64) << 48u64) | ((
    s[7] as u64) << 56u64)
}

proof fn lemma_le_u16(x: u16, s: Seq<u8>)
    ensures
        le_u16_of(le_u16_bytes(x)) == x,
        s.len() == 2 ==> le_u16_bytes(le_u16_of(s)) == s,
{
    assert(((x as u8) as u16) | ((((x >> 8u16) as u8) as u16) << 8u16) == x) by (bit_vector);
    if s.len() == 2 {
        let (b0, b1) = (s[0], s[1]);
        assert(((b0 as u16) | ((b1 as u16) << 8u16)) as u8 == b0 && (((b0 as u16) | ((b1 as u16)
            << 8u16)) >> 8u16) as u8 == b1) by (bit_vector);
        assert(le_u16_bytes(le_u16_of(s)) =~= s);
    }
}

proof fn lemma_le_u32(x: u32, s: Seq<u8>)
    ensures
        le_u32_of(le_u32_bytes(x)) == x,
        s.len() == 4 ==> le_u32_bytes(le_u32_of(s)) == s,
{
    assert(((x as u8) as u32) | ((((x >> 8u32) as u8) as u32) << 8u32) | ((((x >> 16u32) as u8) as u32)
        << 16u32) | ((((x >> 24u32) as u8) as u32) << 24u32) == x) by (bit_vector);
    if s.len() == 4 {
        let (b0, b1, b2, b3) = (s[0], s[1], s[2], s[3]);
        let v = le_u32_of(s);
        assert(v == (b0 as u32) | ((b1 as u32) << 8u32) | ((b2 as u32) << 16u32) | ((b3 as u32)
            << 24u32));
        assert(v as u8 == b0 && (v >> 8u32) as u8 == b1 && (v >> 16u32) as u8 == b2 && (v >> 24u32) as u8
            == b3) by (bit_vector)
            requires
                v == (b0 as u32) | ((b1 as u32) << 8u32) | ((b2 as u32) << 16u32) | ((b3 as u32)
                    << 24u32),
        ;
        assert(le_u32_bytes(le_u32_of(s)) =~= s);
    }
}

proof fn lemma_le_u64(x: u64, s: Seq<u8>)
    ensures
        le_u64_of(le_u64_bytes(x)) == x,
        s.len() == 8 ==> le_u64_bytes(le_u64_of(s)) == s,
{
    assert(((x as u8) as u64) | ((((x >> 8u64) as u8) as u64) << 8u64) | ((((x >> 16u64) as u8) as u64)
        << 16u64) | ((((x >> 24u64) as u8) as u64) << 24u64) | ((((x >> 32u64) as u8) as u64)
        << 32u64) | ((((x >> 40u64) as u8) as u64) << 40u64) | ((((x >> 48u64) as u8) as u64)
        << 48u64) | ((((x >> 56u64) as u8) as u64) << 56u64) == x) by (bit_vector);
    if s.len() == 8 {
        let (b0, b1, b2, b3, b4, b5, b6, b7) = (s[0], s[1], s[2], s[3], s[4], s[5], s[6], s[7]);
        let v = le_u64_of(s);
        assert(v as u8 == b0 && (v >> 8u64) as u8 == b1 && (v >> 16u64) as u8 == b2 && (v >> 24u64) as u8
            == b3 && (v >> 32u64) as u8 == b4 && (v >> 40u64) as u8 == b5 && (v >> 48u64) as u8 == b6
            && (v >> 56u64) as u8 == b7) by (bit_vector)
            requires
                v == (b0 as u64) | ((b1 as u64) << 8u64) | ((b2 as u64) << 16u64) | ((b3 as u64)
                    << 24u64) | ((b4 as u64) << 32u64) | ((b5 as u64) << 40u64) | ((b6 as u64)
                    << 48u64) | ((b7 as u64) << 56u64),
        ;
        assert(le_u64_bytes(le_u64_of(s)) =~= s);
    }
}

fn write_le_u16(out: &mut Vec<u8>, x: u16)
    ensures
        final(out)@ == old(out)@ + le_u16_bytes(x),
{
    out.push(x as u8);
    out.push((x >> 8u16) as u8);
    assert(final(out)@ =~= old(out)@ + le_u16_bytes(x));
}

fn write_le_u32(out: &mut Vec<u8>, x: u32)
    ensures
        final(out)@ == old(out)@ + le_u32_bytes(x),
{
    out.push(x as u8);
    out.push((x >> 8u32) as u8);
    out.push((x >> 16u32) as u8);
    out.push((x >> 24u32) as u8);
    assert(final(out)@ =~= old(out)@ + le_u32_bytes(x));
}

fn write_le_u64(out: &mut Vec<u8>, x: u64)
    ensures
        final(out)@ == old(out)@ + le_u64_bytes(x),
{
    out.push(x as u8);
    out.push((x >> 8u64) as u8);
    out.push((x >> 16u64) as u8);
    out.push((x >> 24u64) as u8);
    out.push((x >> 32u64) as u8);
    out.push((x >> 40u64) as u8);
    out.push((x >> 48u64) as u8);
    out.push((x >> 56u64) as u8);
    assert(final(out)@ =~= old(out)@ + le_u64_bytes(x));
}

fn read_le_u16(s: &[u8], at: usize) -> (r: u16)
    requires
        at + 2 <= s@.len(),
    ensures
        r == le_u16_of(s@.subrange(at as int, at + 2)),
{
    let ghost w = s@.subrange(at as int, at + 2);
    assert(w[0] == s@[at as int] && w[1] == s@[at + 1]);
    (s[at] as u16) | ((s[at + 1] as u16) << 8u16)
}

fn read_le_u32(s: &[u8], at: usize) -> (r: u32)
    requires
        at + 4 <= s@.len(),
    ensures
        r == le_u32_of(s@.subrange(at as int, at + 4)),
{
    let ghost w = s@.subrange(at as int, at + 4);
    assert(w[0] == s@[at as int] && w[1] == s@[at + 1] && w[2] == s@[at + 2] && w[3] == s@[at + 3]);
    (s[at] as u32) | ((s[at + 1] as u32) << 8u32) | ((s[at + 2] as u32) << 16u32) | ((s[at + 3] as u32)
        << 24u32)
}

fn read_le_u64(s: &[u8], at: usize) -> (r: u64)
    requires
        at + 8 <= s@.len(),
    ensures
        r == le_u64_of(s@.subrange(at as int, at + 8)),
{
    let ghost w = s@.subrange(at as int, at + 8);
    assert(w[0] == s@[at as int] && w[1] == s@[at + 1] && w[2] == s@[at + 2] && w[3] == s@[at + 3]
        && w[4] == s@[at + 4] && w[5] == s@[at + 5] && w[6] == s@[at + 6] && w[7] == s@[at + 7]);
    (s[at] as u64) | ((s[at + 1] as u64) << 8u64) | ((s[at + 2] as u64) << 16u64) | ((s[at + 3] as u64)
        << 24u64) | ((s[at + 4] as u64) << 32u64) | ((s[at + 5] as u64) << 40u64) | ((s[at + 6] as u64)
        << 48u64) | ((s[at + 7] as u64) << 56u64)
}

/// Self-describing bytes of a sidechain: number, length-prefixed data,
/// vote count, proposal height, activation height (little-endian, the
/// fixed-int layout that `bincode` uses by default).
pub open spec fn sidechain_bytes(s: SidechainV) -> Seq<u8> {
    seq![s.sidechain_number] + le_u64_bytes(s.data.len() as u64) + s.data + le_u16_bytes(
        s.vote_count,
    ) + le_u32_bytes(s.proposal_height) + le_u32_bytes(s.activation_height)
}

/// Self-describing bytes of a proposal: number, length-prefixed data, vote
/// count, proposal height.
pub open spec fn proposal_bytes(p: ProposalV) -> Seq<u8> {
    seq![p.sidechain_number] + le_u64_bytes(p.data.len() as u64) + p.data + le_u16_bytes(
        p.vote_count,
    ) + le_u32_bytes(p.proposal_height)
}

/// Bytes of a bundle: txid, vote count.
pub open spec fn bundle_bytes(b: BundleV) -> Seq<u8> {
    b.bundle_txid + le_u16_bytes(b.vote_count)
}

/// Bytes of a bundle list: count, then each bundle.
pub open spec fn bundle_list_bytes(l: Seq<BundleV>) -> Seq<u8> {
    le_u64_bytes(l.len() as u64) + bundle_list_body(l)
}

pub open spec fn bundle_list_body(l: Seq<BundleV>) -> Seq<u8>
    decreases l.len(),
{
    if l.len() == 0 {
        Seq::empty()
    } else {
        bundle_list_body(l.drop_last()) + bundle_bytes(l.last())
    }
}

proof fn lemma_bundle_list_body_len(l: Seq<BundleV>)
    requires
        forall|k: int| 0 <= k < l.len() ==> (#[trigger] l[k]).bundle_txid.len() == 32,
    ensures
        bundle_list_body(l).len() == 34 * l.len(),
    decreases l.len(),
{
    if l.len() > 0 {
        lemma_bundle_list_body_len(l.drop_last());
    }
}

/// Packs a bundle list: count, then each bundle.
pub fn bundle_list_as_bytes(bundles: &Vec<Bundle>) -> (r: Vec<u8>)
    ensures
        r@ == bundle_list_bytes(bundles@.map_values(|b: Bundle| b@)),
{
    let ghost v = bundles@.map_values(|b: Bundle| b@);
    let mut out: Vec<u8> = Vec::new();
    write_le_u64(&mut out, bundles.len() as u64);
    let ghost head = out@;
    let mut i: usize = 0;
    assert(v.subrange(0, 0) =~= Seq::<BundleV>::empty());
    while i < bundles.len()
        invariant
            i <= bundles@.len(),
            v == bundles@.map_values(|b: Bundle| b@),
            out@ == head + bundle_list_body(v.subrange(0, i as int)),
        decreases bundles@.len() - i,
    {
        let b = bundles[i];
        push_all(&mut out, b.bundle_txid.as_slice());
        write_le_u16(&mut out, b.vote_count);
        proof {
            assert(v.subrange(0, i + 1).drop_last() =~= v.subrange(0, i as int));
            assert(out@ =~= head + bundle_list_body(v.subrange(0, i + 1)));
        }
        i = i + 1;
    }
    assert(v.subrange(0, bundles@.len() as int) =~= v);
    out
}

/// The bundle list that `data` encodes; `None` when no list of 32-byte
/// txids encodes to it.
pub fn bundle_list_from_bytes(data: &[u8]) -> (r: Option<Vec<Bundle>>)
    ensures
        match r {
            Some(l) => bundle_list_bytes(l@.map_values(|b: Bundle| b@)) == data@,
            None => forall|l: Seq<BundleV>|
                (forall|k: int| 0 <= k < l.len() ==> (#[trigger] l[k]).bundle_txid.len() == 32)
                    ==> #[trigger] bundle_list_bytes(l) != data@,
        },
{
    let n = data.len();
    let ghost d = data@;
    proof {
        assert forall|l: Seq<BundleV>|
            (forall|k: int| 0 <= k < l.len() ==> (#[trigger] l[k]).bundle_txid.len() == 32)
                && #[trigger] bundle_list_bytes(l) == d implies n >= 8 && le_u64_of(d.subrange(0, 8)) as int
            * 34 == n - 8 by {
            lemma_bundle_list_body_len(l);
            let b = bundle_list_bytes(l);
            assert(b.subrange(0, 8) =~= le_u64_bytes(l.len() as u64));
            lemma_le_u64(l.len() as u64, b.subrange(0, 8));
        }
    }
    if n < 8 {
        return None;
    }
    let count = read_le_u64(data, 0);
    if (n - 8) % 34 != 0 || count != ((n - 8) / 34) as u64 {
        return None;
    }
    let c = count as usize;
    let mut r: Vec<Bundle> = Vec::new();
    let mut k: usize = 0;
    while k < c
        invariant
            k <= c,
            n == d.len(),
            d == data@,
            8 + 34 * c == n,
            bundle_list_body(r@.map_values(|b: Bundle| b@)) == d.subrange(8, 8 + 34 * k),
            r@.len() == k,
        decreases c - k,
    {
        let at = 8 + 34 * k;
        let bundle_txid = copy_hash(data, at);
        let vote_count = read_le_u16(data, at + 32);
        let ghost before = r@.map_values(|b: Bundle| b@);
        let b = Bundle { bundle_txid, vote_count };
        r.push(b);
        proof {
            lemma_le_u16(0, d.subrange(at + 32, at + 34));
            let after = r@.map_values(|b: Bundle| b@);
            assert(after =~= before.push(b@));
            assert(after.drop_last() =~= before);
            assert(bundle_bytes(b@) =~= d.subrange(at as int, at + 34));
            assert(d.subrange(8, at + 34) =~= d.subrange(8, at as int) + d.subrange(at as int, at + 34));
        }
        k = k + 1;
    }
    proof {
        lemma_le_u64(0, d.subrange(0, 8));
        assert(bundle_list_bytes(r@.map_values(|b: Bundle| b@)) =~= d);
    }
    Some(r)
}

impl Sidechain {
    pub fn value_type_name() -> (r: &'static str)
        ensures
            r@ == "Sidechain"@,
    {
        "Sidechain"
    }

    /// Sidechain rows vary in width.
    pub fn fixed_width() -> (r: Option<usize>)
        ensures
            r is None,
    {
        None
    }

    pub fn as_bytes(value: &Sidechain) -> (r: Vec<u8>)
        ensures
            r@ == sidechain_bytes(value@),
    {
        let mut out: Vec<u8> = Vec::new();
        out.push(value.sidechain_number);
        write_le_u64(&mut out, value.data.len() as u64);
        push_all(&mut out, value.data.as_slice());
        write_le_u16(&mut out, value.vote_count);
        write_le_u32(&mut out, value.proposal_height);
        write_le_u32(&mut out, value.activation_height);
        assert(out@ =~= sidechain_bytes(value@));
        out
    }

    /// The sidechain that `data` encodes; `None` when no sidechain encodes to it.
    pub fn from_bytes(data: &[u8]) -> (r: Option<Sidechain>)
        ensures
            match r {
                Some(s) => sidechain_bytes(s@) == data@,
                None => forall|s: SidechainV| #[trigger] sidechain_bytes(s) != data@,
            },
    {
        let n = data.len();
        let ghost d = data@;
        proof {
            assert forall|s: SidechainV| #[trigger] sidechain_bytes(s) == d implies n >= 19 && le_u64_of(d.subrange(1, 9)) as int == n - 19 by {
                let b = sidechain_bytes(s);
                assert(b.subrange(1, 9) =~= le_u64_bytes(s.data.len() as u64));
                lemma_le_u64(s.data.len() as u64, b.subrange(1, 9));
            }
        }
        if n < 19 {
            return None;
        }
        let len = read_le_u64(data, 1);
        if len != (n - 19) as u64 {
            return None;
        }
        let l = len as usize;
        let bytes = copy_range(data, 9, 9 + l);
        let vote_count = read_le_u16(data, 9 + l);
        let proposal_height = read_le_u32(data, 11 + l);
        let activation_height = read_le_u32(data, 15 + l);
        let r = Sidechain { sidechain_number: data[0], data: bytes, vote_count, proposal_height, activation_height };
        proof {
            lemma_le_u64(0, d.subrange(1, 9));
            lemma_le_u16(0, d.subrange(9 + l, 11 + l));
            lemma_le_u32(0, d.subrange(11 + l, 15 + l));
            lemma_le_u32(0, d.subrange(15 + l, 19 + l));
            assert(sidechain_bytes(r@) =~= d);
        }
        Some(r)
    }
}

impl SidechainProposal {
    pub fn value_type_name() -> (r: &'static str)
        ensures
            r@ == "SidechainProposal"@,
    {
        "SidechainProposal"
    }

    /// Proposal rows vary in width.
    pub fn fixed_width() -> (r: Option<usize>)
        ensures
            r is None,
    {
        None
    }

    pub fn as_bytes(value: &SidechainProposal) -> (r: Vec<u8>)
        ensures
            r@ == proposal_bytes(value@),
    {
        let mut out: Vec<u8> = Vec::new();
        out.push(value.sidechain_number);
        write_le_u64(&mut out, value.data.len() as u64);
        push_all(&mut out, value.data.as_slice());
        write_le_u16(&mut out, value.vote_count);
        write_le_u32(&mut out, value.proposal_height);
        assert(out@ =~= proposal_bytes(value@));
        out
    }

    /// The proposal that `data` encodes; `None` when no proposal encodes to it.
    pub fn from_bytes(data: &[u8]) -> (r: Option<SidechainProposal>)
        ensures
            match r {
                Some(p) => proposal_bytes(p@) == data@,
                None => forall|p: ProposalV| #[trigger] proposal_bytes(p) != data@,
            },
    {
        let n = data.len();
        let ghost d = data@;
        proof {
            assert forall|p: ProposalV| #[trigger] proposal_bytes(p) == d implies n >= 15 && le_u64_of(d.subrange(1, 9)) as int == n - 15 by {
                let b = proposal_bytes(p);
                assert(b.subrange(1, 9) =~= le_u64_bytes(p.data.len() as u64));
                lemma_le_u64(p.data.len() as u64, b.subrange(1, 9));
            }
        }
        if n < 15 {
            return None;
        }
        let len = read_le_u64(data, 1);
        if len != (n - 15) as u64 {
            return None;
        }
        let l = len as usize;
        let bytes = copy_range(data, 9, 9 + l);
        let vote_count = read_le_u16(data, 9 + l);
        let proposal_height = read_le_u32(data, 11 + l);
        let r = SidechainProposal { sidechain_number: data[0], data: bytes, vote_count, proposal_height };
        proof {
            lemma_le_u64(0, d.subrange(1, 9));
            lemma_le_u16(0, d.subrange(9 + l, 11 + l));
            lemma_le_u32(0, d.subrange(11 + l, 15 + l));
            assert(proposal_bytes(r@) =~= d);
        }
        Some(r)
    }
}

impl Bundle {
    pub fn value_type_name() -> (r: &'static str)
        ensures
            r@ == "Bundle"@,
    {
        "Bundle"
    }

    /// Bundle rows are stored as lists, which vary in width.
    pub fn fixed_width() -> (r: Option<usize>)
        ensures
            r is None,
    {
        None
    }

    pub fn as_bytes(value: &Bundle) -> (r: Vec<u8>)
        ensures
            r@ == bundle_bytes(value@),
    {
        let mut out: Vec<u8> = Vec::new();
        push_all(&mut out, value.bundle_txid.as_slice());
        write_le_u16(&mut out, value.vote_count);
        out
    }

    /// The bundle that `data` encodes; `None` when no bundle encodes to it.
    pub fn from_bytes(data: &[u8]) -> (r: Option<Bundle>)
        ensures
            match r {
                Some(b) => bundle_bytes(b@) == data@,
                None => forall|b: BundleV|
                    b.bundle_txid.len() == 32 ==> #[trigger] bundle_bytes(b) != data@,
            },
    {
        if data.len() != 34 {
            proof {
                assert forall|b: BundleV| b.bundle_txid.len() == 32 implies #[trigger] bundle_bytes(b) != data@ by {
                    assert(bundle_bytes(b).len() == 34);
                }
            }
            return None;
        }
        let bundle_txid = copy_hash(data, 0);
        let vote_count = read_le_u16(data, 32);
        let r = Bundle { bundle_txid, vote_count };
        proof {
            lemma_le_u16(0, data@.subrange(32, 34));
            assert(bundle_bytes(r@) =~= data@);
        }
        Some(r)
    }
}

} // verus!
