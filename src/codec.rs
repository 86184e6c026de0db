use vstd::prelude::*;
use crate::types::Hash256;

verus! {

/// Upvote byte meaning "no vote for this sidechain".
pub const ABSTAIN_ONE_BYTE: u8 = 0xff;
/// Upvote byte meaning "downvote every bundle of this sidechain".
pub const ALARM_ONE_BYTE: u8 = 0xfe;
/// Two-byte abstain sentinel.
pub const ABSTAIN_TWO_BYTES: u16 = 0xffff;
/// Two-byte alarm sentinel.
pub const ALARM_TWO_BYTES: u16 = 0xfffe;

/// Sub-tags that follow the M4 header.
pub const M4_REPEAT_PREVIOUS_TAG: u8 = 0x00;
pub const M4_ONE_BYTE_TAG: u8 = 0x01;
pub const M4_TWO_BYTES_TAG: u8 = 0x02;
pub const M4_LEADING_BY_50_TAG: u8 = 0x03;

/// Header of an M1 (propose sidechain) message.
pub open spec fn m1_tag() -> Seq<u8> {
    seq![0xd5u8, 0xe0u8, 0xc4u8, 0xafu8]
}

/// Header of an M2 (ack sidechain) message.
pub open spec fn m2_tag() -> Seq<u8> {
    seq![0xd6u8, 0xe1u8, 0xc5u8, 0xbfu8]
}

/// Header of an M3 (propose bundle) message.
pub open spec fn m3_tag() -> Seq<u8> {
    seq![0xd4u8, 0x5au8, 0xa9u8, 0x43u8]
}

/// Header of an M4 (ack bundles) message.
pub open spec fn m4_tag() -> Seq<u8> {
    seq![0xd7u8, 0x7du8, 0x17u8, 0x76u8]
}

/// The M4 vote vector.
#[derive(Clone, Debug, PartialEq, Eq)]
pub enum M4AckBundles {
    RepeatPrevious,
    OneByte { upvotes: Vec<u8> },
    TwoBytes { upvotes: Vec<u16> },
    LeadingBy50,
}

/// A BIP300 coinbase message.
#[derive(Clone, Debug, PartialEq, Eq)]
pub enum CoinbaseMessage {
    M1ProposeSidechain { sidechain_number: u8, data: Vec<u8> },
    M2AckSidechain { sidechain_number: u8, data_hash: Hash256 },
    M3ProposeBundle { sidechain_number: u8, bundle_txid: Hash256 },
    M4AckBundles(M4AckBundles),
}

/// Why a script is not a coinbase message.
#[derive(Clone, Copy, Debug, PartialEq, Eq, Structural)]
pub enum ParseError {
    /// The first four bytes are no known header.
    UnknownMagic,
    /// The script ends before a required field.
    Truncated,
    /// The body is longer than its variant allows, or not a whole number of votes.
    InvalidLength,
    /// The M4 sub-tag is unknown.
    InvalidTag,
}

/// Mathematical model of a coinbase message.
#[allow(inconsistent_fields)]
pub enum MessageV {
    ProposeSidechain { sidechain_number: u8, data: Seq<u8> },
    AckSidechain { sidechain_number: u8, data_hash: Seq<u8> },
    ProposeBundle { sidechain_number: u8, bundle_txid: Seq<u8> },
    RepeatPrevious,
    OneByte { upvotes: Seq<u8> },
    TwoBytes { upvotes: Seq<u16> },
    LeadingBy50,
}

impl View for CoinbaseMessage {
    type V = MessageV;

    open spec fn view(&self) -> MessageV {
        match self {
            CoinbaseMessage::M1ProposeSidechain { sidechain_number, data } => MessageV::ProposeSidechain {
                sidechain_number: *sidechain_number,
                data: data@,
            },
            CoinbaseMessage::M2AckSidechain { sidechain_number, data_hash } => MessageV::AckSidechain {
                sidechain_number: *sidechain_number,
                data_hash: data_hash@,
            },
            CoinbaseMessage::M3ProposeBundle { sidechain_number, bundle_txid } => MessageV::ProposeBundle {
                sidechain_number: *sidechain_number,
                bundle_txid: bundle_txid@,
            },
            CoinbaseMessage::M4AckBundles(M4AckBundles::RepeatPrevious) => MessageV::RepeatPrevious,
            CoinbaseMessage::M4AckBundles(M4AckBundles::OneByte { upvotes }) => MessageV::OneByte {
                upvotes: upvotes@,
            },
            CoinbaseMessage::M4AckBundles(M4AckBundles::TwoBytes { upvotes }) => MessageV::TwoBytes {
                upvotes: upvotes@,
            },
            CoinbaseMessage::M4AckBundles(M4AckBundles::LeadingBy50) => MessageV::LeadingBy50,
        }
    }
}

/// A message model that some `CoinbaseMessage` has: hashes are 32 bytes.
pub open spec fn message_valid(m: MessageV) -> bool {
    match m {
        MessageV::AckSidechain { data_hash, .. } => data_hash.len() == 32,
        MessageV::ProposeBundle { bundle_txid, .. } => bundle_txid.len() == 32,
        _ => true,
    }
}

/// Two big-endian bytes per vote.
pub open spec fn u16s_bytes(v: Seq<u16>) -> Seq<u8> {
    Seq::new(
        2 * v.len(),
        |j: int|
            if j % 2 == 0 {
                (v[j / 2] / 256) as u8
            } else {
                (v[j / 2] % 256) as u8
            },
    )
}

/// Votes read as big-endian pairs of bytes.
pub open spec fn u16s_of(s: Seq<u8>) -> Seq<u16> {
    Seq::new(s.len() / 2, |i: int| (s[2 * i] as int * 256 + s[2 * i + 1] as int) as u16)
}

/// The script bytes of a message: header, then body.
pub open spec fn encode_spec(m: MessageV) -> Seq<u8> {
    match m {
        MessageV::ProposeSidechain { sidechain_number, data } => m1_tag() + seq![sidechain_number]
            + data,
        MessageV::AckSidechain { sidechain_number, data_hash } => m2_tag() + seq![sidechain_number]
            + data_hash,
        MessageV::ProposeBundle { sidechain_number, bundle_txid } => m3_tag() + seq![
            sidechain_number,
        ] + bundle_txid,
        MessageV::RepeatPrevious => m4_tag() + seq![M4_REPEAT_PREVIOUS_TAG],
        MessageV::OneByte { upvotes } => m4_tag() + seq![M4_ONE_BYTE_TAG] + upvotes,
        MessageV::TwoBytes { upvotes } => m4_tag() + seq![M4_TWO_BYTES_TAG] + u16s_bytes(upvotes),
        MessageV::LeadingBy50 => m4_tag() + seq![M4_LEADING_BY_50_TAG],
    }
}

/// Body of an M2 or M3: a sidechain number and exactly 32 bytes.
pub open spec fn parse_number_and_hash(body: Seq<u8>) -> Result<(u8, Seq<u8>), ParseError> {
    if body.len() < 33 {
        Err(ParseError::Truncated)
    } else if body.len() > 33 {
        Err(ParseError::InvalidLength)
    } else {
        Ok((body[0], body.subrange(1, 33)))
    }
}

/// Body of an M4: a sub-tag and the votes.
pub open spec fn parse_m4_spec(body: Seq<u8>) -> Result<MessageV, ParseError> {
    if body.len() < 1 {
        Err(ParseError::Truncated)
    } else {
        let rest = body.subrange(1, body.len() as int);
        if body[0] == M4_REPEAT_PREVIOUS_TAG {
            if rest.len() == 0 {
                Ok(MessageV::RepeatPrevious)
            } else {
                Err(ParseError::InvalidLength)
            }
        } else if body[0] == M4_ONE_BYTE_TAG {
            Ok(MessageV::OneByte { upvotes: rest })
        } else if body[0] == M4_TWO_BYTES_TAG {
            if rest.len() % 2 == 0 {
                Ok(MessageV::TwoBytes { upvotes: u16s_of(rest) })
            } else {
                Err(ParseError::InvalidLength)
            }
        } else if body[0] == M4_LEADING_BY_50_TAG {
            if rest.len() == 0 {
                Ok(MessageV::LeadingBy50)
            } else {
                Err(ParseError::InvalidLength)
            }
        } else {
            Err(ParseError::InvalidTag)
        }
    }
}

/// What a script parses to.
pub open spec fn parse_spec(s: Seq<u8>) -> Result<MessageV, ParseError> {
    if s.len() < 4 {
        Err(ParseError::Truncated)
    } else {
        let header = s.subrange(0, 4);
        let body = s.subrange(4, s.len() as int);
        if header == m1_tag() {
            if body.len() < 1 {
                Err(ParseError::Truncated)
            } else {
                Ok(
                    MessageV::ProposeSidechain {
                        sidechain_number: body[0],
                        data: body.subrange(1, body.len() as int),
                    },
                )
            }
        } else if header == m2_tag() {
            match parse_number_and_hash(body) {
                Ok((n, h)) => Ok(MessageV::AckSidechain { sidechain_number: n, data_hash: h }),
                Err(e) => Err(e),
            }
        } else if header == m3_tag() {
            match parse_number_and_hash(body) {
                Ok((n, h)) => Ok(MessageV::ProposeBundle { sidechain_number: n, bundle_txid: h }),
                Err(e) => Err(e),
            }
        } else if header == m4_tag() {
            parse_m4_spec(body)
        } else {
            Err(ParseError::UnknownMagic)
        }
    }
}

proof fn lemma_u16s_round_trip(v: Seq<u16>)
    ensures
        u16s_of(u16s_bytes(v)) == v,
{
    let b = u16s_bytes(v);
    assert forall|i: int| 0 <= i < v.len() implies #[trigger] u16s_of(b)[i] == v[i] by {
        assert((2 * i) / 2 == i && (2 * i) % 2 == 0);
        assert((2 * i + 1) / 2 == i && (2 * i + 1) % 2 == 1);
        assert((v[i] / 256) * 256 + v[i] % 256 == v[i]);
    }
    assert(u16s_of(b) =~= v);
}

/// Parsing the encoding of any message gives back that message.
pub proof fn lemma_codec_round_trip(m: MessageV)
    requires
        message_valid(m),
    ensures
        parse_spec(encode_spec(m)) == Ok::<MessageV, ParseError>(m),
{
    let s = encode_spec(m);
    match m {
        MessageV::ProposeSidechain { sidechain_number, data } => {
            assert(s.subrange(0, 4) =~= m1_tag());
            assert(s.subrange(4, s.len() as int).subrange(1, s.len() - 4) =~= data);
        },
        MessageV::AckSidechain { sidechain_number, data_hash } => {
            assert(s.subrange(0, 4) =~= m2_tag());
            assert(s.subrange(4, s.len() as int).subrange(1, 33) =~= data_hash);
        },
        MessageV::ProposeBundle { sidechain_number, bundle_txid } => {
            assert(s.subrange(0, 4) =~= m3_tag());
            assert(s.subrange(4, s.len() as int).subrange(1, 33) =~= bundle_txid);
        },
        MessageV::RepeatPrevious => {
            assert(s.subrange(0, 4) =~= m4_tag());
            assert(s.subrange(4, s.len() as int) =~= seq![M4_REPEAT_PREVIOUS_TAG]);
        },
        MessageV::OneByte { upvotes } => {
            assert(s.subrange(0, 4) =~= m4_tag());
            assert(s.subrange(4, s.len() as int) =~= seq![M4_ONE_BYTE_TAG] + upvotes);
            assert((seq![M4_ONE_BYTE_TAG] + upvotes).subrange(1, upvotes.len() + 1 as int) =~= upvotes);
        },
        MessageV::TwoBytes { upvotes } => {
            let b = u16s_bytes(upvotes);
            assert(s.subrange(0, 4) =~= m4_tag());
            assert(s.subrange(4, s.len() as int) =~= seq![M4_TWO_BYTES_TAG] + b);
            assert((seq![M4_TWO_BYTES_TAG] + b).subrange(1, b.len() + 1 as int) =~= b);
            assert(b.len() % 2 == 0);
            lemma_u16s_round_trip(upvotes);
        },
        MessageV::LeadingBy50 => {
            assert(s.subrange(0, 4) =~= m4_tag());
            assert(s.subrange(4, s.len() as int) =~= seq![M4_LEADING_BY_50_TAG]);
        },
    }
}

fn has_header(s: &[u8], t0: u8, t1: u8, t2: u8, t3: u8) -> (r: bool)
    requires
        s@.len() >= 4,
    ensures
        r == (s@.subrange(0, 4) == seq![t0, t1, t2, t3]),
{
    let r = s[0] == t0 && s[1] == t1 && s[2] == t2 && s[3] == t3;
    proof {
        if r {
            assert(s@.subrange(0, 4) =~= seq![t0, t1, t2, t3]);
        } else {
            assert(s@.subrange(0, 4)[0] == s@[0]);
            assert(s@.subrange(0, 4)[1] == s@[1]);
            assert(s@.subrange(0, 4)[2] == s@[2]);
            assert(s@.subrange(0, 4)[3] == s@[3]);
        }
    }
    r
}

/// The bytes `s[start..end]` as a vector.
pub fn copy_range(s: &[u8], start: usize, end: usize) -> (r: Vec<u8>)
    requires
        start <= end <= s@.len(),
    ensures
        r@ == s@.subrange(start as int, end as int),
{
    let mut r: Vec<u8> = Vec::new();
    let mut i: usize = start;
    while i < end
        invariant
            start <= i <= end <= s@.len(),
            r@ == s@.subrange(start as int, i as int),
        decreases end - i,
    {
        r.push(s[i]);
        i = i + 1;
        assert(r@ =~= s@.subrange(start as int, i as int));
    }
    r
}

/// A copy of a byte vector.
pub fn copy_bytes(v: &Vec<u8>) -> (r: Vec<u8>)
    ensures
        r@ == v@,
{
    let r = copy_range(v.as_slice(), 0, v.len());
    assert(r@ =~= v@);
    r
}

/// The 32 bytes `s[start..start + 32]` as a hash.
pub fn copy_hash(s: &[u8], start: usize) -> (r: Hash256)
    requires
        start + 32 <= s@.len(),
    ensures
        r@ == s@.subrange(start as int, start + 32),
{
    let mut r: Hash256 = [0u8; 32];
    let mut i: usize = 0;
    while i < 32
        invariant
            start + 32 <= s@.len(),
            s@.len() == s.len(),
            i <= 32,
            r@.len() == 32,
            forall|k: int| 0 <= k < i ==> r@[k] == s@[start + k],
        decreases 32 - i,
    {
        assert(start + i < s.len());
        r[i] = s[start + i];
        i = i + 1;
    }
    assert(r@ =~= s@.subrange(start as int, start + 32));
    r
}

fn parse_two_bytes(s: &[u8], start: usize) -> (r: Vec<u16>)
    requires
        start <= s@.len(),
        (s@.len() - start) % 2 == 0,
    ensures
        r@ == u16s_of(s@.subrange(start as int, s@.len() as int)),
{
    let ghost rest = s@.subrange(start as int, s@.len() as int);
    let mut r: Vec<u16> = Vec::new();
    let mut i: usize = start;
    while i < s.len()
        invariant
            start <= i <= s@.len(),
            (i - start) % 2 == 0,
            (s@.len() - start) % 2 == 0,
            rest == s@.subrange(start as int, s@.len() as int),
            r@.len() == (i - start) / 2,
            forall|k: int| 0 <= k < r@.len() ==> r@[k] == #[trigger] u16s_of(rest)[k],
        decreases s@.len() - i,
    {
        let hi = s[i] as u16;
        let lo = s[i + 1] as u16;
        let ghost k = r@.len() as int;
        assert(2 * k == i - start);
        r.push(hi * 256 + lo);
        i = i + 2;
    }
    assert(r@ =~= u16s_of(rest));
    r
}

/// Parses a coinbase script into a message.
pub fn parse(s: &[u8]) -> (r: Result<CoinbaseMessage, ParseError>)
    ensures
        match r {
            Ok(m) => parse_spec(s@) == Ok::<MessageV, ParseError>(m@),
            Err(e) => parse_spec(s@) == Err::<MessageV, ParseError>(e),
        },
{
    let n = s.len();
    if n < 4 {
        return Err(ParseError::Truncated);
    }
    let ghost body = s@.subrange(4, n as int);
    if has_header(s, 0xd5, 0xe0, 0xc4, 0xaf) {
        if n < 5 {
            return Err(ParseError::Truncated);
        }
        let data = copy_range(s, 5, n);
        assert(data@ =~= body.subrange(1, body.len() as int));
        Ok(CoinbaseMessage::M1ProposeSidechain { sidechain_number: s[4], data })
    } else if has_header(s, 0xd6, 0xe1, 0xc5, 0xbf) {
        if n < 37 {
            return Err(ParseError::Truncated);
        } else if n > 37 {
            return Err(ParseError::InvalidLength);
        }
        let data_hash = copy_hash(s, 5);
        assert(data_hash@ =~= body.subrange(1, 33));
        Ok(CoinbaseMessage::M2AckSidechain { sidechain_number: s[4], data_hash })
    } else if has_header(s, 0xd4, 0x5a, 0xa9, 0x43) {
        if n < 37 {
            return Err(ParseError::Truncated);
        } else if n > 37 {
            return Err(ParseError::InvalidLength);
        }
        let bundle_txid = copy_hash(s, 5);
        assert(bundle_txid@ =~= body.subrange(1, 33));
        Ok(CoinbaseMessage::M3ProposeBundle { sidechain_number: s[4], bundle_txid })
    } else if has_header(s, 0xd7, 0x7d, 0x17, 0x76) {
        if n < 5 {
            return Err(ParseError::Truncated);
        }
        let ghost rest = body.subrange(1, body.len() as int);
        assert(rest =~= s@.subrange(5, n as int));
        let tag = s[4];
        if tag == M4_REPEAT_PREVIOUS_TAG {
            if n == 5 {
                Ok(CoinbaseMessage::M4AckBundles(M4AckBundles::RepeatPrevious))
            } else {
                Err(ParseError::InvalidLength)
            }
        } else if tag == M4_ONE_BYTE_TAG {
            let upvotes = copy_range(s, 5, n);
            Ok(CoinbaseMessage::M4AckBundles(M4AckBundles::OneByte { upvotes }))
        } else if tag == M4_TWO_BYTES_TAG {
            if (n - 5) % 2 == 0 {
                let upvotes = parse_two_bytes(s, 5);
                Ok(CoinbaseMessage::M4AckBundles(M4AckBundles::TwoBytes { upvotes }))
            } else {
                Err(ParseError::InvalidLength)
            }
        } else if tag == M4_LEADING_BY_50_TAG {
            if n == 5 {
                Ok(CoinbaseMessage::M4AckBundles(M4AckBundles::LeadingBy50))
            } else {
                Err(ParseError::InvalidLength)
            }
        } else {
            Err(ParseError::InvalidTag)
        }
    } else {
        Err(ParseError::UnknownMagic)
    }
}

fn push_header(out: &mut Vec<u8>, t0: u8, t1: u8, t2: u8, t3: u8)
    ensures
        final(out)@ == old(out)@ + seq![t0, t1, t2, t3],
{
    out.push(t0);
    out.push(t1);
    out.push(t2);
    out.push(t3);
    assert(final(out)@ =~= old(out)@ + seq![t0, t1, t2, t3]);
}

/// Appends the bytes of `s`.
pub fn push_all(out: &mut Vec<u8>, s: &[u8])
    ensures
        final(out)@ == old(out)@ + s@,
{
    let mut i: usize = 0;
    while i < s.len()
        invariant
            i <= s@.len(),
            out@ == old(out)@ + s@.subrange(0, i as int),
        decreases s@.len() - i,
    {
        out.push(s[i]);
        i = i + 1;
        assert(out@ =~= old(out)@ + s@.subrange(0, i as int));
    }
    assert(s@.subrange(0, s@.len() as int) =~= s@);
}

/// Serializes a message into its script bytes.
pub fn encode(m: &CoinbaseMessage) -> (r: Vec<u8>)
    ensures
        r@ == encode_spec(m@),
{
    let mut out: Vec<u8> = Vec::new();
    match m {
        CoinbaseMessage::M1ProposeSidechain { sidechain_number, data } => {
            push_header(&mut out, 0xd5, 0xe0, 0xc4, 0xaf);
            out.push(*sidechain_number);
            push_all(&mut out, data.as_slice());
        },
        CoinbaseMessage::M2AckSidechain { sidechain_number, data_hash } => {
            push_header(&mut out, 0xd6, 0xe1, 0xc5, 0xbf);
            out.push(*sidechain_number);
            push_all(&mut out, data_hash.as_slice());
        },
        CoinbaseMessage::M3ProposeBundle { sidechain_number, bundle_txid } => {
            push_header(&mut out, 0xd4, 0x5a, 0xa9, 0x43);
            out.push(*sidechain_number);
            push_all(&mut out, bundle_txid.as_slice());
        },
        CoinbaseMessage::M4AckBundles(m4) => {
            push_header(&mut out, 0xd7, 0x7d, 0x17, 0x76);
            match m4 {
                M4AckBundles::RepeatPrevious => {
                    out.push(M4_REPEAT_PREVIOUS_TAG);
                },
                M4AckBundles::OneByte { upvotes } => {
                    out.push(M4_ONE_BYTE_TAG);
                    push_all(&mut out, upvotes.as_slice());
                },
                M4AckBundles::TwoBytes { upvotes } => {
                    out.push(M4_TWO_BYTES_TAG);
                    let ghost start = out@;
                    let mut i: usize = 0;
                    while i < upvotes.len()
                        invariant
                            i <= upvotes@.len(),
                            out@ == start + u16s_bytes(upvotes@.subrange(0, i as int)),
                        decreases upvotes@.len() - i,
                    {
                        let v = upvotes[i];
                        out.push((v / 256) as u8);
                        out.push((v % 256) as u8);
                        i = i + 1;
                        assert(out@ =~= start + u16s_bytes(upvotes@.subrange(0, i as int))) by {
                            let b = u16s_bytes(upvotes@.subrange(0, i as int));
                            assert forall|j: int| 0 <= j < b.len() implies #[trigger] b[j] == (
                            start + u16s_bytes(upvotes@.subrange(0, i - 1)) + seq![
                                (v / 256) as u8,
                                (v % 256) as u8,
                            ])[start.len() + j] by {
                                if j < 2 * (i - 1) {
                                } else if j == 2 * (i - 1) {
                                    assert(j / 2 == i - 1);
                                } else {
                                    assert(j / 2 == i - 1);
                                }
                            }
                        }
                    }
                    assert(upvotes@.subrange(0, upvotes@.len() as int) =~= upvotes@);
                },
                M4AckBundles::LeadingBy50 => {
                    out.push(M4_LEADING_BY_50_TAG);
                },
            }
        },
    }
    proof {
        match m {
            CoinbaseMessage::M4AckBundles(M4AckBundles::TwoBytes { upvotes }) => {
                assert(out@ =~= encode_spec(m@));
            },
            _ => {
                assert(out@ =~= encode_spec(m@));
            },
        }
    }
    out
}

} // verus!
