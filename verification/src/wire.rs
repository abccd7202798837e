//! Wire format of `Aggregation` messages.
//!
//! A message carries a round number, task metadata that the core forwards
//! opaquely, and a payload variant: a `Start` announcement, a partial
//! signature, or nothing. The encoding is canonical: decoding succeeds
//! exactly on the byte strings that `encode` produces, so re-encoding a
//! decoded message reproduces the received bytes. Everything here is
//! verified; no outside code is involved.

use vstd::prelude::*;

verus! {

/// Payload variant of an `Aggregation` message.
pub enum Payload {
    /// Orchestrator announcement that the round should be signed.
    Start,
    /// A partial BLS signature over the canonical payload, in compressed form.
    Signature(Vec<u8>),
}

/// An `Aggregation` message.
pub struct Message {
    /// Round number of the task.
    pub round: u64,
    /// Task-specific bytes, opaque to the core.
    pub metadata: Vec<u8>,
    /// Payload variant; `None` stands for an absent variant, which handlers
    /// silently ignore.
    pub payload: Option<Payload>,
}

/// Mathematical value of a payload.
#[verifier::ext_equal]
pub enum PayloadView {
    Start,
    Signature(Seq<u8>),
}

/// Mathematical value of a message.
#[verifier::ext_equal]
pub struct MessageView {
    pub round: u64,
    pub metadata: Seq<u8>,
    pub payload: Option<PayloadView>,
}

impl View for Payload {
    type V = PayloadView;

    open spec fn view(&self) -> PayloadView {
        match self {
            Payload::Start => PayloadView::Start,
            Payload::Signature(s) => PayloadView::Signature(s@),
        }
    }
}

impl View for Message {
    type V = MessageView;

    open spec fn view(&self) -> MessageView {
        MessageView {
            round: self.round,
            metadata: self.metadata@,
            payload: match self.payload {
                Option::None => Option::None,
                Option::Some(p) => Option::Some(p@),
            },
        }
    }
}

/// Big-endian bytes of a 64-bit integer.
pub open spec fn be8(x: u64) -> Seq<u8> {
    seq![
        (x >> 56) as u8,
        (x >> 48) as u8,
        (x >> 40) as u8,
        (x >> 32) as u8,
        (x >> 24) as u8,
        (x >> 16) as u8,
        (x >> 8) as u8,
        x as u8,
    ]
}

/// The 64-bit integer read from 8 big-endian bytes.
pub open spec fn from_be8(s: Seq<u8>) -> u64 {
    ((s[0] as u64) << 56) | ((s[1] as u64) << 48) | ((s[2] as u64) << 40) | ((s[3] as u64) << 32)
        | ((s[4] as u64) << 24) | ((s[5] as u64) << 16) | ((s[6] as u64) << 8) | (s[7] as u64)
}

/// Reading back the big-endian bytes of an integer yields the integer.
pub proof fn lemma_from_be8_of_be8(x: u64)
    ensures
        from_be8(be8(x)) == x,
{
    assert((((((x >> 56) as u8) as u64) << 56) | ((((x >> 48) as u8) as u64) << 48) | ((((x
        >> 40) as u8) as u64) << 40) | ((((x >> 32) as u8) as u64) << 32) | ((((x
        >> 24) as u8) as u64) << 24) | ((((x >> 16) as u8) as u64) << 16) | ((((x
        >> 8) as u8) as u64) << 8) | ((x as u8) as u64)) == x) by (bit_vector);
}

/// The big-endian bytes of the integer read from 8 bytes are those bytes.
pub proof fn lemma_be8_of_from_be8(s: Seq<u8>)
    requires
        s.len() == 8,
    ensures
        be8(from_be8(s)) =~= s,
{
    let b0 = s[0];
    let b1 = s[1];
    let b2 = s[2];
    let b3 = s[3];
    let b4 = s[4];
    let b5 = s[5];
    let b6 = s[6];
    let b7 = s[7];
    assert({
        let x: u64 = ((b0 as u64) << 56) | ((b1 as u64) << 48) | ((b2 as u64) << 40) | ((
        b3 as u64) << 32) | ((b4 as u64) << 24) | ((b5 as u64) << 16) | ((b6 as u64) << 8) | (
        b7 as u64);
        (x >> 56) as u8 == b0 && (x >> 48) as u8 == b1 && (x >> 40) as u8 == b2 && (x
            >> 32) as u8 == b3 && (x >> 24) as u8 == b4 && (x >> 16) as u8 == b5 && (x
            >> 8) as u8 == b6 && x as u8 == b7
    }) by (bit_vector);
}

/// Bytes of the payload part of the encoding: a tag, then for a signature its
/// length and bytes.
pub open spec fn payload_bytes(p: Option<PayloadView>) -> Seq<u8> {
    match p {
        Option::None => seq![0u8],
        Option::Some(PayloadView::Start) => seq![1u8],
        Option::Some(PayloadView::Signature(s)) => seq![2u8] + be8(s.len() as u64) + s,
    }
}

/// The canonical encoding of a message: round, metadata length, metadata,
/// payload.
pub open spec fn spec_encode(m: MessageView) -> Seq<u8> {
    be8(m.round) + be8(m.metadata.len() as u64) + m.metadata + payload_bytes(m.payload)
}

/// The message read from a byte string, if the string is a canonical
/// encoding; `None` otherwise.
pub open spec fn spec_decode(b: Seq<u8>) -> Option<MessageView> {
    if b.len() < 17 {
        Option::None
    } else {
        let round: u64 = from_be8(b.subrange(0, 8));
        let mlen: int = from_be8(b.subrange(8, 16)) as int;
        if b.len() < 17 + mlen {
            Option::None
        } else {
            let metadata: Seq<u8> = b.subrange(16, 16 + mlen);
            let tag: u8 = b[16 + mlen];
            if tag == 0 {
                if b.len() == 17 + mlen {
                    Option::Some(
                        (MessageView { round, metadata, payload: Option::None }),
                    )
                } else {
                    Option::None
                }
            } else if tag == 1 {
                if b.len() == 17 + mlen {
                    Option::Some(
                        (MessageView { round, metadata, payload: Option::Some(PayloadView::Start) }),
                    )
                } else {
                    Option::None
                }
            } else if tag == 2 {
                if b.len() < 25 + mlen {
                    Option::None
                } else {
                    let slen: int = from_be8(b.subrange(17 + mlen, 25 + mlen)) as int;
                    if b.len() == 25 + mlen + slen {
                        Option::Some(
                            (MessageView {
                                round,
                                metadata,
                                payload: Option::Some(
                                    PayloadView::Signature(b.subrange(25 + mlen, 25 + mlen + slen)),
                                ),
                            }),
                        )
                    } else {
                        Option::None
                    }
                }
            } else {
                Option::None
            }
        }
    }
}

/// A message whose variable parts have encodable lengths. Every executable
/// message satisfies this.
pub open spec fn encodable(m: MessageView) -> bool {
    m.metadata.len() <= u64::MAX && match m.payload {
        Option::Some(PayloadView::Signature(s)) => s.len() <= u64::MAX,
        _ => true,
    }
}

/// Decoding an encoded message yields the message back.
pub proof fn lemma_decode_of_encode(m: MessageView)
    requires
        encodable(m),
    ensures
        spec_decode(spec_encode(m)) == Option::Some(m),
{
    let b = spec_encode(m);
    let mlen: int = m.metadata.len() as int;
    assert(b.subrange(0, 8) =~= be8(m.round));
    assert(b.subrange(8, 16) =~= be8(m.metadata.len() as u64));
    lemma_from_be8_of_be8(m.round);
    lemma_from_be8_of_be8(m.metadata.len() as u64);
    assert(b.subrange(16, 16 + mlen) =~= m.metadata);
    match m.payload {
        Option::None => {
            assert(b.len() == 17 + mlen);
            assert(b[16 + mlen] == 0u8);
            assert(spec_decode(b) == Option::Some(m));
        },
        Option::Some(PayloadView::Start) => {
            assert(b.len() == 17 + mlen);
            assert(b[16 + mlen] == 1u8);
            assert(spec_decode(b) == Option::Some(m));
        },
        Option::Some(PayloadView::Signature(s)) => {
            let slen: int = s.len() as int;
            assert(b.len() == 25 + mlen + slen);
            assert(b[16 + mlen] == 2u8);
            assert(b.subrange(17 + mlen, 25 + mlen) =~= be8(s.len() as u64));
            lemma_from_be8_of_be8(s.len() as u64);
            assert(b.subrange(25 + mlen, 25 + mlen + slen) =~= s);
            assert(spec_decode(b) == Option::Some(m));
        },
    }
}

/// The encoding is canonical: a byte string that decodes is exactly the
/// encoding of what it decodes to. Hence re-encoding a decoded message
/// reproduces the received bytes, and anything derived deterministically
/// from them — such as the validator's canonical hash — is unchanged.
pub proof fn lemma_encode_of_decode(b: Seq<u8>, m: MessageView)
    requires
        spec_decode(b) == Option::Some(m),
    ensures
        spec_encode(m) =~= b,
{
    let mlen: int = from_be8(b.subrange(8, 16)) as int;
    lemma_be8_of_from_be8(b.subrange(0, 8));
    lemma_be8_of_from_be8(b.subrange(8, 16));
    assert(m.round == from_be8(b.subrange(0, 8)));
    assert(m.metadata =~= b.subrange(16, 16 + mlen));
    assert(m.metadata.len() == mlen);
    assert(be8(m.metadata.len() as u64) =~= b.subrange(8, 16));
    let tag: u8 = b[16 + mlen];
    if tag == 0 || tag == 1 {
        assert(payload_bytes(m.payload) =~= seq![tag]);
        assert(spec_encode(m) =~= b);
    } else {
        assert(tag == 2);
        let slen: int = from_be8(b.subrange(17 + mlen, 25 + mlen)) as int;
        lemma_be8_of_from_be8(b.subrange(17 + mlen, 25 + mlen));
        let s = b.subrange(25 + mlen, 25 + mlen + slen);
        assert(m.payload == Option::Some(PayloadView::Signature(s)));
        assert(s.len() == slen);
        assert(payload_bytes(m.payload) =~= seq![2u8] + b.subrange(17 + mlen, 25 + mlen) + s);
        assert(spec_encode(m) =~= b);
    }
}

/// Appends the big-endian bytes of an integer.
fn push_be8(buf: &mut Vec<u8>, x: u64)
    ensures
        final(buf)@ == old(buf)@ + be8(x),
{
    buf.push((x >> 56) as u8);
    buf.push((x >> 48) as u8);
    buf.push((x >> 40) as u8);
    buf.push((x >> 32) as u8);
    buf.push((x >> 24) as u8);
    buf.push((x >> 16) as u8);
    buf.push((x >> 8) as u8);
    buf.push(x as u8);
    proof {
        assert(buf@ =~= old(buf)@ + be8(x));
    }
}

/// Appends a copy of a byte string.
fn push_bytes(buf: &mut Vec<u8>, v: &Vec<u8>)
    ensures
        final(buf)@ == old(buf)@ + v@,
{
    let mut i: usize = 0;
    while i < v.len()
        invariant
            i <= v@.len(),
            buf@ == old(buf)@ + v@.take(i as int),
        decreases v@.len() - i,
    {
        buf.push(v[i]);
        proof {
            assert(buf@ =~= old(buf)@ + v@.take(i + 1));
        }
        i += 1;
    }
    proof {
        assert(old(buf)@ + v@.take(v@.len() as int) =~= old(buf)@ + v@);
    }
}

/// Encodes a message canonically.
pub fn encode(m: &Message) -> (r: Vec<u8>)
    ensures
        r@ == spec_encode(m@),
{
    let mut buf: Vec<u8> = Vec::new();
    push_be8(&mut buf, m.round);
    push_be8(&mut buf, m.metadata.len() as u64);
    push_bytes(&mut buf, &m.metadata);
    match &m.payload {
        Option::None => {
            buf.push(0u8);
        },
        Option::Some(Payload::Start) => {
            buf.push(1u8);
        },
        Option::Some(Payload::Signature(s)) => {
            buf.push(2u8);
            push_be8(&mut buf, s.len() as u64);
            push_bytes(&mut buf, s);
        },
    }
    proof {
        assert(buf@ =~= spec_encode(m@));
    }
    buf
}

/// Reads the 64-bit big-endian integer at an offset.
fn read_be8(b: &Vec<u8>, off: usize) -> (r: u64)
    requires
        off + 8 <= b@.len(),
    ensures
        r == from_be8(b@.subrange(off as int, off as int + 8)),
{
    let n: usize = b.len();
    assert(off + 8 <= n);
    let r = ((b[off] as u64) << 56) | ((b[off + 1] as u64) << 48) | ((b[off + 2] as u64) << 40) | ((
    b[off + 3] as u64) << 32) | ((b[off + 4] as u64) << 24) | ((b[off + 5] as u64) << 16) | ((b[off
        + 6] as u64) << 8) | (b[off + 7] as u64);
    proof {
        let s = b@.subrange(off as int, off as int + 8);
        assert(s[0] == b@[off as int]);
        assert(s[1] == b@[off as int + 1]);
        assert(s[2] == b@[off as int + 2]);
        assert(s[3] == b@[off as int + 3]);
        assert(s[4] == b@[off as int + 4]);
        assert(s[5] == b@[off as int + 5]);
        assert(s[6] == b@[off as int + 6]);
        assert(s[7] == b@[off as int + 7]);
    }
    r
}

/// Copies the bytes in `[start, end)`.
fn copy_range(b: &Vec<u8>, start: usize, end: usize) -> (r: Vec<u8>)
    requires
        start <= end,
        end <= b@.len(),
    ensures
        r@ == b@.subrange(start as int, end as int),
{
    let mut r: Vec<u8> = Vec::new();
    let mut i: usize = start;
    while i < end
        invariant
            start <= i <= end,
            end <= b@.len(),
            r@ == b@.subrange(start as int, i as int),
        decreases end - i,
    {
        r.push(b[i]);
        proof {
            assert(r@ =~= b@.subrange(start as int, i + 1));
        }
        i += 1;
    }
    r
}

/// Decodes a byte string; yields `None` unless the string is a canonical
/// encoding.
pub fn decode(b: &Vec<u8>) -> (r: Option<Message>)
    ensures
        match r {
            Option::Some(m) => spec_decode(b@) == Option::Some(m@),
            Option::None => spec_decode(b@) is None,
        },
{
    let blen: u64 = b.len() as u64;
    if blen < 17 {
        return Option::None;
    }
    let round: u64 = read_be8(b, 0);
    let mlen64: u64 = read_be8(b, 8);
    if mlen64 > blen - 17 {
        return Option::None;
    }
    let mlen: usize = mlen64 as usize;
    let metadata = copy_range(b, 16, 16 + mlen);
    let tag: u8 = b[16 + mlen];
    if tag == 0 || tag == 1 {
        if b.len() == 17 + mlen {
            let payload: Option<Payload> = if tag == 0 {
                Option::None
            } else {
                Option::Some(Payload::Start)
            };
            let m = Message { round, metadata, payload };
            proof {
                assert(spec_decode(b@) == Option::Some(m@));
            }
            Option::Some(m)
        } else {
            Option::None
        }
    } else if tag == 2 {
        if blen - 17 - mlen64 < 8 {
            return Option::None;
        }
        let slen64: u64 = read_be8(b, 17 + mlen);
        if slen64 > blen - 25 - mlen64 {
            return Option::None;
        }
        let slen: usize = slen64 as usize;
        if b.len() != 25 + mlen + slen {
            return Option::None;
        }
        let sig = copy_range(b, 25 + mlen, 25 + mlen + slen);
        let m = Message { round, metadata, payload: Option::Some(Payload::Signature(sig)) };
        proof {
            assert(spec_decode(b@) == Option::Some(m@));
        }
        Option::Some(m)
    } else {
        Option::None
    }
}

} // verus!
