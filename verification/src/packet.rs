//! The packet codec: framing, byte-stuffing (escaping) and checksum.
//!
//! A frame on the wire is
//! `[START_BYTE] [length: u8] [escaped payload] [checksum: u8] [END_BYTE]`.
//! The three reserved bytes never appear literally inside the escaped
//! payload: each occurrence of one in the raw payload is replaced by
//! `ESCAPE_BYTE` followed by the byte XORed with `ESCAPE_XOR`.  The length
//! and the checksum both cover the escaped payload.

use vstd::prelude::*;

use crate::error::SbtError;

verus! {

/// Start delimiter of every frame.
pub const START_BYTE: u8 = 0x7E;
/// End delimiter of every frame.
pub const END_BYTE: u8 = 0x7F;
/// Introduces an escaped byte inside a payload.
pub const ESCAPE_BYTE: u8 = 0x7D;
/// XOR mask applied to a reserved byte when it is escaped.
pub const ESCAPE_XOR: u8 = 0x20;

/// The bytes that may not appear literally inside an escaped payload.
pub open spec fn is_reserved(b: u8) -> bool {
    b == START_BYTE || b == END_BYTE || b == ESCAPE_BYTE
}

/// The escape encoding of one raw byte: reserved bytes become two bytes,
/// all others pass through.
pub open spec fn escape_one(b: u8) -> Seq<u8> {
    if is_reserved(b) {
        seq![ESCAPE_BYTE, b ^ ESCAPE_XOR]
    } else {
        seq![b]
    }
}

/// The escape encoding of a raw payload.
pub open spec fn escape(s: Seq<u8>) -> Seq<u8>
    decreases s.len(),
{
    if s.len() == 0 {
        Seq::empty()
    } else {
        escape_one(s[0]) + escape(s.skip(1))
    }
}

/// The inverse transform: an `ESCAPE_BYTE` and its successor collapse into
/// one byte, everything else passes through.  A trailing lone
/// `ESCAPE_BYTE` is dropped.
pub open spec fn unescape(s: Seq<u8>) -> Seq<u8>
    decreases s.len(),
{
    if s.len() == 0 {
        Seq::empty()
    } else if s[0] == ESCAPE_BYTE {
        if s.len() == 1 {
            Seq::empty()
        } else {
            seq![s[1] ^ ESCAPE_XOR] + unescape(s.skip(2))
        }
    } else {
        seq![s[0]] + unescape(s.skip(1))
    }
}

/// Addition of two bytes, wrapping at 256.
pub open spec fn wrap_add(a: u8, b: u8) -> u8 {
    ((a + b) % 256) as u8
}

/// The 8-bit wrap-on-overflow sum of a byte sequence.
pub open spec fn checksum(s: Seq<u8>) -> u8
    decreases s.len(),
{
    if s.len() == 0 {
        0u8
    } else {
        wrap_add(checksum(s.drop_last()), s.last())
    }
}

/// The unbounded sum of a byte sequence, for stating what the checksum
/// wraps.
pub open spec fn byte_sum(s: Seq<u8>) -> int
    decreases s.len(),
{
    if s.len() == 0 {
        0
    } else {
        byte_sum(s.drop_last()) + s.last()
    }
}

/// The checksum is the plain byte sum reduced modulo 256.
pub proof fn lemma_checksum_is_sum_mod(s: Seq<u8>)
    ensures
        checksum(s) == byte_sum(s) % 256,
    decreases s.len(),
{
    if s.len() == 0 {
    } else {
        lemma_checksum_is_sum_mod(s.drop_last());
        assert(byte_sum(s.drop_last()) >= 0) by {
            lemma_byte_sum_nonneg(s.drop_last());
        }
    }
}

/// The byte sum is never negative.
pub proof fn lemma_byte_sum_nonneg(s: Seq<u8>)
    ensures
        byte_sum(s) >= 0,
    decreases s.len(),
{
    if s.len() == 0 {
    } else {
        lemma_byte_sum_nonneg(s.drop_last());
    }
}

/// Escaping and unescaping are exact inverses, for every byte sequence,
/// the three reserved values and the escape byte itself included.
pub proof fn lemma_unescape_escape(s: Seq<u8>)
    ensures
        unescape(escape(s)) == s,
    decreases s.len(),
{
    if s.len() == 0 {
    } else {
        lemma_unescape_escape(s.skip(1));
        let b = s[0];
        let e = escape(s);
        if is_reserved(b) {
            assert(e[0] == ESCAPE_BYTE);
            assert(e[1] == (b ^ ESCAPE_XOR));
            assert(e.len() >= 2);
            assert(e.skip(2) =~= escape(s.skip(1)));
            assert(((b ^ 0x20) ^ 0x20) == b) by (bit_vector);
            assert(unescape(e) =~= seq![b] + s.skip(1));
        } else {
            assert(e[0] == b);
            assert(e.skip(1) =~= escape(s.skip(1)));
            assert(unescape(e) =~= seq![b] + s.skip(1));
        }
        assert(seq![b] + s.skip(1) =~= s);
    }
}

/// The end delimiter never appears inside an escaped payload, so a
/// receiver scanning for it cannot stop in the middle of one.
pub proof fn lemma_escape_no_end(s: Seq<u8>)
    ensures
        forall|j: int| 0 <= j < escape(s).len() ==> escape(s)[j] != END_BYTE,
    decreases s.len(),
{
    if s.len() == 0 {
    } else {
        lemma_escape_no_end(s.skip(1));
        let b = s[0];
        assert forall|j: int| 0 <= j < escape(s).len() implies escape(s)[j] != END_BYTE by {
            if is_reserved(b) {
                assert((b == 0x7Du8 || b == 0x7Eu8 || b == 0x7Fu8) ==> ((b ^ 0x20) != 0x7F))
                    by (bit_vector);
                if j >= 2 {
                    assert(escape(s)[j] == escape(s.skip(1))[j - 2]);
                }
            } else {
                if j >= 1 {
                    assert(escape(s)[j] == escape(s.skip(1))[j - 1]);
                }
            }
        }
    }
}

/// The frame a payload becomes on the wire, with an arbitrary checksum
/// byte in the checksum position.
pub open spec fn wire_frame_with(payload: Seq<u8>, cksum: u8) -> Seq<u8> {
    seq![START_BYTE, escape(payload).len() as u8] + escape(payload) + seq![cksum, END_BYTE]
}

/// The frame a payload becomes on the wire: what serializing
/// `Packet::new(payload)` yields.
pub open spec fn wire_frame(payload: Seq<u8>) -> Seq<u8> {
    wire_frame_with(payload, checksum(escape(payload)))
}

/// Decoding inverts encoding: the frame built from any payload passes the
/// structure and checksum checks, and its inner bytes unescape back to
/// that payload.
pub proof fn lemma_encode_decode(p: Seq<u8>)
    requires
        escape(p).len() <= 255,
    ensures
        frame_ok(wire_frame(p)),
        frame_checksum_ok(wire_frame(p)),
        unescape(frame_inner(wire_frame(p))) == p,
{
    let b = wire_frame(p);
    assert(b[0] == START_BYTE);
    assert(b[b.len() - 1] == END_BYTE);
    assert(frame_inner(b) =~= escape(p));
    lemma_unescape_escape(p);
}

/// Corrupting the checksum byte of an encoded frame, to any other value,
/// leaves the structure intact but fails the checksum check, so decoding
/// reports the mismatch.
pub proof fn lemma_checksum_corruption(p: Seq<u8>, c: u8)
    requires
        escape(p).len() <= 255,
        c != checksum(escape(p)),
    ensures
        frame_ok(wire_frame_with(p, c)),
        !frame_checksum_ok(wire_frame_with(p, c)),
{
    let b = wire_frame_with(p, c);
    assert(b[0] == START_BYTE);
    assert(b[b.len() - 1] == END_BYTE);
    assert(frame_inner(b) =~= escape(p));
    assert(b[b.len() - 2] == c);
}

/// A buffer shorter than four bytes, or one that does not begin with the
/// start delimiter and end with the end delimiter, is not a frame.
pub proof fn lemma_malformed_frame(b: Seq<u8>)
    requires
        b.len() < 4 || b[0] != START_BYTE || b[b.len() - 1] != END_BYTE,
    ensures
        !frame_ok(b),
{
}

/// A framed unit on the wire.  After [`Packet::new`] the `payload` field
/// holds the *escaped* payload, which is what `length` counts and
/// `checksum` sums; after [`Packet::from_bytes`] it holds the *unescaped*
/// payload, while `length` and `checksum` keep the values seen on the
/// wire.
pub struct Packet {
    pub start_byte: u8,
    pub length: u8,
    pub payload: Vec<u8>,
    pub checksum: u8,
    pub end_byte: u8,
}

/// The bytes a packet puts on the wire: its fields in frame order.
pub open spec fn spec_serialize(p: Packet) -> Seq<u8> {
    seq![p.start_byte, p.length] + p.payload@ + seq![p.checksum, p.end_byte]
}

/// Structural well-formedness of a received buffer: long enough for the
/// frame skeleton, and delimited by the two fixed bytes.
pub open spec fn frame_ok(b: Seq<u8>) -> bool {
    b.len() >= 4 && b[0] == START_BYTE && b[b.len() - 1] == END_BYTE
}

/// The escaped payload carried between the header and the trailer of a
/// structurally well-formed buffer.
pub open spec fn frame_inner(b: Seq<u8>) -> Seq<u8> {
    b.subrange(2, b.len() - 2)
}

/// The transmitted checksum byte agrees with the one recomputed over the
/// escaped payload.
pub open spec fn frame_checksum_ok(b: Seq<u8>) -> bool {
    checksum(frame_inner(b)) == b[b.len() - 2]
}

impl Packet {
    /// Escapes the payload, then fixes length, checksum and delimiters.
    /// Any byte sequence is encodable; the caller keeps the escaped
    /// payload within the one-byte length field.
    pub fn new(payload: Vec<u8>) -> (p: Packet)
        requires
            escape(payload@).len() <= 255,
        ensures
            p.start_byte == START_BYTE,
            p.end_byte == END_BYTE,
            p.payload@ == escape(payload@),
            p.length == escape(payload@).len(),
            p.checksum == checksum(escape(payload@)),
    {
        let escaped_payload = Self::escape_payload(payload.as_slice());
        let length = escaped_payload.len() as u8;
        let cksum = Self::calculate_checksum(escaped_payload.as_slice());
        Packet {
            start_byte: START_BYTE,
            length,
            payload: escaped_payload,
            checksum: cksum,
            end_byte: END_BYTE,
        }
    }

    /// The 8-bit wraparound sum of the given bytes.
    pub fn calculate_checksum(payload: &[u8]) -> (r: u8)
        ensures
            r == checksum(payload@),
    {
        let mut acc: u8 = 0;
        let mut i: usize = 0;
        while i < payload.len()
            invariant
                i <= payload@.len(),
                acc == checksum(payload@.take(i as int)),
            decreases payload@.len() - i,
        {
            acc = acc.wrapping_add(payload[i]);
            proof {
                assert(payload@.take(i + 1 as int).drop_last() =~= payload@.take(i as int));
                assert(payload@.take(i + 1 as int).last() == payload@[i as int]);
            }
            i = i + 1;
        }
        proof {
            assert(payload@.take(payload@.len() as int) =~= payload@);
        }
        acc
    }

    /// Replaces each reserved byte by the escape byte and the reserved
    /// byte XORed with the mask.
    pub fn escape_payload(payload: &[u8]) -> (r: Vec<u8>)
        ensures
            r@ == escape(payload@),
    {
        let mut escaped_payload: Vec<u8> = Vec::new();
        let mut i: usize = 0;
        proof {
            assert(payload@.skip(0) =~= payload@);
            assert(escaped_payload@ + escape(payload@) =~= escape(payload@));
        }
        while i < payload.len()
            invariant
                i <= payload@.len(),
                escaped_payload@ + escape(payload@.skip(i as int)) == escape(payload@),
            decreases payload@.len() - i,
        {
            let byte = payload[i];
            proof {
                assert(payload@.skip(i as int)[0] == byte);
                assert(payload@.skip(i as int).skip(1) =~= payload@.skip(i + 1 as int));
            }
            let ghost prev = escaped_payload@;
            if byte == START_BYTE || byte == END_BYTE || byte == ESCAPE_BYTE {
                escaped_payload.push(ESCAPE_BYTE);
                escaped_payload.push(byte ^ ESCAPE_XOR);
            } else {
                escaped_payload.push(byte);
            }
            proof {
                assert(escaped_payload@ =~= prev + escape_one(byte));
                assert(escaped_payload@ + escape(payload@.skip(i + 1 as int)) =~= prev + escape(
                    payload@.skip(i as int),
                ));
            }
            i = i + 1;
        }
        proof {
            assert(payload@.skip(payload@.len() as int) =~= Seq::<u8>::empty());
            assert(escaped_payload@ =~= escape(payload@));
        }
        escaped_payload
    }

    /// Undoes the escape encoding.
    pub fn unescape_payload(payload: &[u8]) -> (r: Vec<u8>)
        ensures
            r@ == unescape(payload@),
    {
        let mut unescaped_payload: Vec<u8> = Vec::new();
        let mut i: usize = 0;
        proof {
            assert(payload@.skip(0) =~= payload@);
            assert(unescaped_payload@ + unescape(payload@) =~= unescape(payload@));
        }
        while i < payload.len()
            invariant
                i <= payload@.len(),
                unescaped_payload@ + unescape(payload@.skip(i as int)) == unescape(payload@),
            decreases payload@.len() - i,
        {
            let byte = payload[i];
            proof {
                assert(payload@.skip(i as int)[0] == byte);
            }
            let ghost prev = unescaped_payload@;
            if byte == ESCAPE_BYTE {
                if i + 1 < payload.len() {
                    proof {
                        assert(payload@.skip(i as int)[1] == payload@[i + 1 as int]);
                        assert(payload@.skip(i as int).skip(2) =~= payload@.skip(i + 2 as int));
                    }
                    unescaped_payload.push(payload[i + 1] ^ ESCAPE_XOR);
                    proof {
                        assert(unescaped_payload@ + unescape(payload@.skip(i + 2 as int)) =~= prev
                            + unescape(payload@.skip(i as int)));
                    }
                    i = i + 2;
                } else {
                    proof {
                        assert(payload@.skip(i as int).len() == 1);
                    }
                    i = i + 1;
                }
            } else {
                unescaped_payload.push(byte);
                proof {
                    assert(payload@.skip(i as int).skip(1) =~= payload@.skip(i + 1 as int));
                    assert(unescaped_payload@ + unescape(payload@.skip(i + 1 as int)) =~= prev
                        + unescape(payload@.skip(i as int)));
                }
                i = i + 1;
            }
        }
        proof {
            assert(payload@.skip(payload@.len() as int) =~= Seq::<u8>::empty());
            assert(unescaped_payload@ =~= unescape(payload@));
        }
        unescaped_payload
    }

    /// Concatenates the fields in frame order: start, length, escaped
    /// payload, checksum, end.  No further escaping is applied.
    pub fn to_bytes(&self) -> (r: Vec<u8>)
        ensures
            r@ == spec_serialize(*self),
    {
        let mut bytes: Vec<u8> = Vec::new();
        bytes.push(self.start_byte);
        bytes.push(self.length);
        bytes.extend_from_slice(self.payload.as_slice());
        bytes.push(self.checksum);
        bytes.push(self.end_byte);
        proof {
            assert(bytes@ =~= spec_serialize(*self));
        }
        bytes
    }

    /// Validates the frame skeleton and the checksum, then returns a
    /// packet whose payload is the unescaped bytes and whose length and
    /// checksum are the values seen on the wire.
    pub fn from_bytes(bytes: &[u8]) -> (r: Result<Packet, SbtError>)
        ensures
            match r {
                Ok(p) => frame_ok(bytes@) && frame_checksum_ok(bytes@) && p.start_byte == START_BYTE
                    && p.end_byte == END_BYTE && p.length == bytes@[1] && p.checksum == bytes@[bytes@.len()
                    - 2] && p.payload@ == unescape(frame_inner(bytes@)),
                Err(SbtError::MalformedFrame) => !frame_ok(bytes@),
                Err(SbtError::ChecksumMismatch) => frame_ok(bytes@) && !frame_checksum_ok(bytes@),
                Err(_) => false,
            },
    {
        if bytes.len() < 4 || bytes[0] != START_BYTE || bytes[bytes.len() - 1] != END_BYTE {
            return Err(SbtError::MalformedFrame);
        }
        let length = bytes[1];
        let cksum = bytes[bytes.len() - 2];
        let inner = &bytes[2..bytes.len() - 2];
        proof {
            assert(inner@ =~= frame_inner(bytes@));
        }
        if Self::calculate_checksum(inner) != cksum {
            return Err(SbtError::ChecksumMismatch);
        }
        let unescaped_payload = Self::unescape_payload(inner);
        Ok(Packet {
            start_byte: START_BYTE,
            length,
            payload: unescaped_payload,
            checksum: cksum,
            end_byte: END_BYTE,
        })
    }
}

} // verus!
