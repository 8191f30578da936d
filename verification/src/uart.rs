//! The channel capability and the single-packet transport: fire-and-forget
//! send, acknowledged send with retries, and a receive that scans the
//! incoming bytes for one complete frame.

use vstd::prelude::*;

use crate::error::SbtError;
use crate::packet::{
    checksum, escape, frame_checksum_ok, frame_inner, frame_ok, lemma_escape_no_end,
    spec_serialize, unescape, wire_frame, wrap_add, Packet, END_BYTE, START_BYTE,
};

verus! {

/// A single raw acknowledgment byte, outside the framing format.
pub const ACK_BYTE: u8 = 0x06;
/// A single raw negative-acknowledgment byte, outside the framing format.
pub const NACK_BYTE: u8 = 0x15;

/// The channel capability the transport is built on: a half-duplex,
/// byte-at-a-time serial line.  Implement this trait to run the library
/// over a real device.
///
/// A channel value is modelled by three sequences: everything written to
/// it so far, the bytes it still has to hand out, in order, and the
/// verdicts of its coming writes.  `read` consumes the front of
/// `inbound`; `write` consumes the front verdict of `faults` and either
/// appends exactly its bytes or fails leaving them — a channel with no
/// pending verdict accepts every write.
pub trait Uart: Sized {
    /// The bytes written to the channel so far.  The default leaves the
    /// model unconstrained; an implementation whose callers reason about
    /// the channel overrides it, as the in-memory channel does.
    closed spec fn written(&self) -> Seq<u8> {
        vstd::pervasive::arbitrary()
    }

    /// The bytes the channel will hand to `read`, in order.  The default
    /// leaves the model unconstrained, as for `written`.
    closed spec fn inbound(&self) -> Seq<u8> {
        vstd::pervasive::arbitrary()
    }

    /// The verdicts of the coming writes, front first: `true` makes the
    /// next write fail.  When no verdict is pending, writes succeed.  The
    /// default leaves the model unconstrained, as for `written`.
    closed spec fn faults(&self) -> Seq<bool> {
        vstd::pervasive::arbitrary()
    }

    /// Writes all the given bytes, or fails leaving the channel as it
    /// was, as the front write verdict says.
    fn write(&mut self, data: &[u8]) -> (r: Result<usize, SbtError>)
        ensures
            final(self).inbound() == old(self).inbound(),
            final(self).faults() == if old(self).faults().len() > 0 {
                old(self).faults().skip(1)
            } else {
                old(self).faults()
            },
            (r is Err) == (old(self).faults().len() > 0 && old(self).faults()[0]),
            match r {
                Ok(n) => n == data@.len() && final(self).written() == old(self).written() + data@,
                Err(e) => e == SbtError::WriteFailure && final(self).written() == old(self).written(),
            },
    ;

    /// Reads the next byte, or reports that none is available.
    fn read(&mut self) -> (r: Option<u8>)
        ensures
            final(self).written() == old(self).written(),
            final(self).faults() == old(self).faults(),
            match r {
                Some(b) => old(self).inbound().len() > 0 && b == old(self).inbound()[0] && final(self).inbound() == old(self).inbound().skip(1),
                None => old(self).inbound().len() == 0 && final(self).inbound() == old(self).inbound(),
            },
    ;
}

/// No pending write verdict is a fault: every coming write of the
/// channel will succeed.
pub open spec fn writes_succeed(faults: Seq<bool>) -> bool {
    forall|i: int| 0 <= i < faults.len() ==> !faults[i]
}

/// A channel whose writes all succeed keeps that property as verdicts
/// are consumed from the front.
pub proof fn lemma_writes_succeed_skip(faults: Seq<bool>, k: int)
    requires
        writes_succeed(faults),
        0 <= k <= faults.len(),
    ensures
        writes_succeed(faults.skip(k)),
{
    assert forall|i: int| 0 <= i < faults.skip(k).len() implies !faults.skip(k)[i] by {
        assert(faults.skip(k)[i] == faults[i + k]);
    }
}

/// A sequence is a prefix of itself extended.
pub proof fn lemma_prefix_append(a: Seq<u8>, c: Seq<u8>)
    ensures
        a.is_prefix_of(a + c),
{
    assert((a + c).subrange(0, a.len() as int) =~= a);
}

/// Being a prefix carries across a middle sequence.
pub proof fn lemma_prefix_trans(a: Seq<u8>, b: Seq<u8>, c: Seq<u8>)
    requires
        a.is_prefix_of(b),
        b.is_prefix_of(c),
    ensures
        a.is_prefix_of(c),
{
    assert(c.subrange(0, a.len() as int) =~= b.subrange(0, a.len() as int));
}

/// The given byte sequence repeated `n` times.
pub open spec fn repeat_bytes(s: Seq<u8>, n: int) -> Seq<u8>
    decreases n,
{
    if n <= 0 {
        Seq::empty()
    } else {
        s + repeat_bytes(s, n - 1)
    }
}

/// One more repetition appends one more copy at the end.
pub proof fn lemma_repeat_bytes_snoc(s: Seq<u8>, n: int)
    requires
        n >= 0,
    ensures
        repeat_bytes(s, n + 1) == repeat_bytes(s, n) + s,
    decreases n,
{
    if n == 0 {
        assert(repeat_bytes(s, 0) == Seq::<u8>::empty());
        assert(repeat_bytes(s, 1) == s + repeat_bytes(s, 0));
        assert(s + Seq::<u8>::empty() =~= Seq::<u8>::empty() + s);
    } else {
        lemma_repeat_bytes_snoc(s, n - 1);
        assert(repeat_bytes(s, n + 1) == s + repeat_bytes(s, n));
        assert(s + (repeat_bytes(s, n - 1) + s) =~= (s + repeat_bytes(s, n - 1)) + s);
    }
}

/// The position of the first end delimiter in a byte sequence, or its
/// length if there is none.
pub open spec fn end_pos(s: Seq<u8>) -> int
    decreases s.len(),
{
    if s.len() == 0 {
        0
    } else if s[0] == END_BYTE {
        0
    } else {
        1 + end_pos(s.skip(1))
    }
}

/// What `end_pos` means: it is in range, it points at an end delimiter
/// when one exists, and nothing before it is one.
pub proof fn lemma_end_pos(s: Seq<u8>)
    ensures
        0 <= end_pos(s) <= s.len(),
        end_pos(s) < s.len() ==> s[end_pos(s)] == END_BYTE,
        forall|j: int| 0 <= j < end_pos(s) ==> s[j] != END_BYTE,
    decreases s.len(),
{
    if s.len() == 0 {
    } else if s[0] == END_BYTE {
    } else {
        lemma_end_pos(s.skip(1));
        assert forall|j: int| 0 <= j < end_pos(s) implies s[j] != END_BYTE by {
            if j > 0 {
                assert(s[j] == s.skip(1)[j - 1]);
            }
        }
        if end_pos(s) < s.len() {
            assert(s[end_pos(s)] == s.skip(1)[end_pos(s.skip(1))]);
        }
    }
}

/// An end delimiter with none before it pins `end_pos` down.
pub proof fn lemma_end_pos_at(s: Seq<u8>, k: int)
    requires
        0 <= k < s.len(),
        s[k] == END_BYTE,
        forall|j: int| 0 <= j < k ==> s[j] != END_BYTE,
    ensures
        end_pos(s) == k,
    decreases s.len(),
{
    if k == 0 {
    } else {
        assert(s[0] != END_BYTE);
        assert(s.skip(1)[k - 1] == s[k]);
        assert forall|j: int| 0 <= j < k - 1 implies s.skip(1)[j] != END_BYTE by {
            assert(s.skip(1)[j] == s[j + 1]);
        }
        lemma_end_pos_at(s.skip(1), k - 1);
    }
}

/// Serializes the packet and writes it to the channel in one piece,
/// without waiting for an acknowledgment.
pub fn send_packet<U: Uart>(uart: &mut U, packet: &Packet) -> (r: Result<usize, SbtError>)
    ensures
        final(uart).inbound() == old(uart).inbound(),
        final(uart).faults() == if old(uart).faults().len() > 0 {
            old(uart).faults().skip(1)
        } else {
            old(uart).faults()
        },
        (r is Err) == (old(uart).faults().len() > 0 && old(uart).faults()[0]),
        match r {
            Ok(n) => n == spec_serialize(*packet).len() && final(uart).written() == old(uart).written() + spec_serialize(*packet),
            Err(e) => e == SbtError::WriteFailure && final(uart).written() == old(uart).written(),
        },
{
    let bytes = packet.to_bytes();
    match uart.write(bytes.as_slice()) {
        Ok(n) => Ok(n),
        Err(_) => Err(SbtError::WriteFailure),
    }
}

/// Sends the packet and waits for an acknowledgment, up to `retries`
/// times.  Each attempt writes the packet once and then polls the channel
/// at most `timeout` times: an ACK byte ends the call successfully, a NACK
/// byte or an exhausted window triggers the next attempt, and any other
/// byte is discarded.  With no ACK after the last attempt the call fails
/// with `AckTimeout`, having transmitted the packet exactly `retries`
/// times.
#[verifier::loop_isolation(false)]
pub fn send_packet_with_ack<U: Uart>(
    uart: &mut U,
    packet: &Packet,
    retries: usize,
    timeout: u64,
) -> (r: Result<(), SbtError>)
    ensures
        exists|k: int|
            0 <= k <= old(uart).inbound().len() && final(uart).inbound() == old(uart).inbound().skip(k),
        match r {
            Ok(_) => (exists|i: int|
                0 <= i < old(uart).inbound().len() && old(uart).inbound()[i] == ACK_BYTE) && (
            exists|k: int|
                1 <= k <= retries && final(uart).written() == old(uart).written() + repeat_bytes(
                    spec_serialize(*packet),
                    k,
                )),
            Err(SbtError::AckTimeout) => final(uart).written() == old(uart).written()
                + repeat_bytes(spec_serialize(*packet), retries as int),
            Err(SbtError::WriteFailure) => exists|k: int|
                0 <= k < retries && final(uart).written() == old(uart).written() + repeat_bytes(
                    spec_serialize(*packet),
                    k,
                ),
            Err(_) => false,
        },
        (old(uart).inbound().len() > 0 && old(uart).inbound()[0] == ACK_BYTE && r matches Ok(_))
            ==> (final(uart).written() == old(uart).written() + spec_serialize(*packet) && final(uart).inbound() == old(uart).inbound().skip(1)),
        writes_succeed(old(uart).faults()) ==> writes_succeed(final(uart).faults()),
        writes_succeed(old(uart).faults()) ==> !(r matches Err(SbtError::WriteFailure)),
        (retries >= 1 && timeout >= 1 && old(uart).inbound().len() > 0 && old(uart).inbound()[0]
            == ACK_BYTE) ==> !(r matches Err(SbtError::AckTimeout)),
        (writes_succeed(old(uart).faults()) && retries >= 1 && timeout >= 1 && old(uart).inbound().len() > 0
            && old(uart).inbound()[0] == ACK_BYTE) ==> r matches Ok(_),
        (writes_succeed(old(uart).faults()) && (forall|i: int|
            0 <= i < old(uart).inbound().len() ==> old(uart).inbound()[i] != ACK_BYTE)) ==> r
            == Err::<(), SbtError>(SbtError::AckTimeout),
        r matches Err(SbtError::AckTimeout) ==> exists|k: int|
            0 <= k <= old(uart).inbound().len() && final(uart).inbound() == old(uart).inbound().skip(k)
                && (forall|i: int| 0 <= i < k ==> old(uart).inbound()[i] != ACK_BYTE),
        (old(uart).inbound().len() > 0 && old(uart).inbound()[0] == ACK_BYTE && timeout >= 1 && r
            matches Err(_)) ==> (final(uart).inbound() == old(uart).inbound() && final(uart).written() == old(uart).written()),
        old(uart).written().is_prefix_of(final(uart).written()),
{
    let ghost s0 = *uart;
    let ghost pkt_bytes = spec_serialize(*packet);
    let ghost ack_first = s0.inbound().len() > 0 && s0.inbound()[0] == ACK_BYTE;
    let ghost mut consumed: int = 0;
    let mut attempt: usize = 0;
    proof {
        assert(s0.inbound().skip(0) =~= s0.inbound());
        assert(s0.written() + repeat_bytes(pkt_bytes, 0) =~= s0.written());
        assert(s0.written().subrange(0, s0.written().len() as int) =~= s0.written());
    }
    while attempt < retries
        invariant
            attempt <= retries,
            pkt_bytes == spec_serialize(*packet),
            ack_first == (s0.inbound().len() > 0 && s0.inbound()[0] == ACK_BYTE),
            uart.written() == s0.written() + repeat_bytes(pkt_bytes, attempt as int),
            0 <= consumed <= s0.inbound().len(),
            uart.inbound() == s0.inbound().skip(consumed),
            forall|i: int| 0 <= i < consumed ==> s0.inbound()[i] != ACK_BYTE,
            ack_first ==> consumed == 0 && (attempt == 0 || timeout == 0),
            writes_succeed(s0.faults()) ==> writes_succeed(uart.faults()),
            s0.written().is_prefix_of(uart.written()),
        decreases retries - attempt,
    {
        let ghost faults_here = uart.faults();
        match send_packet(uart, packet) {
            Ok(_) => {
                proof {
                    lemma_repeat_bytes_snoc(pkt_bytes, attempt as int);
                    if writes_succeed(s0.faults()) && faults_here.len() > 0 {
                        lemma_writes_succeed_skip(faults_here, 1);
                    }
                    lemma_prefix_append(s0.written(), repeat_bytes(pkt_bytes, attempt as int + 1));
                }
            },
            Err(_) => {
                proof {
                    assert(faults_here.len() > 0 && faults_here[0]);
                    assert(!writes_succeed(s0.faults()));
                    assert(exists|k: int|
                        0 <= k <= s0.inbound().len() && uart.inbound() == s0.inbound().skip(k));
                    if ack_first && timeout >= 1 {
                        assert(uart.inbound() =~= s0.inbound());
                        assert(uart.written() =~= s0.written());
                    }
                }
                return Err(SbtError::WriteFailure);
            },
        }
        let mut polls: u64 = 0;
        while polls < timeout
            invariant
                attempt < retries,
                pkt_bytes == spec_serialize(*packet),
                ack_first == (s0.inbound().len() > 0 && s0.inbound()[0] == ACK_BYTE),
                uart.written() == s0.written() + repeat_bytes(pkt_bytes, attempt as int + 1),
                0 <= consumed <= s0.inbound().len(),
                uart.inbound() == s0.inbound().skip(consumed),
                forall|i: int| 0 <= i < consumed ==> s0.inbound()[i] != ACK_BYTE,
                ack_first ==> consumed == 0 && polls == 0 && (attempt == 0 || timeout == 0),
                writes_succeed(s0.faults()) ==> writes_succeed(uart.faults()),
                s0.written().is_prefix_of(uart.written()),
                polls <= timeout,
            decreases timeout - polls,
        {
            match uart.read() {
                Some(response) => {
                    proof {
                        assert(s0.inbound().skip(consumed)[0] == s0.inbound()[consumed]);
                        assert(s0.inbound().skip(consumed).skip(1) =~= s0.inbound().skip(
                            consumed + 1,
                        ));
                        consumed = consumed + 1;
                    }
                    if response == ACK_BYTE {
                        proof {
                            lemma_repeat_bytes_snoc(pkt_bytes, attempt as int);
                            if ack_first {
                                assert(repeat_bytes(pkt_bytes, 1) =~= pkt_bytes + Seq::<
                                    u8,
                                >::empty());
                                assert(pkt_bytes + Seq::<u8>::empty() =~= pkt_bytes);
                            }
                        }
                        return Ok(());
                    } else if response == NACK_BYTE {
                        // a NACK abandons the rest of this window
                        polls = timeout;
                    } else {
                        polls = polls + 1;
                    }
                },
                None => {
                    polls = polls + 1;
                },
            }
        }
        attempt = attempt + 1;
    }
    Err(SbtError::AckTimeout)
}

/// The most data bytes one fragment carries, the sequence byte not
/// counted.
pub const FRAG_DATA_MAX: usize = 249;

/// The cap on a fragment's unescaped payload, the sequence byte included.
/// A payload this long tells the receiver that more fragments follow; a
/// shorter one ends the message.
pub const MAX_FRAG_PAYLOAD: usize = 250;

/// How many fragments a buffer of the given length becomes: one for each
/// full 249-byte slice, and one for the remainder.  When the length is an
/// exact multiple of 249 (an empty buffer included) the remainder fragment
/// carries only the sequence byte, so the receiver always sees a
/// terminating short fragment.
pub open spec fn n_frags(len: int) -> int {
    len / (FRAG_DATA_MAX as int) + 1
}

/// The sequence byte of fragment `i`: a one-byte counter wrapping at 256.
pub open spec fn seq_byte(i: int) -> u8 {
    (i % 256) as u8
}

/// The slice of the buffer that fragment `i` carries.
pub open spec fn frag_data(data: Seq<u8>, i: int) -> Seq<u8> {
    let lo = i * (FRAG_DATA_MAX as int);
    let hi = if lo + (FRAG_DATA_MAX as int) <= data.len() {
        lo + (FRAG_DATA_MAX as int)
    } else {
        data.len() as int
    };
    data.subrange(lo, hi)
}

/// The unescaped payload of fragment `i`: its sequence byte, then its
/// slice of the buffer.
pub open spec fn frag_payload(data: Seq<u8>, i: int) -> Seq<u8> {
    seq![seq_byte(i)] + frag_data(data, i)
}

/// The frame fragment `i` becomes on the wire.
pub open spec fn frag_frame(data: Seq<u8>, i: int) -> Seq<u8> {
    wire_frame(frag_payload(data, i))
}

/// Every fragment's escaped payload fits the one-byte length field.  The
/// caller of the fragmented send keeps this; in the worst case, a slice
/// whose bytes all need escaping, it bounds the usable slice length.
pub open spec fn frag_encodable(data: Seq<u8>) -> bool {
    forall|i: int|
        0 <= i < n_frags(data.len() as int) ==> (#[trigger] escape(frag_payload(data, i))).len()
            <= 255
}

/// The frames of fragments `i` onward, concatenated in order.
pub open spec fn frag_stream_from(data: Seq<u8>, i: int) -> Seq<u8>
    decreases n_frags(data.len() as int) - i,
{
    if i < 0 || i >= n_frags(data.len() as int) {
        Seq::empty()
    } else {
        frag_frame(data, i) + frag_stream_from(data, i + 1)
    }
}

/// Everything the fragmented send puts on the wire for a buffer, when
/// every fragment is acknowledged first time.
pub open spec fn frag_stream(data: Seq<u8>) -> Seq<u8> {
    frag_stream_from(data, 0)
}

/// The frames of the first `i` fragments, concatenated in order.
pub open spec fn frag_stream_upto(data: Seq<u8>, i: int) -> Seq<u8>
    decreases i,
{
    if i <= 0 {
        Seq::empty()
    } else {
        frag_stream_upto(data, i - 1) + frag_frame(data, i - 1)
    }
}

/// Splitting the stream after the first `i` frames loses nothing.
pub proof fn lemma_frag_stream_split(data: Seq<u8>, i: int)
    requires
        0 <= i <= n_frags(data.len() as int),
    ensures
        frag_stream_upto(data, i) + frag_stream_from(data, i) == frag_stream(data),
    decreases i,
{
    if i == 0 {
        assert(Seq::<u8>::empty() + frag_stream_from(data, 0) =~= frag_stream_from(data, 0));
    } else {
        lemma_frag_stream_split(data, i - 1);
        assert(frag_stream_from(data, i - 1) == frag_frame(data, i - 1) + frag_stream_from(
            data,
            i,
        ));
        assert((frag_stream_upto(data, i - 1) + frag_frame(data, i - 1)) + frag_stream_from(data, i)
            =~= frag_stream_upto(data, i - 1) + (frag_frame(data, i - 1) + frag_stream_from(
            data,
            i,
        )));
    }
}

/// The first `n` bytes waiting on the channel are all ACKs.
pub open spec fn all_acks(s: Seq<u8>, n: int) -> bool {
    n <= s.len() && forall|i: int| 0 <= i < n ==> s[i] == ACK_BYTE
}

/// Splits the buffer into fragments of at most 249 data bytes, prepends
/// each fragment's sequence byte, and sends each as an acknowledged
/// packet, in order; a failed send aborts the whole operation.  An empty
/// buffer still sends one fragment of just the sequence byte, and a buffer
/// whose length is an exact multiple of 249 ends with such a fragment too,
/// so the receiver always observes a terminating short fragment.
/// The arithmetic behind the fragment boundaries: fragment `i` starts
/// within the buffer, and it is full exactly when another 249 data bytes
/// fit.
proof fn lemma_frag_arith(len: int, i: int)
    requires
        0 <= i,
        0 <= len,
        i <= len / 249,
    ensures
        i * 249 <= len,
        (i * 249 + 249 <= len) <==> (i + 1 <= len / 249),
{
    vstd::arithmetic::div_mod::lemma_fundamental_div_mod(len, 249);
    vstd::arithmetic::mul::lemma_mul_inequality(i, len / 249, 249);
    if i * 249 + 249 <= len {
        vstd::arithmetic::div_mod::lemma_div_is_ordered((i + 1) * 249, len, 249);
        vstd::arithmetic::div_mod::lemma_div_multiples_vanish(i + 1, 249);
        assert((i + 1) * 249 == 249 * (i + 1));
    }
    if i + 1 <= len / 249 {
        vstd::arithmetic::mul::lemma_mul_inequality(i + 1, len / 249, 249);
    }
}

/// Builds fragment `idx` of the buffer — its sequence byte, then the
/// slice starting at `offset` — and sends it as one acknowledged packet.
/// Returns where the next fragment's slice starts.
#[verifier::loop_isolation(false)]
fn send_fragment<U: Uart>(
    uart: &mut U,
    data: &Vec<u8>,
    offset: usize,
    sequence: u8,
    retries: usize,
    timeout: u64,
    idx: Ghost<int>,
) -> (r: Result<usize, SbtError>)
    requires
        frag_encodable(data@),
        0 <= idx@ <= data@.len() as int / 249,
        offset == idx@ * 249,
        sequence == seq_byte(idx@),
    ensures
        exists|k: int|
            0 <= k <= old(uart).inbound().len() && final(uart).inbound() == old(uart).inbound().skip(k),
        match r {
            Ok(next) => next == if idx@ * 249 + 249 <= data@.len() {
                idx@ * 249 + 249
            } else {
                data@.len() as int
            } && (idx@ + 1 <= data@.len() as int / 249 <==> next == idx@ * 249 + 249),
            Err(e) => e == SbtError::AckTimeout || e == SbtError::WriteFailure,
        },
        (old(uart).inbound().len() > 0 && old(uart).inbound()[0] == ACK_BYTE && r matches Ok(_))
            ==> (final(uart).written() == old(uart).written() + frag_frame(data@, idx@) && final(uart).inbound() == old(uart).inbound().skip(1)),
        writes_succeed(old(uart).faults()) ==> writes_succeed(final(uart).faults()),
        writes_succeed(old(uart).faults()) ==> !(r matches Err(SbtError::WriteFailure)),
        (retries >= 1 && timeout >= 1 && old(uart).inbound().len() > 0 && old(uart).inbound()[0]
            == ACK_BYTE) ==> !(r matches Err(SbtError::AckTimeout)),
        (writes_succeed(old(uart).faults()) && retries >= 1 && timeout >= 1 && old(uart).inbound().len() > 0
            && old(uart).inbound()[0] == ACK_BYTE) ==> r matches Ok(_),
        (old(uart).inbound().len() > 0 && old(uart).inbound()[0] == ACK_BYTE && timeout >= 1 && r
            matches Err(_)) ==> (final(uart).inbound() == old(uart).inbound() && final(uart).written() == old(uart).written()),
        old(uart).written().is_prefix_of(final(uart).written()),
{
    proof {
        lemma_frag_arith(data@.len() as int, idx@);
    }
    let hi = if data.len() - offset > FRAG_DATA_MAX {
        offset + FRAG_DATA_MAX
    } else {
        data.len()
    };
    let mut payload: Vec<u8> = Vec::new();
    payload.push(sequence);
    payload.extend_from_slice(&data.as_slice()[offset..hi]);
    proof {
        assert(payload@ =~= frag_payload(data@, idx@));
        assert(escape(frag_payload(data@, idx@)).len() <= 255);
    }
    let packet = Packet::new(payload);
    proof {
        assert(spec_serialize(packet) =~= frag_frame(data@, idx@));
    }
    match send_packet_with_ack(uart, &packet, retries, timeout) {
        Ok(_) => Ok(hi),
        Err(e) => Err(e),
    }
}

#[verifier::loop_isolation(false)]
#[verifier::rlimit(100)]
pub fn send_multiple_packets_with_ack<U: Uart>(
    uart: &mut U,
    data: &Vec<u8>,
    retries: usize,
    timeout: u64,
) -> (r: Result<(), SbtError>)
    requires
        frag_encodable(data@),
    ensures
        exists|k: int|
            0 <= k <= old(uart).inbound().len() && final(uart).inbound() == old(uart).inbound().skip(k),
        match r {
            Ok(_) => true,
            Err(e) => e == SbtError::AckTimeout || e == SbtError::WriteFailure,
        },
        (all_acks(old(uart).inbound(), n_frags(data@.len() as int)) && timeout >= 1 && r matches Ok(_)) ==> (
        final(uart).written() == old(uart).written() + frag_stream(data@) && final(uart).inbound()
            == old(uart).inbound().skip(n_frags(data@.len() as int))),
        writes_succeed(old(uart).faults()) ==> writes_succeed(final(uart).faults()),
        writes_succeed(old(uart).faults()) ==> !(r matches Err(SbtError::WriteFailure)),
        (all_acks(old(uart).inbound(), n_frags(data@.len() as int)) && timeout >= 1 && retries >= 1
            && !(r matches Err(SbtError::WriteFailure))) ==> r matches Ok(_),
        (writes_succeed(old(uart).faults()) && all_acks(old(uart).inbound(), n_frags(
            data@.len() as int,
        )) && timeout >= 1 && retries >= 1) ==> r matches Ok(_),
        old(uart).written().is_prefix_of(final(uart).written()),
{
    let ghost s0 = *uart;
    let ghost nf = n_frags(data@.len() as int);
    let ghost happy = all_acks(s0.inbound(), nf) && timeout >= 1;
    let ghost mut taken: int = 0;
    let count = data.len() / FRAG_DATA_MAX + 1;
    let mut sequence: u8 = 0;
    let mut offset: usize = 0;
    let mut idx: usize = 0;
    proof {
        assert(s0.inbound().skip(0) =~= s0.inbound());
        assert(s0.written() + Seq::<u8>::empty() =~= s0.written());
        assert(s0.written().subrange(0, s0.written().len() as int) =~= s0.written());
    }
    while idx < count
        invariant
            idx <= count,
            count == nf,
            sequence == seq_byte(idx as int),
            idx < count ==> offset == idx * (FRAG_DATA_MAX as int),
            0 <= taken <= s0.inbound().len(),
            uart.inbound() == s0.inbound().skip(taken),
            writes_succeed(s0.faults()) ==> writes_succeed(uart.faults()),
            s0.written().is_prefix_of(uart.written()),
            happy ==> uart.written() == s0.written() + frag_stream_upto(data@, idx as int)
                && uart.inbound() == s0.inbound().skip(idx as int),
        decreases count - idx,
    {
        let ghost before = *uart;
        proof {
            if happy {
                assert(s0.inbound()[idx as int] == ACK_BYTE);
                assert(before.inbound()[0] == ACK_BYTE);
            }
        }
        let next = match send_fragment(uart, data, offset, sequence, retries, timeout, Ghost(
            idx as int,
        )) {
            Ok(next) => next,
            Err(e) => {
                proof {
                    let k2 = choose|k: int|
                        0 <= k <= before.inbound().len() && uart.inbound() == before.inbound().skip(
                            k,
                        );
                    assert(s0.inbound().skip(taken).skip(k2) =~= s0.inbound().skip(taken + k2));
                    taken = taken + k2;
                    lemma_prefix_trans(s0.written(), before.written(), uart.written());
                }
                return Err(e);
            },
        };
        proof {
            let k2 = choose|k: int|
                0 <= k <= before.inbound().len() && uart.inbound() == before.inbound().skip(k);
            assert(s0.inbound().skip(taken).skip(k2) =~= s0.inbound().skip(taken + k2));
            taken = taken + k2;
            lemma_prefix_trans(s0.written(), before.written(), uart.written());
            if happy {
                assert(uart.written() == s0.written() + (frag_stream_upto(data@, idx as int)
                    + frag_frame(data@, idx as int)));
                assert(s0.inbound().skip(idx as int).skip(1) =~= s0.inbound().skip(idx as int + 1));
            }
        }
        sequence = sequence.wrapping_add(1);
        proof {
            assert(seq_byte(idx as int + 1) == wrap_add(seq_byte(idx as int), 1));
        }
        offset = next;
        idx = idx + 1;
    }
    proof {
        if happy {
            lemma_frag_stream_split(data@, nf);
        }
    }
    Ok(())
}

/// Accumulates incoming bytes until the end delimiter is seen, then
/// decodes the buffer as one frame.  A channel that runs out of bytes
/// before any end delimiter fails the receive.
#[verifier::loop_isolation(false)]
pub fn receive_packet<U: Uart>(uart: &mut U) -> (r: Result<Packet, SbtError>)
    ensures
        final(uart).written() == old(uart).written(),
        final(uart).faults() == old(uart).faults(),
        ({
            let s = old(uart).inbound();
            if end_pos(s) >= s.len() {
                r == Err::<Packet, SbtError>(SbtError::ReceiveTimeout) && final(uart).inbound().len() == 0
            } else {
                let frame = s.take(end_pos(s) + 1);
                final(uart).inbound() == s.skip(end_pos(s) + 1) && match r {
                    Ok(p) => frame_ok(frame) && frame_checksum_ok(frame) && p.start_byte
                        == START_BYTE && p.end_byte == END_BYTE && p.length == frame[1]
                        && p.checksum == frame[frame.len() - 2] && p.payload@ == unescape(
                        frame_inner(frame),
                    ),
                    Err(SbtError::MalformedFrame) => !frame_ok(frame),
                    Err(SbtError::ChecksumMismatch) => frame_ok(frame) && !frame_checksum_ok(
                        frame,
                    ),
                    Err(_) => false,
                }
            }
        }),
{
    let ghost s0 = *uart;
    let mut buffer: Vec<u8> = Vec::new();
    proof {
        assert(s0.inbound().take(0) =~= buffer@);
        assert(s0.inbound().skip(0) =~= s0.inbound());
    }
    loop
        invariant
            uart.written() == s0.written(),
            uart.faults() == s0.faults(),
            buffer@.len() <= s0.inbound().len(),
            buffer@ == s0.inbound().take(buffer@.len() as int),
            uart.inbound() == s0.inbound().skip(buffer@.len() as int),
            forall|j: int| 0 <= j < buffer@.len() ==> s0.inbound()[j] != END_BYTE,
        decreases s0.inbound().len() - buffer@.len(),
    {
        let ghost n = buffer@.len() as int;
        match uart.read() {
            Some(byte) => {
                proof {
                    assert(s0.inbound().skip(n)[0] == s0.inbound()[n]);
                    assert(s0.inbound().skip(n).skip(1) =~= s0.inbound().skip(n + 1));
                }
                buffer.push(byte);
                proof {
                    assert(buffer@ =~= s0.inbound().take(n + 1));
                }
                if byte == END_BYTE {
                    proof {
                        lemma_end_pos_at(s0.inbound(), n);
                        assert(buffer@ =~= s0.inbound().take(end_pos(s0.inbound()) + 1));
                    }
                    return Packet::from_bytes(buffer.as_slice());
                }
            },
            None => {
                proof {
                    assert(s0.inbound().skip(n).len() == 0);
                    lemma_end_pos(s0.inbound());
                    assert(end_pos(s0.inbound()) >= s0.inbound().len());
                }
                return Err(SbtError::ReceiveTimeout);
            },
        }
    }
}

/// What reassembling fragments from a byte sequence yields, together with
/// the bytes left unread: frames are scanned and decoded one at a time,
/// each must carry the expected sequence byte, its data is appended, and
/// a payload shorter than the fragment cap ends the message.  Any failure
/// ends the whole receive with that error.
pub open spec fn reassemble(s: Seq<u8>, expect: u8) -> (Result<Seq<u8>, SbtError>, Seq<u8>)
    decreases s.len(),
{
    if end_pos(s) >= s.len() {
        (Err(SbtError::ReceiveTimeout), Seq::empty())
    } else {
        let frame = s.take(end_pos(s) + 1);
        let rest = s.skip(end_pos(s) + 1);
        if !frame_ok(frame) {
            (Err(SbtError::MalformedFrame), rest)
        } else if !frame_checksum_ok(frame) {
            (Err(SbtError::ChecksumMismatch), rest)
        } else {
            let payload = unescape(frame_inner(frame));
            if payload.len() == 0 {
                (Err(SbtError::EmptyPacket), rest)
            } else if payload[0] != expect {
                (Err(SbtError::OutOfOrder), rest)
            } else if payload.len() < MAX_FRAG_PAYLOAD as int {
                (Ok(payload.skip(1)), rest)
            } else {
                proof {
                    lemma_end_pos(s);
                }
                let next = reassemble(rest, wrap_add(expect, 1));
                (
                    match next.0 {
                        Ok(d) => Ok(payload.skip(1) + d),
                        Err(e) => Err(e),
                    },
                    next.1,
                )
            }
        }
    }
}

/// The wire bytes of a frame scan cleanly: no interior byte of the frame
/// is the end delimiter, so the first end delimiter a receiver sees is
/// the frame's own.  The escaped payload is clean by construction; the
/// length byte and the checksum byte are literal on the wire, so this
/// asks that neither happens to equal the end delimiter.
pub open spec fn frame_scan_clean(payload: Seq<u8>) -> bool {
    escape(payload).len() != END_BYTE as int && checksum(escape(payload)) != END_BYTE
}

/// Every fragment of a buffer scans cleanly on the wire.
pub open spec fn frag_wire_clean(data: Seq<u8>) -> bool {
    forall|i: int|
        0 <= i < n_frags(data.len() as int) ==> frame_scan_clean(#[trigger] frag_payload(data, i))
}

/// In an encoded frame followed by anything, the first end delimiter is
/// the frame's own last byte, so a receiver scanning for it consumes
/// exactly the frame.
pub proof fn lemma_wire_frame_scan(q: Seq<u8>, rest: Seq<u8>)
    requires
        escape(q).len() <= 255,
        frame_scan_clean(q),
    ensures
        end_pos(wire_frame(q) + rest) == wire_frame(q).len() - 1,
        (wire_frame(q) + rest).take(wire_frame(q).len() as int) == wire_frame(q),
        (wire_frame(q) + rest).skip(wire_frame(q).len() as int) == rest,
{
    let f = wire_frame(q);
    let s = f + rest;
    let n = f.len() as int;
    lemma_escape_no_end(q);
    assert(n == escape(q).len() + 4);
    assert forall|j: int| 0 <= j < n - 1 implies s[j] != END_BYTE by {
        assert(s[j] == f[j]);
        if j == 0 {
            assert(f[0] == START_BYTE);
        } else if j == 1 {
            assert(f[1] == escape(q).len() as u8);
        } else if j < n - 2 {
            assert(f[j] == escape(q)[j - 2]);
        } else {
            assert(f[j] == checksum(escape(q)));
        }
    }
    assert(s[n - 1] == f[n - 1]);
    assert(f[n - 1] == END_BYTE);
    lemma_end_pos_at(s, n - 1);
    assert(s.take(n) =~= f);
    assert(s.skip(n) =~= rest);
}

/// Reassembling a buffer's own fragment stream, from fragment `i` onward
/// and with `i`'s sequence byte expected, yields exactly the rest of the
/// buffer and leaves exactly the trailing bytes unread.
#[verifier::rlimit(60)]
pub proof fn lemma_reassemble_stream_from(data: Seq<u8>, i: int, rest: Seq<u8>)
    requires
        frag_encodable(data),
        frag_wire_clean(data),
        0 <= i < n_frags(data.len() as int),
    ensures
        reassemble(frag_stream_from(data, i) + rest, seq_byte(i)) == (
            Ok::<Seq<u8>, SbtError>(data.skip(i * (FRAG_DATA_MAX as int))),
            rest,
        ),
    decreases n_frags(data.len() as int) - i,
{
    let len = data.len() as int;
    let nf = n_frags(len);
    let lo = i * (FRAG_DATA_MAX as int);
    lemma_frag_arith(len, i);
    if i == nf - 1 {
        let q = frag_payload(data, i);
        let f = frag_frame(data, i);
        let rest2 = frag_stream_from(data, i + 1) + rest;
        let s = frag_stream_from(data, i) + rest;
        assert(s =~= f + rest2);
        assert(escape(q).len() <= 255);
        assert(frame_scan_clean(q));
        lemma_wire_frame_scan(q, rest2);
        crate::packet::lemma_encode_decode(q);
        assert(s.take(end_pos(s) + 1) == f);
        assert(s.skip(end_pos(s) + 1) == rest2);
        assert(unescape(frame_inner(f)) == q);
        assert(q[0] == seq_byte(i));
        assert(i == len / 249);
        assert(len - lo == len % 249) by {
            vstd::arithmetic::div_mod::lemma_fundamental_div_mod(len, 249);
        }
        assert(!(lo + (FRAG_DATA_MAX as int) <= len));
        assert(frag_data(data, i) == data.subrange(lo, len));
        assert(q.len() == 1 + (len - lo));
        assert(q.len() < MAX_FRAG_PAYLOAD as int);
        assert(frag_stream_from(data, i + 1) == Seq::<u8>::empty());
        assert(rest2 =~= rest);
        assert(q.skip(1) =~= data.skip(lo));
    } else {
        let tail = frag_stream_from(data, i + 1) + rest;
        assert(frag_stream_from(data, i) + rest =~= frag_frame(data, i) + tail);
        lemma_reassemble_full_frag_step(data, i, tail);
        lemma_reassemble_stream_from(data, i + 1, rest);
        assert((i + 1) * (FRAG_DATA_MAX as int) == lo + (FRAG_DATA_MAX as int));
        assert(lo + (FRAG_DATA_MAX as int) <= len) by {
            vstd::arithmetic::mul::lemma_mul_inequality(i + 1, len / 249, 249);
            vstd::arithmetic::div_mod::lemma_fundamental_div_mod(len, 249);
        }
        assert(frag_data(data, i) == data.subrange(lo, lo + 249));
        assert(frag_data(data, i) + data.skip(lo + 249) =~= data.skip(lo));
    }
}

/// Fragmentation round trip: the stream of frames that the fragmented
/// send emits for any buffer, handed whole to the reassembler, yields
/// exactly that buffer back, leaves any trailing bytes unread, and the
/// sequence bytes observed on the wire run 0, 1, 2, ... wrapping at 256.
pub proof fn lemma_send_receive_roundtrip(data: Seq<u8>, rest: Seq<u8>)
    requires
        frag_encodable(data),
        frag_wire_clean(data),
    ensures
        reassemble(frag_stream(data) + rest, 0) == (Ok::<Seq<u8>, SbtError>(data), rest),
{
    lemma_reassemble_stream_from(data, 0, rest);
    assert(data.skip(0) =~= data);
}

/// A fragment bearing any sequence byte other than the expected one ends
/// the receive with `OutOfOrder`, and none of its data is taken.
pub proof fn lemma_out_of_order(q: Seq<u8>, rest: Seq<u8>, expect: u8)
    requires
        escape(q).len() <= 255,
        frame_scan_clean(q),
        q.len() > 0,
        q[0] != expect,
    ensures
        reassemble(wire_frame(q) + rest, expect) == (
            Err::<Seq<u8>, SbtError>(SbtError::OutOfOrder),
            rest,
        ),
{
    lemma_wire_frame_scan(q, rest);
    crate::packet::lemma_encode_decode(q);
    let s = wire_frame(q) + rest;
    assert(end_pos(s) < s.len());
    assert(s.take(end_pos(s) + 1) == wire_frame(q));
    assert(s.skip(end_pos(s) + 1) == rest);
}

/// The frames of fragments `j` up to, not including, `i`, concatenated
/// in order.
pub open spec fn frag_stream_range(data: Seq<u8>, j: int, i: int) -> Seq<u8>
    decreases i - j,
{
    if j < 0 || j >= i {
        Seq::empty()
    } else {
        frag_frame(data, j) + frag_stream_range(data, j + 1, i)
    }
}

/// Extending the range by one appends that fragment's frame.
pub proof fn lemma_frag_stream_range_snoc(data: Seq<u8>, j: int, i: int)
    requires
        0 <= j <= i,
    ensures
        frag_stream_range(data, j, i + 1) == frag_stream_range(data, j, i) + frag_frame(data, i),
    decreases i - j,
{
    if j == i {
        assert(frag_stream_range(data, j, i) == Seq::<u8>::empty());
        assert(frag_stream_range(data, i + 1, i + 1) == Seq::<u8>::empty());
        assert(frag_stream_range(data, j, i + 1) == frag_frame(data, i) + frag_stream_range(
            data,
            i + 1,
            i + 1,
        ));
        assert(frag_frame(data, i) + Seq::<u8>::empty() =~= Seq::<u8>::empty() + frag_frame(
            data,
            i,
        ));
    } else {
        lemma_frag_stream_range_snoc(data, j + 1, i);
        assert(frag_frame(data, j) + (frag_stream_range(data, j + 1, i) + frag_frame(data, i))
            =~= (frag_frame(data, j) + frag_stream_range(data, j + 1, i)) + frag_frame(data, i));
    }
}

/// The first `i` frames are the range from 0 to `i`.
pub proof fn lemma_upto_is_range(data: Seq<u8>, i: int)
    requires
        i >= 0,
    ensures
        frag_stream_upto(data, i) == frag_stream_range(data, 0, i),
    decreases i,
{
    if i > 0 {
        lemma_upto_is_range(data, i - 1);
        lemma_frag_stream_range_snoc(data, 0, i - 1);
    }
}

/// Reassembling from a full fragment's frame: the frame is consumed
/// whole, its data is taken, and reassembly continues behind it with the
/// next sequence byte expected.
#[verifier::rlimit(60)]
proof fn lemma_reassemble_full_frag_step(data: Seq<u8>, j: int, tail: Seq<u8>)
    requires
        frag_encodable(data),
        frag_wire_clean(data),
        0 <= j < n_frags(data.len() as int) - 1,
    ensures
        reassemble(frag_frame(data, j) + tail, seq_byte(j)).1 == reassemble(
            tail,
            seq_byte(j + 1),
        ).1,
        reassemble(frag_frame(data, j) + tail, seq_byte(j)).0 == (match reassemble(
            tail,
            seq_byte(j + 1),
        ).0 {
            Ok(d) => Ok::<Seq<u8>, SbtError>(frag_data(data, j) + d),
            Err(e) => Err::<Seq<u8>, SbtError>(e),
        }),
{
    let len = data.len() as int;
    let p = frag_payload(data, j);
    let f = frag_frame(data, j);
    let s = f + tail;
    assert(escape(p).len() <= 255);
    assert(frame_scan_clean(p));
    lemma_wire_frame_scan(p, tail);
    crate::packet::lemma_encode_decode(p);
    assert(end_pos(s) == f.len() - 1);
    assert(s.take(end_pos(s) + 1) == f);
    assert(s.skip(end_pos(s) + 1) == tail);
    assert(unescape(frame_inner(f)) == p);
    assert(p[0] == seq_byte(j));
    lemma_frag_arith(len, j);
    assert(j * 249 + 249 <= len) by {
        vstd::arithmetic::mul::lemma_mul_inequality(j + 1, len / 249, 249);
        vstd::arithmetic::div_mod::lemma_fundamental_div_mod(len, 249);
    }
    assert(frag_data(data, j).len() == 249);
    assert(p.len() == MAX_FRAG_PAYLOAD as int);
    assert(wrap_add(seq_byte(j), 1) == seq_byte(j + 1));
    assert(p.skip(1) =~= frag_data(data, j));
}

/// After any number of in-order full fragments of a buffer, a frame
/// bearing the wrong sequence byte ends reassembly with that error.
proof fn lemma_out_of_order_from(data: Seq<u8>, j: int, i: int, q: Seq<u8>, rest: Seq<u8>)
    requires
        frag_encodable(data),
        frag_wire_clean(data),
        0 <= j <= i < n_frags(data.len() as int),
        escape(q).len() <= 255,
        frame_scan_clean(q),
        q.len() > 0,
        q[0] != seq_byte(i),
    ensures
        reassemble(frag_stream_range(data, j, i) + (wire_frame(q) + rest), seq_byte(j)) == (
            Err::<Seq<u8>, SbtError>(SbtError::OutOfOrder),
            rest,
        ),
    decreases i - j,
{
    if j == i {
        assert(frag_stream_range(data, j, i) + (wire_frame(q) + rest) =~= wire_frame(q) + rest);
        lemma_out_of_order(q, rest, seq_byte(i));
    } else {
        let tail = frag_stream_range(data, j + 1, i) + (wire_frame(q) + rest);
        assert(frag_stream_range(data, j, i) + (wire_frame(q) + rest) =~= frag_frame(data, j)
            + tail);
        lemma_reassemble_full_frag_step(data, j, tail);
        lemma_out_of_order_from(data, j + 1, i, q, rest);
    }
}

/// After any number of in-order fragments of a buffer, a frame bearing a
/// sequence byte other than the expected next one ends reassembly with
/// `OutOfOrder`: no data is returned, and the bytes after that frame are
/// left untouched.
pub proof fn lemma_out_of_order_mid(data: Seq<u8>, i: int, q: Seq<u8>, rest: Seq<u8>)
    requires
        frag_encodable(data),
        frag_wire_clean(data),
        0 <= i < n_frags(data.len() as int),
        escape(q).len() <= 255,
        frame_scan_clean(q),
        q.len() > 0,
        q[0] != seq_byte(i),
    ensures
        reassemble(frag_stream_upto(data, i) + (wire_frame(q) + rest), 0) == (
            Err::<Seq<u8>, SbtError>(SbtError::OutOfOrder),
            rest,
        ),
{
    lemma_upto_is_range(data, i);
    lemma_out_of_order_from(data, 0, i, q, rest);
}

/// Whatever reassembly does, the bytes it leaves unread are a suffix of
/// the bytes it was given.
pub proof fn lemma_reassemble_suffix(s: Seq<u8>, expect: u8)
    ensures
        exists|k: int| 0 <= k <= s.len() && reassemble(s, expect).1 == s.skip(k),
    decreases s.len(),
{
    lemma_end_pos(s);
    if end_pos(s) >= s.len() {
        assert(s.skip(s.len() as int) =~= Seq::<u8>::empty());
        assert(reassemble(s, expect).1 == s.skip(s.len() as int));
    } else {
        let frame = s.take(end_pos(s) + 1);
        let rest = s.skip(end_pos(s) + 1);
        if frame_ok(frame) && frame_checksum_ok(frame) && unescape(frame_inner(frame)).len() > 0
            && unescape(frame_inner(frame))[0] == expect && unescape(frame_inner(frame)).len()
            >= MAX_FRAG_PAYLOAD as int {
            lemma_reassemble_suffix(rest, wrap_add(expect, 1));
            let k2 = choose|k: int|
                0 <= k <= rest.len() && reassemble(rest, wrap_add(expect, 1)).1 == rest.skip(k);
            assert(rest.skip(k2) =~= s.skip(end_pos(s) + 1 + k2));
            assert(reassemble(s, expect).1 == s.skip(end_pos(s) + 1 + k2));
        } else {
            assert(reassemble(s, expect).1 == s.skip(end_pos(s) + 1));
        }
    }
}

/// Reassembly only ever fails with a receive-side error: never with the
/// send side's write or acknowledgment failures.
pub proof fn lemma_reassemble_err_kinds(s: Seq<u8>, expect: u8)
    ensures
        !(reassemble(s, expect).0 matches Err(SbtError::WriteFailure)),
        !(reassemble(s, expect).0 matches Err(SbtError::AckTimeout)),
        !(reassemble(s, expect).0 matches Err(SbtError::MalformedResponse)),
    decreases s.len(),
{
    lemma_end_pos(s);
    if end_pos(s) < s.len() {
        lemma_reassemble_err_kinds(s.skip(end_pos(s) + 1), wrap_add(expect, 1));
    }
}

/// Receives sequence-numbered fragments, strictly in order, starting at
/// sequence 0, and concatenates their data; a fragment whose payload is
/// shorter than the fragment cap ends the message.  Out-of-order or empty
/// fragments, and every frame-level failure, end the receive with that
/// error and no data.
#[verifier::loop_isolation(false)]
pub fn receive_multiple_packets<U: Uart>(uart: &mut U) -> (r: Result<Vec<u8>, SbtError>)
    ensures
        final(uart).written() == old(uart).written(),
        final(uart).faults() == old(uart).faults(),
        final(uart).inbound() == reassemble(old(uart).inbound(), 0).1,
        match r {
            Ok(v) => reassemble(old(uart).inbound(), 0).0 == Ok::<Seq<u8>, SbtError>(v@),
            Err(e) => reassemble(old(uart).inbound(), 0).0 == Err::<Seq<u8>, SbtError>(e),
        },
{
    let ghost s0 = *uart;
    let mut data: Vec<u8> = Vec::new();
    let mut expected_sequence: u8 = 0;
    proof {
        let orig = reassemble(s0.inbound(), 0);
        if orig.0 is Ok {
            assert(Seq::<u8>::empty() + orig.0->Ok_0 =~= orig.0->Ok_0);
        }
    }
    loop
        invariant
            uart.written() == s0.written(),
            uart.faults() == s0.faults(),
            reassemble(s0.inbound(), 0).1 == reassemble(uart.inbound(), expected_sequence).1,
            reassemble(s0.inbound(), 0).0 == (match reassemble(uart.inbound(), expected_sequence).0 {
                Ok(d) => Ok::<Seq<u8>, SbtError>(data@ + d),
                Err(e) => Err::<Seq<u8>, SbtError>(e),
            }),
        decreases uart.inbound().len(),
    {
        let ghost cur = uart.inbound();
        proof {
            lemma_end_pos(cur);
        }
        let packet = match receive_packet(uart) {
            Ok(p) => p,
            Err(e) => {
                return Err(e);
            },
        };
        if packet.payload.len() == 0 {
            return Err(SbtError::EmptyPacket);
        }
        let sequence = packet.payload[0];
        if sequence != expected_sequence {
            return Err(SbtError::OutOfOrder);
        }
        let ghost payload = unescape(frame_inner(cur.take(end_pos(cur) + 1)));
        let ghost data_before = data@;
        data.extend_from_slice(&packet.payload.as_slice()[1..packet.payload.len()]);
        proof {
            assert(packet.payload@.subrange(1, packet.payload@.len() as int) =~= payload.skip(1));
            assert(data@ =~= data_before + payload.skip(1));
        }
        expected_sequence = expected_sequence.wrapping_add(1);
        if packet.payload.len() < MAX_FRAG_PAYLOAD {
            return Ok(data);
        }
        proof {
            let next = reassemble(uart.inbound(), expected_sequence);
            if next.0 is Ok {
                assert(data_before + (payload.skip(1) + next.0->Ok_0) =~= (data_before
                    + payload.skip(1)) + next.0->Ok_0);
            }
        }
    }
}

} // verus!
