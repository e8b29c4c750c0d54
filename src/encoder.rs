use crate::packet::{is_binary_packet, size_hint_of, text_bytes_of, text_of, utf8_len, Packet};
use crate::queue::{PacketQueue, QueueView};
use vstd::prelude::*;
use vstd::std_specs::iter::IteratorSpec;
use vstd::string::*;
use vstd::utf8::*;

verus! {

broadcast use {vstd::string::axiom_spec_iter, vstd::string::next_postcondition};

/// One HTTP response body: the encoded packets, and whether the binary frame
/// grammar was used (the body is then an octet stream rather than text).
pub struct Payload {
    pub data: Vec<u8>,
    pub has_binary: bool,
}

impl Payload {
    pub fn new(data: Vec<u8>, has_binary: bool) -> (r: Payload)
        ensures
            r.data@ == data@,
            r.has_binary == has_binary,
    {
        Payload { data, has_binary }
    }
}

/// Why an encoder returned no payload.
pub enum Error {
    /// The queue is closed and holds no packet: no packet will ever come.
    Aborted,
    /// The queue is open and holds no packet: the caller has to wait for one
    /// and encode again.
    WouldBlock,
}

/// Separator between two frames of the byte grammar.
pub const BINARY_PACKET_SEPARATOR_V3: u8 = 0xff;

/// Separator between the length and the text of a text frame.
pub const STRING_PACKET_SEPARATOR_V3: u8 = 0x3a;

/// Separator between two packets of a current-protocol payload.
pub const PACKET_SEPARATOR_V4: char = '\u{1e}';

/// The decimal digits of `n`, most significant first, the digit `d` written
/// as the byte `zero + d`.
pub open spec fn decimal(n: nat, zero: u8) -> Seq<u8>
    decreases n,
{
    if n < 10 {
        seq![(zero + n) as u8]
    } else {
        decimal(n / 10, zero).push((zero + n % 10) as u8)
    }
}

/// A packet framed in the legacy text grammar: the number of characters of
/// its text, `:`, and the text.
pub open spec fn string_frame(p: Packet) -> Seq<u8> {
    decimal(text_of(p).len(), 48) + seq![STRING_PACKET_SEPARATOR_V3] + text_bytes_of(p)
}

/// A packet framed in the legacy byte grammar. A legacy binary packet: tag 1,
/// the digits of its length plus one, the separator, the message type 4 and
/// the raw bytes. Any other packet: tag 0, the digits of the byte length of
/// its text, the separator and the text.
pub open spec fn binary_frame(p: Packet) -> Seq<u8> {
    match p {
        Packet::BinaryV3(d) => seq![1u8] + decimal(d@.len() + 1, 0) + seq![
            BINARY_PACKET_SEPARATOR_V3,
            4u8,
        ] + d@,
        _ => seq![0u8] + decimal(text_bytes_of(p).len(), 0) + seq![BINARY_PACKET_SEPARATOR_V3]
            + text_bytes_of(p),
    }
}

/// The text frames of the packets, one after another.
pub open spec fn string_frames(ps: Seq<Packet>) -> Seq<u8>
    decreases ps.len(),
{
    if ps.len() == 0 {
        seq![]
    } else {
        string_frames(ps.drop_last()) + string_frame(ps.last())
    }
}

/// The byte frames of the packets, one after another.
pub open spec fn binary_frames(ps: Seq<Packet>) -> Seq<u8>
    decreases ps.len(),
{
    if ps.len() == 0 {
        seq![]
    } else {
        binary_frames(ps.drop_last()) + binary_frame(ps.last())
    }
}

/// The texts of the packets joined by the record separator.
pub open spec fn v4_text(ps: Seq<Packet>) -> Seq<char>
    decreases ps.len(),
{
    if ps.len() == 0 {
        seq![]
    } else if ps.len() == 1 {
        text_of(ps[0])
    } else {
        v4_text(ps.drop_last()) + seq![PACKET_SEPARATOR_V4] + text_of(ps.last())
    }
}

/// Whether one of the packets is binary.
pub open spec fn any_binary(ps: Seq<Packet>) -> bool {
    exists|i: int| 0 <= i < ps.len() && is_binary_packet(#[trigger] ps[i])
}

proof fn lemma_utf8_len_ge(s: Seq<char>)
    ensures
        encode_utf8(s).len() >= s.len(),
    decreases s.len(),
{
    if s.len() > 0 {
        lemma_utf8_len_ge(s.drop_first());
    }
}

/// Number of characters of a string.
fn char_count(s: &str) -> (n: usize)
    ensures
        n == s@.len(),
{
    let byte_len = s.as_bytes().len();
    proof {
        lemma_utf8_len_ge(s@);
    }
    let mut it = s.chars();
    let mut n: usize = 0;
    loop
        invariant
            n + it.remaining().len() == s@.len(),
            s@.len() <= byte_len,
        ensures
            n == s@.len(),
        decreases byte_len - n,
    {
        match it.next() {
            Some(_) => {
                n = n + 1;
            },
            None => {
                break ;
            },
        }
    }
    n
}

/// Appends the decimal digits of `n`, the digit `d` written as `zero + d`.
fn push_decimal(n: u128, zero: u8, data: &mut Vec<u8>)
    requires
        zero <= 48,
    ensures
        final(data)@ == old(data)@ + decimal(n as nat, zero),
    decreases n,
{
    if n >= 10 {
        push_decimal(n / 10, zero, data);
    }
    data.push(zero + (n % 10) as u8);
    assert(final(data)@ =~= old(data)@ + decimal(n as nat, zero));
}

/// Number of decimal digits of `n`.
fn decimal_len(n: u64) -> (r: u128)
    ensures
        r == decimal(n as nat, 0).len(),
        r <= n + 1,
    decreases n,
{
    if n < 10 {
        1
    } else {
        1 + decimal_len(n / 10)
    }
}

/// Appends the bytes of a slice.
fn push_bytes(data: &mut Vec<u8>, bytes: &[u8])
    ensures
        final(data)@ == old(data)@ + bytes@,
{
    let mut i: usize = 0;
    while i < bytes.len()
        invariant
            i <= bytes@.len(),
            data@ == old(data)@ + bytes@.subrange(0, i as int),
        decreases bytes@.len() - i,
    {
        data.push(bytes[i]);
        i = i + 1;
        assert(data@ =~= old(data)@ + bytes@.subrange(0, i as int));
    }
    assert(bytes@.subrange(0, i as int) =~= bytes@);
}

/// Appends one packet framed in the legacy byte grammar (see `binary_frame`).
pub fn v3_bin_packet_encoder(packet: Packet, data: &mut Vec<u8>) -> (r: Result<(), Error>)
    requires
        crate::packet::encodable(packet),
    ensures
        r is Ok,
        final(data)@ == old(data)@ + binary_frame(packet),
{
    match packet {
        Packet::BinaryV3(bin) => {
            data.push(0x1);
            push_decimal(bin.len() as u128 + 1, 0, data);
            data.push(BINARY_PACKET_SEPARATOR_V3);
            data.push(0x04);
            push_bytes(data, bin.as_slice());
            assert(final(data)@ =~= old(data)@ + binary_frame(Packet::BinaryV3(bin)));
        },
        packet => {
            let ghost p = packet;
            let text = packet.into_text();
            let bytes = text.as_str().as_bytes();
            data.push(0x0);
            push_decimal(bytes.len() as u128, 0, data);
            data.push(BINARY_PACKET_SEPARATOR_V3);
            push_bytes(data, bytes);
            assert(final(data)@ =~= old(data)@ + binary_frame(p));
        },
    }
    Ok(())
}

/// Appends one packet framed in the legacy text grammar (see `string_frame`).
pub fn v3_string_packet_encoder(packet: Packet, data: &mut Vec<u8>) -> (r: Result<(), Error>)
    requires
        crate::packet::encodable(packet),
    ensures
        r is Ok,
        final(data)@ == old(data)@ + string_frame(packet),
{
    let ghost p = packet;
    let text = packet.into_text();
    let count = char_count(text.as_str());
    push_decimal(count as u128, 48, data);
    data.push(STRING_PACKET_SEPARATOR_V3);
    push_bytes(data, text.as_str().as_bytes());
    assert(final(data)@ =~= old(data)@ + string_frame(p));
    Ok(())
}

/// One step of draining: the next packet is taken when the payload length
/// so far plus its estimated length stays within `max_payload`. Taking a
/// `Close` packet also discards the packet after it, if any, and closes the
/// queue.
pub open spec fn drain_step(q: QueueView, payload_len: int, max_payload: int, b64: bool) -> (
    QueueView,
    Option<Packet>,
) {
    if q.packets.len() == 0 || payload_len + size_hint_of(q.packets[0], b64) > max_payload {
        (q, None)
    } else {
        let p = q.packets[0];
        let rest = q.packets.drop_first();
        if p is Close {
            (
                QueueView {
                    packets: if rest.len() > 0 {
                        rest.drop_first()
                    } else {
                        rest
                    },
                    closed: true,
                },
                Some(p),
            )
        } else {
            (QueueView { packets: rest, closed: q.closed }, Some(p))
        }
    }
}

/// Draining a queue step after step, the budget starting at `payload_len`
/// and moved on by `next` after each packet taken: the queue left, and the
/// packets taken in order.
pub open spec fn drain(
    q: QueueView,
    payload_len: int,
    max_payload: int,
    b64: bool,
    next: spec_fn(int, Packet) -> int,
) -> (QueueView, Seq<Packet>)
    decreases q.packets.len(),
{
    let step = drain_step(q, payload_len, max_payload, b64);
    if step.1 is Some && step.0.packets.len() < q.packets.len() {
        let p = step.1->Some_0;
        let rest = drain(step.0, next(payload_len, p), max_payload, b64, next);
        (rest.0, seq![p] + rest.1)
    } else {
        (step.0, seq![])
    }
}

/// The blocking take, where it need not wait: the next packet, if any, with
/// no budget check (taking `Close` closes the queue); otherwise `Aborted` on
/// a closed queue and `WouldBlock` on an open one.
pub open spec fn fallback_step(q: QueueView) -> (QueueView, Result<Packet, Error>) {
    if q.packets.len() > 0 {
        let p = q.packets[0];
        (QueueView { packets: q.packets.drop_first(), closed: q.closed || p is Close }, Ok(p))
    } else if q.closed {
        (q, Err(Error::Aborted))
    } else {
        (q, Err(Error::WouldBlock))
    }
}

/// What an encoder hands back: the bytes and the binary flag of the
/// payload, or the error.
pub open spec fn outcome_matches(r: Result<Payload, Error>, o: Result<(Seq<u8>, bool), Error>) -> bool {
    match r {
        Ok(p) => o == Ok::<(Seq<u8>, bool), Error>((p.data@, p.has_binary)),
        Err(e) => o == Err::<(Seq<u8>, bool), Error>(e),
    }
}

/// Takes the next packet if the payload length so far plus its estimated
/// length stays within `max_payload` (see `drain_step`). Never waits.
pub fn try_recv_packet(rx: &mut PacketQueue, payload_len: u128, max_payload: u64, b64: bool) -> (r:
    Option<Packet>)
    requires
        old(rx)@.wf(),
    ensures
        (final(rx)@, r) == drain_step(old(rx)@, payload_len as int, max_payload as int, b64),
        final(rx)@.wf(),
{
    if let Some(packet) = rx.peek() {
        let hint = packet.get_size_hint(b64);
        if hint > max_payload as u128 || payload_len > max_payload as u128 - hint {
            return None;
        }
    }
    let packet = rx.try_recv();
    if let Some(Packet::Close) = packet {
        rx.try_recv();
        rx.close();
    }
    proof {
        let q = old(rx)@;
        if q.packets.len() > 0 && q.packets[0] is Close {
            let rest = q.packets.drop_first();
            if rest.len() > 0 {
                assert(final(rx)@.packets =~= rest.drop_first());
            }
        }
    }
    packet
}

/// Takes the next packet with no budget check (see `fallback_step`).
pub fn recv_packet(rx: &mut PacketQueue) -> (r: Result<Packet, Error>)
    requires
        old(rx)@.wf(),
    ensures
        (final(rx)@, r) == fallback_step(old(rx)@),
        final(rx)@.wf(),
{
    match rx.try_recv() {
        Some(packet) => {
            if packet.is_close() {
                rx.close();
            }
            Ok(packet)
        },
        None => {
            if rx.is_closed() {
                Err(Error::Aborted)
            } else {
                Err(Error::WouldBlock)
            }
        },
    }
}

proof fn lemma_separator_utf8()
    ensures
        encode_utf8(seq![PACKET_SEPARATOR_V4]).len() == 1,
{
    reveal_with_fuel(encode_utf8, 2);
    assert(seq![PACKET_SEPARATOR_V4].drop_first() =~= Seq::<char>::empty());
}

proof fn lemma_text_nonempty(p: Packet)
    ensures
        text_of(p).len() >= 1,
{
}

proof fn lemma_utf8_concat(a: Seq<char>, b: Seq<char>)
    ensures
        encode_utf8(a + b) == encode_utf8(a) + encode_utf8(b),
    decreases a.len(),
{
    if a.len() == 0 {
        assert(a + b =~= b);
    } else {
        lemma_utf8_concat(a.drop_first(), b);
        assert((a + b).drop_first() =~= a.drop_first() + b);
    }
}

/// The budget of the current encoder: the byte length of the text so far,
/// plus one for the separator before the next packet.
pub open spec fn v4_budget() -> spec_fn(int, Packet) -> int {
    |len: int, p: Packet|
        if len == 1 {
            1 + text_bytes_of(p).len() as int
        } else {
            len + 1 + text_bytes_of(p).len()
        }
}

/// What the current encoder does to a queue: the queue left and the outcome.
pub open spec fn v4_outcome(q: QueueView, max_payload: int) -> (
    QueueView,
    Result<(Seq<u8>, bool), Error>,
) {
    let drained = drain(q, 1, max_payload, true, v4_budget());
    if drained.1.len() > 0 {
        (drained.0, Ok((encode_utf8(v4_text(drained.1)), false)))
    } else {
        let f = fallback_step(drained.0);
        (
            f.0,
            match f.1 {
                Ok(p) => Ok((text_bytes_of(p), false)),
                Err(e) => Err(e),
            },
        )
    }
}

/// Copies the UTF-8 bytes of a string into a new vector.
fn to_bytes(s: &String) -> (r: Vec<u8>)
    ensures
        r@ == encode_utf8(s@),
{
    let mut r: Vec<u8> = Vec::new();
    push_bytes(&mut r, s.as_str().as_bytes());
    assert(r@ =~= encode_utf8(s@));
    r
}

/// Encodes the queued packets into one current-protocol text payload: the
/// texts of the packets joined by the record separator, drained within
/// `max_payload`; if none fits, the next packet alone (see `v4_outcome`).
pub fn v4_encoder(rx: &mut PacketQueue, max_payload: u64) -> (r: Result<Payload, Error>)
    requires
        old(rx)@.wf(),
    ensures
        final(rx)@ == v4_outcome(old(rx)@, max_payload as int).0,
        outcome_matches(r, v4_outcome(old(rx)@, max_payload as int).1),
        final(rx)@.wf(),
{
    let ghost q0 = rx@;
    let mut data = String::new();
    let ghost mut taken: Seq<Packet> = seq![];
    let mut len: u128 = 1;
    proof {
        reveal_strlit("\u{1e}");
    }
    loop
        invariant
            (*rx)@.wf(),
            data@ == v4_text(taken),
            len == encode_utf8(data@).len() + 1,
            len <= usize::MAX + 1,
            taken.len() == 0 <==> data@.len() == 0,
            drain(q0, 1, max_payload as int, true, v4_budget()) == (
                drain((*rx)@, len as int, max_payload as int, true, v4_budget()).0,
                taken + drain((*rx)@, len as int, max_payload as int, true, v4_budget()).1,
            ),
        ensures
            data@ == v4_text(taken),
            taken.len() == 0 <==> data@.len() == 0,
            drain(q0, 1, max_payload as int, true, v4_budget()) == ((*rx)@, taken),
        decreases (*rx)@.packets.len(),
    {
        let ghost before = (*rx)@;
        let next = try_recv_packet(rx, len, max_payload, true);
        match next {
            Some(packet) => {
                let ghost p = packet;
                let text = packet.into_text();
                let ghost old_data = data@;
                proof {
                    lemma_text_nonempty(p);
                    lemma_utf8_len_ge(data@);
                    reveal_strlit("\u{1e}");
                    assert("\u{1e}"@ =~= seq![PACKET_SEPARATOR_V4]);
                }
                if !data.as_str().is_empty() {
                    data.append("\u{1e}");
                }
                data.append(text.as_str());
                proof {
                    let new_taken = taken.push(p);
                    assert(new_taken.drop_last() =~= taken);
                    assert(new_taken.last() == p);
                    if taken.len() > 0 {
                        lemma_utf8_concat(old_data, seq![PACKET_SEPARATOR_V4]);
                        lemma_utf8_concat(old_data + seq![PACKET_SEPARATOR_V4], text_of(p));
                        lemma_separator_utf8();
                        assert(data@ =~= old_data + seq![PACKET_SEPARATOR_V4] + text_of(p));
                    } else {
                        assert(new_taken[0] == p);
                        assert(data@ =~= text_of(p));
                    }
                    assert(data@ == v4_text(new_taken));
                    assert(encode_utf8(data@).len() + 1 == v4_budget()(len as int, p));
                    assert(drain_step(before, len as int, max_payload as int, true) == ((*rx)@, Some(p)));
                    assert((*rx)@.packets.len() < before.packets.len());
                    assert(seq![p] + drain((*rx)@, v4_budget()(len as int, p), max_payload as int, true, v4_budget()).1
                        == drain(before, len as int, max_payload as int, true, v4_budget()).1);
                    assert(taken + drain(before, len as int, max_payload as int, true, v4_budget()).1 =~= new_taken
                        + drain((*rx)@, v4_budget()(len as int, p), max_payload as int, true, v4_budget()).1);
                    taken = new_taken;
                }
                len = utf8_len(data.as_str()) as u128 + 1;
            },
            None => {
                assert(drain(before, len as int, max_payload as int, true, v4_budget()).1 =~= seq![]);
                assert(taken + seq![] =~= taken);
                break ;
            },
        }
    }
    if data.as_str().is_empty() {
        let packet = recv_packet(rx)?;
        data = packet.into_text();
    }
    Ok(Payload::new(to_bytes(&data), false))
}

/// Per-packet overhead of a legacy frame as the budget counts it: the colon
/// or separator, one more byte, and as many digits as `max_payload` has.
pub open spec fn frame_overhead(max_payload: nat) -> int {
    2 + decimal(max_payload, 0).len() as int
}

/// The budget of both legacy encoders: the estimated sizes of the packets
/// taken so far, binary data counted as raw bytes, each with the frame
/// overhead.
pub open spec fn legacy_budget(max_payload: nat) -> spec_fn(int, Packet) -> int {
    |len: int, p: Packet| len + size_hint_of(p, false) + frame_overhead(max_payload)
}

/// What the legacy text encoder does to a queue: the queue left and the
/// outcome.
pub open spec fn v3_string_outcome(q: QueueView, max_payload: nat) -> (
    QueueView,
    Result<(Seq<u8>, bool), Error>,
) {
    let drained = drain(q, 0, max_payload as int, false, legacy_budget(max_payload));
    if drained.1.len() > 0 {
        (drained.0, Ok((string_frames(drained.1), false)))
    } else {
        let f = fallback_step(drained.0);
        (
            f.0,
            match f.1 {
                Ok(p) => Ok((string_frame(p), false)),
                Err(e) => Err(e),
            },
        )
    }
}

/// What the legacy binary encoder does to a queue: the queue left and the
/// outcome. A batch with a binary packet is framed all in the byte grammar,
/// one without in the text grammar.
pub open spec fn v3_binary_outcome(q: QueueView, max_payload: nat) -> (
    QueueView,
    Result<(Seq<u8>, bool), Error>,
) {
    let drained = drain(q, 0, max_payload as int, false, legacy_budget(max_payload));
    let ps = drained.1;
    if ps.len() > 0 {
        if any_binary(ps) {
            (drained.0, Ok((binary_frames(ps), true)))
        } else {
            (drained.0, Ok((string_frames(ps), false)))
        }
    } else {
        let f = fallback_step(drained.0);
        (
            f.0,
            match f.1 {
                Ok(p) => if is_binary_packet(p) {
                    Ok((binary_frame(p), true))
                } else {
                    Ok((string_frame(p), false))
                },
                Err(e) => Err(e),
            },
        )
    }
}

/// Encodes the queued packets into one legacy text payload: length-prefixed
/// frames of the packets drained within `max_payload` under the running
/// legacy budget; if none fits, the next packet alone (see
/// `v3_string_outcome`).
pub fn v3_string_encoder(rx: &mut PacketQueue, max_payload: u64) -> (r: Result<Payload, Error>)
    requires
        old(rx)@.wf(),
    ensures
        final(rx)@ == v3_string_outcome(old(rx)@, max_payload as nat).0,
        outcome_matches(r, v3_string_outcome(old(rx)@, max_payload as nat).1),
        final(rx)@.wf(),
{
    let ghost q0 = rx@;
    let mut data: Vec<u8> = Vec::new();
    let ghost mut taken: Seq<Packet> = seq![];
    let mut estimated_size: u128 = 0;
    let max_packet_size_len = decimal_len(max_payload);
    loop
        invariant
            (*rx)@.wf(),
            max_packet_size_len == decimal(max_payload as nat, 0).len(),
            max_packet_size_len <= max_payload + 1,
            estimated_size <= 2 * (u64::MAX as int) + 3,
            data@ == string_frames(taken),
            taken.len() == 0 <==> data@.len() == 0,
            drain(q0, 0, max_payload as int, false, legacy_budget(max_payload as nat)) == (
                drain(
                    (*rx)@,
                    estimated_size as int,
                    max_payload as int,
                    false,
                    legacy_budget(max_payload as nat),
                ).0,
                taken + drain(
                    (*rx)@,
                    estimated_size as int,
                    max_payload as int,
                    false,
                    legacy_budget(max_payload as nat),
                ).1,
            ),
        ensures
            data@ == string_frames(taken),
            taken.len() == 0 <==> data@.len() == 0,
            drain(q0, 0, max_payload as int, false, legacy_budget(max_payload as nat)) == (
                (*rx)@,
                taken,
            ),
        decreases (*rx)@.packets.len(),
    {
        let ghost before = (*rx)@;
        let ghost est = estimated_size as int;
        let next = try_recv_packet(rx, estimated_size, max_payload, false);
        match next {
            Some(packet) => {
                let ghost p = packet;
                let hint = packet.get_size_hint(false);
                v3_string_packet_encoder(packet, &mut data)?;
                estimated_size = estimated_size + hint + max_packet_size_len + 2;
                proof {
                    let new_taken = taken.push(p);
                    assert(new_taken.drop_last() =~= taken);
                    assert(drain_step(before, est, max_payload as int, false) == ((*rx)@, Some(p)));
                    assert(legacy_budget(max_payload as nat)(est, p) == est + size_hint_of(p, false)
                        + frame_overhead(max_payload as nat));
                    assert(taken + drain(
                        before,
                        est,
                        max_payload as int,
                        false,
                        legacy_budget(max_payload as nat),
                    ).1 =~= new_taken + drain(
                        (*rx)@,
                        estimated_size as int,
                        max_payload as int,
                        false,
                        legacy_budget(max_payload as nat),
                    ).1);
                    taken = new_taken;
                }
            },
            None => {
                assert(taken + seq![] =~= taken);
                break ;
            },
        }
    }
    if data.len() == 0 {
        let packet = recv_packet(rx)?;
        v3_string_packet_encoder(packet, &mut data)?;
    }
    Ok(Payload::new(data, false))
}

proof fn lemma_any_binary_push(ps: Seq<Packet>, p: Packet)
    ensures
        any_binary(ps.push(p)) == (any_binary(ps) || is_binary_packet(p)),
{
    let qs = ps.push(p);
    if is_binary_packet(p) {
        assert(is_binary_packet(qs[ps.len() as int]));
    }
    if any_binary(ps) {
        let i = choose|i: int| 0 <= i < ps.len() && is_binary_packet(#[trigger] ps[i]);
        assert(is_binary_packet(qs[i]));
    }
    if any_binary(qs) {
        let i = choose|i: int| 0 <= i < qs.len() && is_binary_packet(#[trigger] qs[i]);
        if i < ps.len() {
            assert(is_binary_packet(ps[i]));
        }
    }
}

/// Encodes the queued packets into one legacy payload: drained within
/// `max_payload`, then all framed in the byte grammar if one of them is
/// binary, else all in the text grammar; if none fits, the next packet
/// alone (see `v3_binary_outcome`).
pub fn v3_binary_encoder(rx: &mut PacketQueue, max_payload: u64) -> (r: Result<Payload, Error>)
    requires
        old(rx)@.wf(),
    ensures
        final(rx)@ == v3_binary_outcome(old(rx)@, max_payload as nat).0,
        outcome_matches(r, v3_binary_outcome(old(rx)@, max_payload as nat).1),
        final(rx)@.wf(),
{
    let ghost q0 = rx@;
    let mut data: Vec<u8> = Vec::new();
    let mut packet_buffer: Vec<Packet> = Vec::new();
    let mut estimated_size: u128 = 0;
    let max_packet_size_len = decimal_len(max_payload);
    let mut has_binary = false;
    loop
        invariant
            (*rx)@.wf(),
            max_packet_size_len == decimal(max_payload as nat, 0).len(),
            max_packet_size_len <= max_payload + 1,
            estimated_size <= 2 * (u64::MAX as int) + 3,
            has_binary == any_binary(packet_buffer@),
            forall|i: int|
                0 <= i < packet_buffer@.len() ==> crate::packet::encodable(
                    #[trigger] packet_buffer@[i],
                ),
            drain(q0, 0, max_payload as int, false, legacy_budget(max_payload as nat)) == (
                drain((*rx)@, estimated_size as int, max_payload as int, false, legacy_budget(max_payload as nat)).0,
                packet_buffer@ + drain(
                    (*rx)@,
                    estimated_size as int,
                    max_payload as int,
                    false,
                    legacy_budget(max_payload as nat),
                ).1,
            ),
        ensures
            has_binary == any_binary(packet_buffer@),
            forall|i: int|
                0 <= i < packet_buffer@.len() ==> crate::packet::encodable(
                    #[trigger] packet_buffer@[i],
                ),
            drain(q0, 0, max_payload as int, false, legacy_budget(max_payload as nat)) == ((*rx)@, packet_buffer@),
        decreases (*rx)@.packets.len(),
    {
        let ghost before = (*rx)@;
        let ghost est = estimated_size as int;
        let next = try_recv_packet(rx, estimated_size, max_payload, false);
        match next {
            Some(packet) => {
                let ghost p = packet;
                let hint = packet.get_size_hint(false);
                proof {
                    lemma_any_binary_push(packet_buffer@, p);
                }
                if packet.is_binary() {
                    has_binary = true;
                }
                estimated_size = estimated_size + hint + max_packet_size_len + 2;
                let ghost old_buffer = packet_buffer@;
                packet_buffer.push(packet);
                proof {
                    assert(drain_step(before, est, max_payload as int, false) == ((*rx)@, Some(p)));
                    assert(legacy_budget(max_payload as nat)(est, p) == est + size_hint_of(p, false) + frame_overhead(
                        max_payload as nat,
                    ));
                    assert(old_buffer + drain(before, est, max_payload as int, false, legacy_budget(max_payload as nat)).1
                        =~= packet_buffer@ + drain(
                        (*rx)@,
                        estimated_size as int,
                        max_payload as int,
                        false,
                        legacy_budget(max_payload as nat),
                    ).1);
                }
            },
            None => {
                assert(packet_buffer@ + seq![] =~= packet_buffer@);
                break ;
            },
        }
    }
    let ghost ps = packet_buffer@;
    let ghost mut k: int = 0;
    while packet_buffer.len() > 0
        invariant
            0 <= k <= ps.len(),
            packet_buffer@ == ps.subrange(k, ps.len() as int),
            forall|i: int| 0 <= i < ps.len() ==> crate::packet::encodable(#[trigger] ps[i]),
            has_binary ==> data@ == binary_frames(ps.subrange(0, k)),
            !has_binary ==> data@ == string_frames(ps.subrange(0, k)),
            k == 0 <==> data@.len() == 0,
        decreases packet_buffer@.len(),
    {
        let packet = packet_buffer.remove(0);
        assert(packet == ps[k]);
        if has_binary {
            v3_bin_packet_encoder(packet, &mut data)?;
        } else {
            v3_string_packet_encoder(packet, &mut data)?;
        }
        proof {
            assert(ps.subrange(0, k + 1).drop_last() =~= ps.subrange(0, k));
            k = k + 1;
            assert(packet_buffer@ =~= ps.subrange(k, ps.len() as int));
        }
    }
    assert(ps.subrange(0, k) =~= ps);
    if data.len() == 0 {
        let packet = recv_packet(rx)?;
        if packet.is_binary() {
            v3_bin_packet_encoder(packet, &mut data)?;
            has_binary = true;
        } else {
            v3_string_packet_encoder(packet, &mut data)?;
        }
    }
    Ok(Payload::new(data, has_binary))
}

} // verus!
