use crate::encoder::{
    fallback_step, v4_text, any_binary, binary_frame, binary_frames, drain, drain_step, string_frame,
    string_frames, legacy_budget, v3_binary_outcome, v3_string_outcome,
    v4_budget, v4_outcome, Error,
};
use crate::packet::{is_binary_packet, size_hint_of, text_bytes_of, text_of, Packet};
use vstd::utf8::encode_utf8;
use crate::queue::QueueView;
use vstd::prelude::*;

verus! {

/// Whether no `Close` packet is among the packets.
pub open spec fn no_close(ps: Seq<Packet>) -> bool {
    forall|i: int| 0 <= i < ps.len() ==> !(#[trigger] ps[i] is Close)
}

/// Draining never lengthens the queue, never reopens it, and takes no more
/// packets than were queued.
pub proof fn lemma_drain_shrinks(
    q: QueueView,
    payload_len: int,
    max_payload: int,
    b64: bool,
    next: spec_fn(int, Packet) -> int,
)
    ensures
        drain(q, payload_len, max_payload, b64, next).0.packets.len() + drain(
            q,
            payload_len,
            max_payload,
            b64,
            next,
        ).1.len() <= q.packets.len(),
        q.closed ==> drain(q, payload_len, max_payload, b64, next).0.closed,
    decreases q.packets.len(),
{
    let step = drain_step(q, payload_len, max_payload, b64);
    if step.1 is Some && step.0.packets.len() < q.packets.len() {
        lemma_drain_shrinks(step.0, next(payload_len, step.1->Some_0), max_payload, b64, next);
    }
}

/// Draining keeps the order of the queue: where no `Close` packet is queued,
/// the packets taken, followed by the packets left, are the packets queued.
pub proof fn lemma_drain_keeps_order(
    q: QueueView,
    payload_len: int,
    max_payload: int,
    b64: bool,
    next: spec_fn(int, Packet) -> int,
)
    requires
        no_close(q.packets),
    ensures
        drain(q, payload_len, max_payload, b64, next).1 + drain(
            q,
            payload_len,
            max_payload,
            b64,
            next,
        ).0.packets == q.packets,
    decreases q.packets.len(),
{
    let step = drain_step(q, payload_len, max_payload, b64);
    let d = drain(q, payload_len, max_payload, b64, next);
    if step.1 is Some && step.0.packets.len() < q.packets.len() {
        let p = step.1->Some_0;
        assert(!(q.packets[0] is Close));
        assert(step.0.packets =~= q.packets.drop_first());
        assert forall|i: int| 0 <= i < step.0.packets.len() implies !(
        #[trigger] step.0.packets[i] is Close) by {
            assert(step.0.packets[i] == q.packets[i + 1]);
        }
        lemma_drain_keeps_order(step.0, next(payload_len, p), max_payload, b64, next);
        let rest = drain(step.0, next(payload_len, p), max_payload, b64, next);
        assert(d.1 + d.0.packets =~= seq![p] + (rest.1 + rest.0.packets));
        assert(q.packets =~= seq![p] + q.packets.drop_first());
    } else {
        assert(d.1 + d.0.packets =~= q.packets);
    }
}

/// Draining, refilling the queue with more packets, and draining again
/// delivers packets in the order they were queued: where no `Close` packet
/// is queued, the packets of the first drain, then those of the second, then
/// those still queued are all the packets queued, in order.
pub proof fn lemma_redrain_keeps_order(
    q: QueueView,
    more: Seq<Packet>,
    first_len: int,
    second_len: int,
    first_max: int,
    second_max: int,
    b64: bool,
    next: spec_fn(int, Packet) -> int,
)
    requires
        no_close(q.packets + more),
    ensures
        ({
            let first = drain(q, first_len, first_max, b64, next);
            let refilled = QueueView { packets: first.0.packets + more, closed: first.0.closed };
            let second = drain(refilled, second_len, second_max, b64, next);
            first.1 + second.1 + second.0.packets == q.packets + more
        }),
{
    assert forall|i: int| 0 <= i < q.packets.len() implies !(#[trigger] q.packets[i] is Close) by {
        assert(q.packets[i] == (q.packets + more)[i]);
    }
    lemma_drain_keeps_order(q, first_len, first_max, b64, next);
    let first = drain(q, first_len, first_max, b64, next);
    let refilled = QueueView { packets: first.0.packets + more, closed: first.0.closed };
    assert(q.packets + more =~= first.1 + refilled.packets);
    assert forall|i: int| 0 <= i < refilled.packets.len() implies !(
    #[trigger] refilled.packets[i] is Close) by {
        assert(refilled.packets[i] == (q.packets + more)[i + first.1.len()]);
    }
    lemma_drain_keeps_order(refilled, second_len, second_max, b64, next);
    let second = drain(refilled, second_len, second_max, b64, next);
    assert(first.1 + second.1 + second.0.packets =~= first.1 + (second.1 + second.0.packets));
}

/// Encoding from a closed, empty queue fails with `Aborted`, with every
/// encoder and any budget.
pub proof fn lemma_closed_empty_queue_aborts(q: QueueView, max_payload: nat)
    requires
        q.closed,
        q.packets.len() == 0,
    ensures
        v4_outcome(q, max_payload as int) == (q, Err::<(Seq<u8>, bool), Error>(Error::Aborted)),
        v3_string_outcome(q, max_payload) == (q, Err::<(Seq<u8>, bool), Error>(Error::Aborted)),
        v3_binary_outcome(q, max_payload) == (q, Err::<(Seq<u8>, bool), Error>(Error::Aborted)),
{
}

/// A packet whose estimated size alone exceeds the budget is still sent,
/// alone, by every encoder: the payload is that one packet's frame and the
/// queue loses only that packet.
pub proof fn lemma_oversized_packet_sent_alone(q: QueueView, max_payload: nat)
    requires
        q.packets.len() > 0,
    ensures
        ({
            let p = q.packets[0];
            let left = QueueView { packets: q.packets.drop_first(), closed: q.closed || p is Close };
            &&& 1 + size_hint_of(p, true) > max_payload ==> v4_outcome(q, max_payload as int) == (
                left,
                Ok::<(Seq<u8>, bool), Error>((text_bytes_of(p), false)),
            )
            &&& size_hint_of(p, false) > max_payload ==> v3_string_outcome(q, max_payload) == (
                left,
                Ok::<(Seq<u8>, bool), Error>((string_frame(p), false)),
            )
            &&& size_hint_of(p, false) > max_payload ==> v3_binary_outcome(q, max_payload) == (
                left,
                Ok::<(Seq<u8>, bool), Error>(
                    if is_binary_packet(p) {
                        (binary_frame(p), true)
                    } else {
                        (string_frame(p), false)
                    },
                ),
            )
        }),
{
}

/// The legacy binary encoder frames a drained batch as a whole: with a binary
/// packet in it, every packet in the byte grammar and the payload marked
/// binary; with none, every packet in the text grammar and the payload
/// marked text.
pub proof fn lemma_v3_binary_batch_framing(q: QueueView, max_payload: nat)
    ensures
        ({
            let ps = drain(q, 0, max_payload as int, false, legacy_budget(max_payload)).1;
            &&& ps.len() > 0 && any_binary(ps) ==> v3_binary_outcome(q, max_payload).1 == Ok::<
                (Seq<u8>, bool),
                Error,
            >((binary_frames(ps), true))
            &&& ps.len() > 0 && !any_binary(ps) ==> v3_binary_outcome(q, max_payload).1 == Ok::<
                (Seq<u8>, bool),
                Error,
            >((string_frames(ps), false))
        }),
{
}

/// Taking a `Close` packet discards the packet right after it, if any, and
/// closes the queue.
pub proof fn lemma_close_discards_next(
    q: QueueView,
    payload_len: int,
    max_payload: int,
    b64: bool,
)
    requires
        q.packets.len() > 0,
        q.packets[0] is Close,
        payload_len + 1 <= max_payload,
    ensures
        drain_step(q, payload_len, max_payload, b64) == (
            QueueView {
                packets: q.packets.subrange(
                    if q.packets.len() >= 2 {
                        2
                    } else {
                        1
                    },
                    q.packets.len() as int,
                ),
                closed: true,
            },
            Some(Packet::Close),
        ),
{
    let rest = q.packets.drop_first();
    if rest.len() > 0 {
        assert(rest.drop_first() =~= q.packets.subrange(2, q.packets.len() as int));
    } else {
        assert(rest =~= q.packets.subrange(1, q.packets.len() as int));
    }
}

/// On a closed queue every encode call stays closed and takes at least one
/// packet while any is left; once none is left, it fails with `Aborted`. So
/// repeated encoding of a closed queue ends in `Aborted`.
pub proof fn lemma_closed_queue_runs_out(q: QueueView, max_payload: nat)
    requires
        q.closed,
    ensures
        v4_outcome(q, max_payload as int).0.closed,
        v3_string_outcome(q, max_payload).0.closed,
        v3_binary_outcome(q, max_payload).0.closed,
        q.packets.len() > 0 ==> v4_outcome(q, max_payload as int).0.packets.len()
            < q.packets.len(),
        q.packets.len() > 0 ==> v3_string_outcome(q, max_payload).0.packets.len()
            < q.packets.len(),
        q.packets.len() > 0 ==> v3_binary_outcome(q, max_payload).0.packets.len()
            < q.packets.len(),
        q.packets.len() == 0 ==> v4_outcome(q, max_payload as int).1 == Err::<
            (Seq<u8>, bool),
            Error,
        >(Error::Aborted),
        q.packets.len() == 0 ==> v3_string_outcome(q, max_payload).1 == Err::<
            (Seq<u8>, bool),
            Error,
        >(Error::Aborted),
        q.packets.len() == 0 ==> v3_binary_outcome(q, max_payload).1 == Err::<
            (Seq<u8>, bool),
            Error,
        >(Error::Aborted),
{
    lemma_drain_shrinks(q, 1, max_payload as int, true, v4_budget());
    lemma_drain_shrinks(q, 0, max_payload as int, false, legacy_budget(max_payload));
}

/// The packets one encode call sends: those drained within the budget, or
/// else the single packet of the fallback take, if any.
pub open spec fn sent_by(
    q: QueueView,
    payload_len: int,
    max_payload: int,
    b64: bool,
    next: spec_fn(int, Packet) -> int,
) -> Seq<Packet> {
    let d = drain(q, payload_len, max_payload, b64, next);
    if d.1.len() > 0 {
        d.1
    } else if d.0.packets.len() > 0 {
        seq![d.0.packets[0]]
    } else {
        seq![]
    }
}

/// The queue one encode call leaves: after the drain, or after the fallback
/// take where nothing was drained.
pub open spec fn left_by(
    q: QueueView,
    payload_len: int,
    max_payload: int,
    b64: bool,
    next: spec_fn(int, Packet) -> int,
) -> QueueView {
    let d = drain(q, payload_len, max_payload, b64, next);
    if d.1.len() > 0 {
        d.0
    } else {
        fallback_step(d.0).0
    }
}

/// Where no `Close` packet is queued, one encode call sends a prefix of the
/// queue and leaves the rest, in order.
pub proof fn lemma_call_sends_prefix(
    q: QueueView,
    payload_len: int,
    max_payload: int,
    b64: bool,
    next: spec_fn(int, Packet) -> int,
)
    requires
        no_close(q.packets),
    ensures
        sent_by(q, payload_len, max_payload, b64, next) + left_by(
            q,
            payload_len,
            max_payload,
            b64,
            next,
        ).packets == q.packets,
{
    lemma_drain_keeps_order(q, payload_len, max_payload, b64, next);
    let d = drain(q, payload_len, max_payload, b64, next);
    if d.1.len() == 0 && d.0.packets.len() > 0 {
        assert(d.1 + d.0.packets =~= d.0.packets);
        assert(seq![d.0.packets[0]] + d.0.packets.drop_first() =~= d.0.packets);
    } else if d.1.len() == 0 {
        assert(d.1 + d.0.packets =~= d.0.packets);
    }
}

/// Where no `Close` packet is queued, two encode calls with a refill of the
/// queue between them send packets in the order they were queued: the
/// packets of the first call, then those of the second, then those still
/// queued are the packets queued and the refill, in order.
pub proof fn lemma_two_calls_keep_order(
    q: QueueView,
    more: Seq<Packet>,
    first_len: int,
    first_max: int,
    first_next: spec_fn(int, Packet) -> int,
    second_len: int,
    second_max: int,
    second_next: spec_fn(int, Packet) -> int,
    b64: bool,
)
    requires
        no_close(q.packets + more),
    ensures
        ({
            let left = left_by(q, first_len, first_max, b64, first_next);
            let refilled = QueueView { packets: left.packets + more, closed: left.closed };
            sent_by(q, first_len, first_max, b64, first_next) + sent_by(
                refilled,
                second_len,
                second_max,
                b64,
                second_next,
            ) + left_by(refilled, second_len, second_max, b64, second_next).packets == q.packets
                + more
        }),
{
    assert forall|i: int| 0 <= i < q.packets.len() implies !(#[trigger] q.packets[i] is Close) by {
        assert(q.packets[i] == (q.packets + more)[i]);
    }
    lemma_call_sends_prefix(q, first_len, first_max, b64, first_next);
    let s1 = sent_by(q, first_len, first_max, b64, first_next);
    let left = left_by(q, first_len, first_max, b64, first_next);
    let refilled = QueueView { packets: left.packets + more, closed: left.closed };
    assert(q.packets + more =~= s1 + refilled.packets);
    assert forall|i: int| 0 <= i < refilled.packets.len() implies !(
    #[trigger] refilled.packets[i] is Close) by {
        assert(refilled.packets[i] == (q.packets + more)[i + s1.len()]);
    }
    lemma_call_sends_prefix(refilled, second_len, second_max, b64, second_next);
    let s2 = sent_by(refilled, second_len, second_max, b64, second_next);
    let left2 = left_by(refilled, second_len, second_max, b64, second_next);
    assert(s1 + s2 + left2.packets =~= s1 + (s2 + left2.packets));
}

/// Payloads of the current encoder keep the queue's order: each payload that
/// comes back is the joined text of the packets its call sent, and where no
/// `Close` packet is queued, two calls with a refill between them send the
/// queued packets and the refill in order.
pub proof fn lemma_v4_payloads_keep_order(
    q: QueueView,
    more: Seq<Packet>,
    first_max: nat,
    second_max: nat,
)
    requires
        no_close(q.packets + more),
    ensures
        ({
            let s1 = sent_by(q, 1, first_max as int, true, v4_budget());
            let o1 = v4_outcome(q, first_max as int);
            let refilled = QueueView { packets: o1.0.packets + more, closed: o1.0.closed };
            let s2 = sent_by(refilled, 1, second_max as int, true, v4_budget());
            let o2 = v4_outcome(refilled, second_max as int);
            &&& o1.1 is Ok ==> o1.1 == Ok::<(Seq<u8>, bool), Error>(
                (encode_utf8(v4_text(s1)), false),
            )
            &&& o2.1 is Ok ==> o2.1 == Ok::<(Seq<u8>, bool), Error>(
                (encode_utf8(v4_text(s2)), false),
            )
            &&& s1 + s2 + o2.0.packets == q.packets + more
        }),
{
    lemma_two_calls_keep_order(
        q,
        more,
        1,
        first_max as int,
        v4_budget(),
        1,
        second_max as int,
        v4_budget(),
        true,
    );
    let s1 = sent_by(q, 1, first_max as int, true, v4_budget());
    let o1 = v4_outcome(q, first_max as int);
    let refilled = QueueView { packets: o1.0.packets + more, closed: o1.0.closed };
    let s2 = sent_by(refilled, 1, second_max as int, true, v4_budget());
    lemma_single_v4_text(s1);
    lemma_single_v4_text(s2);
}

proof fn lemma_single_v4_text(s: Seq<Packet>)
    ensures
        s.len() == 1 ==> v4_text(s) == text_of(s[0]),
{
}

/// Payloads of the legacy text encoder keep the queue's order: each payload
/// that comes back is the text frames of the packets its call sent, and where
/// no `Close` packet is queued, two calls with a refill between them send the
/// queued packets and the refill in order.
pub proof fn lemma_v3_string_payloads_keep_order(
    q: QueueView,
    more: Seq<Packet>,
    first_max: nat,
    second_max: nat,
)
    requires
        no_close(q.packets + more),
    ensures
        ({
            let s1 = sent_by(q, 0, first_max as int, false, legacy_budget(first_max));
            let o1 = v3_string_outcome(q, first_max);
            let refilled = QueueView { packets: o1.0.packets + more, closed: o1.0.closed };
            let s2 = sent_by(refilled, 0, second_max as int, false, legacy_budget(second_max));
            let o2 = v3_string_outcome(refilled, second_max);
            &&& o1.1 is Ok ==> o1.1 == Ok::<(Seq<u8>, bool), Error>((string_frames(s1), false))
            &&& o2.1 is Ok ==> o2.1 == Ok::<(Seq<u8>, bool), Error>((string_frames(s2), false))
            &&& s1 + s2 + o2.0.packets == q.packets + more
        }),
{
    lemma_two_calls_keep_order(
        q,
        more,
        0,
        first_max as int,
        legacy_budget(first_max),
        0,
        second_max as int,
        legacy_budget(second_max),
        false,
    );
    let s1 = sent_by(q, 0, first_max as int, false, legacy_budget(first_max));
    let o1 = v3_string_outcome(q, first_max);
    let refilled = QueueView { packets: o1.0.packets + more, closed: o1.0.closed };
    let s2 = sent_by(refilled, 0, second_max as int, false, legacy_budget(second_max));
    lemma_single_string_frames(s1);
    lemma_single_string_frames(s2);
}

proof fn lemma_single_string_frames(s: Seq<Packet>)
    ensures
        s.len() == 1 ==> string_frames(s) == string_frame(s[0]),
        s.len() == 1 ==> binary_frames(s) == binary_frame(s[0]),
{
    if s.len() == 1 {
        assert(s.drop_last() =~= Seq::<Packet>::empty());
        assert(string_frames(s.drop_last()) =~= Seq::<u8>::empty());
        assert(binary_frames(s.drop_last()) =~= Seq::<u8>::empty());
        assert(Seq::<u8>::empty() + string_frame(s[0]) =~= string_frame(s[0]));
        assert(Seq::<u8>::empty() + binary_frame(s[0]) =~= binary_frame(s[0]));
    }
}

/// Payloads of the legacy binary encoder keep the queue's order: each payload
/// that comes back is the frames of the packets its call sent, in the byte
/// grammar where one of them is binary and in the text grammar otherwise,
/// and where no `Close` packet is queued, two calls with a refill between
/// them send the queued packets and the refill in order.
pub proof fn lemma_v3_binary_payloads_keep_order(
    q: QueueView,
    more: Seq<Packet>,
    first_max: nat,
    second_max: nat,
)
    requires
        no_close(q.packets + more),
    ensures
        ({
            let s1 = sent_by(q, 0, first_max as int, false, legacy_budget(first_max));
            let o1 = v3_binary_outcome(q, first_max);
            let refilled = QueueView { packets: o1.0.packets + more, closed: o1.0.closed };
            let s2 = sent_by(refilled, 0, second_max as int, false, legacy_budget(second_max));
            let o2 = v3_binary_outcome(refilled, second_max);
            &&& o1.1 is Ok ==> o1.1 == Ok::<(Seq<u8>, bool), Error>(
                if any_binary(s1) {
                    (binary_frames(s1), true)
                } else {
                    (string_frames(s1), false)
                },
            )
            &&& o2.1 is Ok ==> o2.1 == Ok::<(Seq<u8>, bool), Error>(
                if any_binary(s2) {
                    (binary_frames(s2), true)
                } else {
                    (string_frames(s2), false)
                },
            )
            &&& s1 + s2 + o2.0.packets == q.packets + more
        }),
{
    lemma_two_calls_keep_order(
        q,
        more,
        0,
        first_max as int,
        legacy_budget(first_max),
        0,
        second_max as int,
        legacy_budget(second_max),
        false,
    );
    let s1 = sent_by(q, 0, first_max as int, false, legacy_budget(first_max));
    let o1 = v3_binary_outcome(q, first_max);
    let refilled = QueueView { packets: o1.0.packets + more, closed: o1.0.closed };
    let s2 = sent_by(refilled, 0, second_max as int, false, legacy_budget(second_max));
    lemma_single_string_frames(s1);
    lemma_single_string_frames(s2);
    lemma_single_any_binary(s1);
    lemma_single_any_binary(s2);
}

proof fn lemma_single_any_binary(s: Seq<Packet>)
    ensures
        s.len() == 1 ==> any_binary(s) == is_binary_packet(s[0]),
{
    if s.len() == 1 && any_binary(s) {
        let i = choose|i: int| 0 <= i < s.len() && is_binary_packet(#[trigger] s[i]);
        assert(i == 0);
    }
}

} // verus!
