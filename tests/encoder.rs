use engineioxide_payload::encoder::{
    try_recv_packet, v3_bin_packet_encoder, v3_binary_encoder, v3_string_encoder,
    v3_string_packet_encoder, v4_encoder, Error, Payload,
};
use engineioxide_payload::packet::Packet;
use engineioxide_payload::queue::PacketQueue;

const MAX_PAYLOAD: u64 = 100_000;

fn queue_of(packets: Vec<Packet>) -> PacketQueue {
    let mut q = PacketQueue::new();
    for p in packets {
        assert!(q.push(p));
    }
    q
}

fn hello() -> Packet {
    Packet::Message("hello€".into())
}

#[test]
fn encode_v4_payload() {
    const PAYLOAD: &str = "4hello€\x1ebAQIDBA==\x1e4hello€";
    let mut rx = queue_of(vec![hello(), Packet::Binary(vec![1, 2, 3, 4]), hello()]);
    let Payload { data, .. } = v4_encoder(&mut rx, MAX_PAYLOAD).ok().unwrap();
    assert_eq!(data, PAYLOAD.as_bytes());
}

#[test]
fn max_payload_v4() {
    const MAX_PAYLOAD: u64 = 10;
    let mut rx = queue_of(vec![hello(), Packet::Binary(vec![1, 2, 3, 4]), hello(), hello()]);
    {
        let Payload { data, .. } = v4_encoder(&mut rx, MAX_PAYLOAD).ok().unwrap();
        assert_eq!(data, "4hello€".as_bytes());
    }
    {
        let Payload { data, .. } = v4_encoder(&mut rx, MAX_PAYLOAD + 10).ok().unwrap();
        assert_eq!(data, "bAQIDBA==\x1e4hello€".as_bytes());
    }
    {
        let Payload { data, .. } = v4_encoder(&mut rx, MAX_PAYLOAD + 10).ok().unwrap();
        assert_eq!(data, "4hello€".as_bytes());
    }
}

#[test]
fn encode_v3b64_payload() {
    const PAYLOAD: &str = "7:4hello€10:b4AQIDBA==7:4hello€";
    let mut rx = queue_of(vec![hello(), Packet::BinaryV3(vec![1, 2, 3, 4]), hello()]);
    let Payload { data, has_binary } = v3_string_encoder(&mut rx, MAX_PAYLOAD).ok().unwrap();
    assert_eq!(data, PAYLOAD.as_bytes());
    assert!(!has_binary);
}

#[test]
fn max_payload_v3_b64() {
    const MAX_PAYLOAD: u64 = 10;
    let mut rx = queue_of(vec![hello(), Packet::BinaryV3(vec![1, 2, 3, 4]), hello(), hello()]);
    {
        let Payload { data, .. } = v3_string_encoder(&mut rx, MAX_PAYLOAD).ok().unwrap();
        assert_eq!(data, "7:4hello€".as_bytes());
    }
    {
        let Payload { data, .. } = v3_string_encoder(&mut rx, MAX_PAYLOAD + 10).ok().unwrap();
        assert_eq!(data, "10:b4AQIDBA==7:4hello€".as_bytes());
        assert_eq!(rx.len(), 1);
    }
    {
        let Payload { data, .. } = v3_string_encoder(&mut rx, MAX_PAYLOAD + 10).ok().unwrap();
        assert_eq!(data, "7:4hello€".as_bytes());
        assert!(rx.is_empty());
    }
}

#[test]
fn encode_v3binary_payload() {
    const PAYLOAD: [u8; 20] = [
        0, 9, 255, 52, 104, 101, 108, 108, 111, 226, 130, 172, 1, 5, 255, 4, 1, 2, 3, 4,
    ];
    let mut rx = queue_of(vec![hello(), Packet::BinaryV3(vec![1, 2, 3, 4])]);
    let Payload { data, has_binary } = v3_binary_encoder(&mut rx, MAX_PAYLOAD).ok().unwrap();
    assert_eq!(data, PAYLOAD);
    assert!(has_binary);
}

#[test]
fn max_payload_v3_binary() {
    const MAX_PAYLOAD: u64 = 25;
    const PAYLOAD: [u8; 23] = [
        0, 1, 1, 255, 52, 104, 101, 108, 108, 111, 111, 111, 226, 130, 172, 1, 5, 255, 4, 1, 2, 3,
        4,
    ];
    let mut rx = queue_of(vec![
        Packet::Message("hellooo€".into()),
        Packet::BinaryV3(vec![1, 2, 3, 4]),
        hello(),
        hello(),
    ]);
    {
        let Payload { data, .. } = v3_binary_encoder(&mut rx, MAX_PAYLOAD).ok().unwrap();
        assert_eq!(data, PAYLOAD);
    }
    {
        let Payload { data, .. } = v3_binary_encoder(&mut rx, MAX_PAYLOAD).ok().unwrap();
        assert_eq!(data, "7:4hello€7:4hello€".as_bytes());
    }
}

#[test]
fn v3_string_budget_grows_with_each_packet() {
    let mut rx = queue_of(vec![hello(), hello()]);
    let p = v3_string_encoder(&mut rx, 20).ok().unwrap();
    assert_eq!(p.data, "7:4hello€".as_bytes());
    assert_eq!(rx.len(), 1);
    let mut rx = queue_of(vec![hello(), hello()]);
    let p = v3_string_encoder(&mut rx, 22).ok().unwrap();
    assert_eq!(p.data, "7:4hello€7:4hello€".as_bytes());
    assert!(rx.is_empty());
}

#[test]
fn closed_empty_queue_aborts_every_encoder() {
    let mut rx = PacketQueue::new();
    rx.close();
    assert!(matches!(v4_encoder(&mut rx, MAX_PAYLOAD), Err(Error::Aborted)));
    assert!(matches!(v3_string_encoder(&mut rx, MAX_PAYLOAD), Err(Error::Aborted)));
    assert!(matches!(v3_binary_encoder(&mut rx, MAX_PAYLOAD), Err(Error::Aborted)));
}

#[test]
fn open_empty_queue_would_block() {
    let mut rx = PacketQueue::new();
    assert!(matches!(v4_encoder(&mut rx, MAX_PAYLOAD), Err(Error::WouldBlock)));
    assert!(matches!(v3_string_encoder(&mut rx, MAX_PAYLOAD), Err(Error::WouldBlock)));
    assert!(matches!(v3_binary_encoder(&mut rx, MAX_PAYLOAD), Err(Error::WouldBlock)));
    assert!(!rx.is_closed());
}

#[test]
fn oversized_packet_is_sent_alone() {
    let mut rx = queue_of(vec![hello(), hello()]);
    let p = v4_encoder(&mut rx, 1).ok().unwrap();
    assert_eq!(p.data, "4hello€".as_bytes());
    assert_eq!(rx.len(), 1);
    let p = v3_string_encoder(&mut rx, 1).ok().unwrap();
    assert_eq!(p.data, "7:4hello€".as_bytes());
    assert!(rx.is_empty());

    let mut rx = queue_of(vec![Packet::BinaryV3(vec![7; 12]), hello()]);
    let p = v3_binary_encoder(&mut rx, 3).ok().unwrap();
    let mut expected = vec![1, 1, 3, 255, 4];
    expected.extend(vec![7; 12]);
    assert_eq!(p.data, expected);
    assert!(p.has_binary);
    assert_eq!(rx.len(), 1);
}

#[test]
fn close_discards_the_next_packet_and_closes() {
    let mut rx = queue_of(vec![
        Packet::Message("a".into()),
        Packet::Close,
        Packet::Message("b".into()),
        Packet::Message("c".into()),
    ]);
    let p = v4_encoder(&mut rx, MAX_PAYLOAD).ok().unwrap();
    assert_eq!(p.data, "4a\x1e1\x1e4c".as_bytes());
    assert!(rx.is_closed());
    assert!(!rx.push(Packet::Ping));
    assert!(matches!(v4_encoder(&mut rx, MAX_PAYLOAD), Err(Error::Aborted)));
}

#[test]
fn close_as_last_packet_closes() {
    let mut rx = queue_of(vec![Packet::Close]);
    let taken = try_recv_packet(&mut rx, 0, MAX_PAYLOAD as u64, true);
    assert!(matches!(taken, Some(Packet::Close)));
    assert!(rx.is_closed());
    assert!(rx.is_empty());
}

#[test]
fn drain_step_leaves_a_packet_over_budget() {
    let mut rx = queue_of(vec![hello()]);
    assert!(try_recv_packet(&mut rx, 2, 10, true).is_none());
    assert_eq!(rx.len(), 1);
    assert!(matches!(try_recv_packet(&mut rx, 1, 10, true), Some(Packet::Message(_))));
    assert!(rx.is_empty());
}

#[test]
fn redrain_keeps_queue_order() {
    let mut rx = queue_of(vec![Packet::Message("1".into()), Packet::Message("2".into())]);
    let p = v4_encoder(&mut rx, 3).ok().unwrap();
    assert_eq!(p.data, b"41");
    assert!(rx.push(Packet::Message("3".into())));
    let p = v4_encoder(&mut rx, MAX_PAYLOAD).ok().unwrap();
    assert_eq!(p.data, "42\x1e43".as_bytes());
}

#[test]
fn v3_binary_batch_with_binary_frames_every_packet_as_bytes() {
    let mut rx = queue_of(vec![Packet::Message("a".into()), Packet::Binary(vec![1])]);
    let p = v3_binary_encoder(&mut rx, MAX_PAYLOAD).ok().unwrap();
    assert!(p.has_binary);
    assert_eq!(p.data, vec![0, 2, 255, b'4', b'a', 0, 5, 255, b'b', b'A', b'Q', b'=', b'=']);
}

#[test]
fn v3_binary_batch_without_binary_uses_text_frames() {
    let mut rx = queue_of(vec![Packet::Ping, Packet::Message("a".into())]);
    let p = v3_binary_encoder(&mut rx, MAX_PAYLOAD).ok().unwrap();
    assert!(!p.has_binary);
    assert_eq!(p.data, b"1:22:4a");
}

#[test]
fn v3_binary_fallback_text_packet_uses_text_frame() {
    let mut rx = queue_of(vec![Packet::Message("hello".into())]);
    let p = v3_binary_encoder(&mut rx, 2).ok().unwrap();
    assert!(!p.has_binary);
    assert_eq!(p.data, b"6:4hello");
}

#[test]
fn packet_encoders_frame_one_packet() {
    let mut data = vec![9];
    assert!(v3_bin_packet_encoder(Packet::Ping, &mut data).is_ok());
    assert_eq!(data, vec![9, 0, 1, 255, b'2']);
    let mut data = Vec::new();
    assert!(v3_string_packet_encoder(Packet::PingUpgrade, &mut data).is_ok());
    assert_eq!(data, b"6:2probe");
    let mut data = Vec::new();
    assert!(v3_string_packet_encoder(Packet::Message("0123456789".into()), &mut data).is_ok());
    assert_eq!(data, b"11:40123456789");
    let mut data = Vec::new();
    assert!(v3_bin_packet_encoder(Packet::BinaryV3(vec![0; 10]), &mut data).is_ok());
    let mut expected = vec![1, 1, 1, 255, 4];
    expected.extend(vec![0; 10]);
    assert_eq!(data, expected);
}

#[test]
fn text_forms_of_packets() {
    assert_eq!(Packet::Binary(vec![1, 2, 3, 4]).into_text(), "bAQIDBA==");
    assert_eq!(Packet::BinaryV3(vec![1, 2, 3, 4]).into_text(), "b4AQIDBA==");
    assert_eq!(Packet::Binary(vec![]).into_text(), "b");
    assert_eq!(Packet::Open("{\"sid\":\"x\"}".into()).into_text(), "0{\"sid\":\"x\"}");
    assert_eq!(Packet::Close.into_text(), "1");
    assert_eq!(Packet::Pong.into_text(), "3");
    assert_eq!(Packet::PongUpgrade.into_text(), "3probe");
    assert_eq!(Packet::Upgrade.into_text(), "5");
    assert_eq!(Packet::Noop.into_text(), "6");
}

#[test]
fn size_hints() {
    assert_eq!(hello().get_size_hint(true), 9);
    assert_eq!(Packet::Binary(vec![1, 2, 3, 4]).get_size_hint(true), 9);
    assert_eq!(Packet::Binary(vec![1, 2, 3, 4]).get_size_hint(false), 5);
    assert_eq!(Packet::BinaryV3(vec![1, 2, 3, 4]).get_size_hint(true), 10);
    assert_eq!(Packet::BinaryV3(vec![1, 2, 3]).get_size_hint(true), 6);
    assert_eq!(Packet::PingUpgrade.get_size_hint(false), 6);
    assert_eq!(Packet::Noop.get_size_hint(true), 1);
    assert!(Packet::BinaryV3(vec![]).is_binary());
    assert!(!hello().is_binary());
}

#[test]
fn queue_peek_and_take_in_order() {
    let mut rx = queue_of(vec![Packet::Ping, Packet::Pong]);
    assert!(matches!(rx.peek(), Some(Packet::Ping)));
    assert!(matches!(rx.try_recv(), Some(Packet::Ping)));
    assert!(matches!(rx.try_recv(), Some(Packet::Pong)));
    assert!(rx.try_recv().is_none());
}

#[test]
fn v3_string_redrain_keeps_queue_order() {
    let mut rx = queue_of(vec![Packet::Message("1".into()), Packet::Message("2".into())]);
    let p = v3_string_encoder(&mut rx, 6).ok().unwrap();
    assert_eq!(p.data, b"2:41");
    assert!(rx.push(Packet::Message("3".into())));
    let p = v3_string_encoder(&mut rx, MAX_PAYLOAD).ok().unwrap();
    assert_eq!(p.data, b"2:422:43");
}
