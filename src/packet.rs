use base64::Engine;
use vstd::prelude::*;
use vstd::string::*;
use vstd::utf8::encode_utf8;

verus! {

/// One engine.io packet queued for delivery to the peer.
///
/// `Open` carries the handshake data already written as JSON text.
pub enum Packet {
    Open(String),
    Close,
    Ping,
    Pong,
    PingUpgrade,
    PongUpgrade,
    Message(String),
    Upgrade,
    Noop,
    Binary(Vec<u8>),
    BinaryV3(Vec<u8>),
}

/// Standard padded base64 of `bytes`.
pub uninterp spec fn base64_of(bytes: Seq<u8>) -> Seq<char>;

/// Number of characters of the padded base64 form of `n` bytes.
pub open spec fn base64_len(n: nat) -> nat {
    4 * ((n + 2) / 3)
}

/// Relies on base64's `Engine::encode` with the `STANDARD` engine: the padded
/// standard-alphabet encoding, four characters per started group of three
/// bytes, each an ASCII letter, digit, `+`, `/` or the padding `=`. It panics
/// only where that length overflows `usize`.
#[verifier::external_body]
fn encode_base64(bytes: &Vec<u8>) -> (r: String)
    requires
        base64_len(bytes@.len()) <= usize::MAX,
    ensures
        r@ == base64_of(bytes@),
        r@.len() == base64_len(bytes@.len()),
        forall|i: int| 0 <= i < r@.len() ==> (#[trigger] r@[i] as u32) < 128,
{
    base64::engine::general_purpose::STANDARD.encode(bytes)
}

/// The text form of a packet: a one-digit type code followed by its data;
/// binary data is written `b` (`b4` for the legacy variant) and base64.
pub open spec fn text_of(p: Packet) -> Seq<char> {
    match p {
        Packet::Open(s) => seq!['0'] + s@,
        Packet::Close => seq!['1'],
        Packet::Ping => seq!['2'],
        Packet::Pong => seq!['3'],
        Packet::PingUpgrade => seq!['2', 'p', 'r', 'o', 'b', 'e'],
        Packet::PongUpgrade => seq!['3', 'p', 'r', 'o', 'b', 'e'],
        Packet::Message(m) => seq!['4'] + m@,
        Packet::Upgrade => seq!['5'],
        Packet::Noop => seq!['6'],
        Packet::Binary(d) => seq!['b'] + base64_of(d@),
        Packet::BinaryV3(d) => seq!['b', '4'] + base64_of(d@),
    }
}

/// The UTF-8 bytes of the text form of a packet.
pub open spec fn text_bytes_of(p: Packet) -> Seq<u8> {
    encode_utf8(text_of(p))
}

/// Whether the packet carries binary data.
pub open spec fn is_binary_packet(p: Packet) -> bool {
    p is Binary || p is BinaryV3
}

/// A packet whose text form can be computed: binary data short enough that
/// its base64 length fits in `usize`.
pub open spec fn encodable(p: Packet) -> bool {
    match p {
        Packet::Binary(d) => base64_len(d@.len()) <= usize::MAX,
        Packet::BinaryV3(d) => base64_len(d@.len()) <= usize::MAX,
        _ => true,
    }
}

/// The estimated wire length of a packet, in bytes, used to budget a payload
/// before the packet is written. With `b64`, binary data is counted as base64
/// text; without it, as raw bytes.
pub open spec fn size_hint_of(p: Packet, b64: bool) -> nat {
    match p {
        Packet::Open(s) => 1 + encode_utf8(s@).len(),
        Packet::PingUpgrade => 6,
        Packet::PongUpgrade => 6,
        Packet::Message(m) => 1 + encode_utf8(m@).len(),
        Packet::Binary(d) => if b64 {
            1 + base64_len(d@.len())
        } else {
            1 + d@.len()
        },
        Packet::BinaryV3(d) => if b64 {
            2 + base64_len(d@.len())
        } else {
            1 + d@.len()
        },
        _ => 1,
    }
}

/// Number of UTF-8 bytes of a string.
pub fn utf8_len(s: &str) -> (r: usize)
    ensures
        r == encode_utf8(s@).len(),
{
    s.as_bytes().len()
}

/// A string whose characters are those of `lit` followed by those of `tail`.
fn prefixed(lit: &str, tail: &str) -> (r: String)
    ensures
        r@ == lit@ + tail@,
{
    let mut r = String::from_str(lit);
    r.append(tail);
    r
}

impl Packet {
    /// Whether this is one of the two binary variants.
    pub fn is_binary(&self) -> (r: bool)
        ensures
            r == is_binary_packet(*self),
    {
        matches!(self, Packet::Binary(_) | Packet::BinaryV3(_))
    }

    /// Whether this is the `Close` packet.
    pub fn is_close(&self) -> (r: bool)
        ensures
            r == (*self is Close),
    {
        matches!(self, Packet::Close)
    }

    /// Whether the text form of this packet can be computed.
    pub fn is_encodable(&self) -> (r: bool)
        ensures
            r == encodable(*self),
    {
        match self {
            Packet::Binary(d) => 4 * ((d.len() as u128 + 2) / 3) <= usize::MAX as u128,
            Packet::BinaryV3(d) => 4 * ((d.len() as u128 + 2) / 3) <= usize::MAX as u128,
            _ => true,
        }
    }

    /// The estimated wire length of this packet (see `size_hint_of`).
    pub fn get_size_hint(&self, b64: bool) -> (r: u128)
        ensures
            r == size_hint_of(*self, b64),
    {
        match self {
            Packet::Open(s) => 1 + utf8_len(s.as_str()) as u128,
            Packet::PingUpgrade => 6,
            Packet::PongUpgrade => 6,
            Packet::Message(m) => 1 + utf8_len(m.as_str()) as u128,
            Packet::Binary(d) => if b64 {
                1 + 4 * ((d.len() as u128 + 2) / 3)
            } else {
                1 + d.len() as u128
            },
            Packet::BinaryV3(d) => if b64 {
                2 + 4 * ((d.len() as u128 + 2) / 3)
            } else {
                1 + d.len() as u128
            },
            _ => 1,
        }
    }

    /// The text form of this packet.
    pub fn into_text(self) -> (r: String)
        requires
            encodable(self),
        ensures
            r@ == text_of(self),
    {
        proof {
            reveal_strlit("0");
            reveal_strlit("1");
            reveal_strlit("2");
            reveal_strlit("3");
            reveal_strlit("2probe");
            reveal_strlit("3probe");
            reveal_strlit("4");
            reveal_strlit("5");
            reveal_strlit("6");
            reveal_strlit("b");
            reveal_strlit("b4");
        }
        match self {
            Packet::Open(s) => prefixed("0", s.as_str()),
            Packet::Close => String::from_str("1"),
            Packet::Ping => String::from_str("2"),
            Packet::Pong => String::from_str("3"),
            Packet::PingUpgrade => String::from_str("2probe"),
            Packet::PongUpgrade => String::from_str("3probe"),
            Packet::Message(m) => prefixed("4", m.as_str()),
            Packet::Upgrade => String::from_str("5"),
            Packet::Noop => String::from_str("6"),
            Packet::Binary(d) => {
                let b = encode_base64(&d);
                prefixed("b", b.as_str())
            },
            Packet::BinaryV3(d) => {
                let b = encode_base64(&d);
                prefixed("b4", b.as_str())
            },
        }
    }
}

} // verus!
