//! The binary wire format of the speed-camera service.
//!
//! Integers travel big-endian. A string travels as one length byte followed
//! by its UTF-8 bytes. Clients send `Plate` (0x20), `WantHeartbeat` (0x40),
//! `IAmCamera` (0x80) and `IAmDispatcher` (0x81); the server sends `Error`
//! (0x10), `Ticket` (0x21) and `Heartbeat` (0x41).

use vstd::prelude::*;
use vstd::utf8::{decode_utf8, encode_utf8, valid_utf8};

verus! {

pub type MilePos = u16;

pub type Timestamp = u32;

pub type Plate = String;

pub type Road = u16;

pub type Speed = u16;

/// Big-endian bytes of a 16-bit integer.
pub open spec fn u16_bytes(v: u16) -> Seq<u8> {
    seq![(v / 0x100) as u8, (v % 0x100) as u8]
}

/// Big-endian bytes of a 32-bit integer.
pub open spec fn u32_bytes(v: u32) -> Seq<u8> {
    seq![
        (v / 0x100_0000) as u8,
        ((v / 0x1_0000) % 0x100) as u8,
        ((v / 0x100) % 0x100) as u8,
        (v % 0x100) as u8,
    ]
}

/// The 16-bit integer with big-endian bytes `b0 b1`.
pub open spec fn u16_from(b0: u8, b1: u8) -> u16 {
    (b0 * 0x100 + b1) as u16
}

/// The 32-bit integer with big-endian bytes `b0 b1 b2 b3`.
pub open spec fn u32_from(b0: u8, b1: u8, b2: u8, b3: u8) -> u32 {
    (b0 * 0x100_0000 + b1 * 0x1_0000 + b2 * 0x100 + b3) as u32
}

/// A string on the wire: its UTF-8 length as one byte (taken modulo 256,
/// as the length is cast to a byte), then its UTF-8 bytes.
pub open spec fn str_bytes(s: Seq<char>) -> Seq<u8> {
    seq![(encode_utf8(s).len() % 0x100) as u8] + encode_utf8(s)
}

/// Appends the big-endian bytes of `v`.
fn push_u16(out: &mut Vec<u8>, v: u16)
    ensures
        final(out)@ == old(out)@ + u16_bytes(v),
{
    out.push((v / 0x100) as u8);
    out.push((v % 0x100) as u8);
}

/// Appends the big-endian bytes of `v`.
fn push_u32(out: &mut Vec<u8>, v: u32)
    ensures
        final(out)@ == old(out)@ + u32_bytes(v),
{
    out.push((v / 0x100_0000) as u8);
    out.push(((v / 0x1_0000) % 0x100) as u8);
    out.push(((v / 0x100) % 0x100) as u8);
    out.push((v % 0x100) as u8);
}

/// Appends the bytes of a slice.
fn push_bytes(out: &mut Vec<u8>, bytes: &[u8])
    ensures
        final(out)@ == old(out)@ + bytes@,
{
    let ghost start = out@;
    out.extend_from_slice(bytes);
    assert forall|i: int| 0 <= i < out@.len() implies #[trigger] out@[i] == (start + bytes@)[i] by {
        if i >= start.len() {
            assert(cloned::<u8>(bytes@[i - start.len()], out@[i]));
        }
    }
    assert(out@ =~= start + bytes@);
}

/// A message the server can put on the wire.
pub trait WriteMsg {
    /// The bytes of the message.
    spec fn wire(&self) -> Seq<u8>;

    /// Appends the bytes of the message to `out`.
    fn write_to(&self, out: &mut Vec<u8>)
        ensures
            final(out)@ == old(out)@ + self.wire(),
    ;
}

impl WriteMsg for String {
    open spec fn wire(&self) -> Seq<u8> {
        str_bytes(self@)
    }

    fn write_to(&self, out: &mut Vec<u8>) {
        let bytes = self.as_str().as_bytes();
        out.push((bytes.len() % 0x100) as u8);
        push_bytes(out, bytes);
        assert(out@ =~= old(out)@ + str_bytes(self@));
    }
}

/// An error message.
pub struct ErrorMsg {
    pub msg: String,
}

impl WriteMsg for ErrorMsg {
    open spec fn wire(&self) -> Seq<u8> {
        seq![0x10u8] + str_bytes(self.msg@)
    }

    fn write_to(&self, out: &mut Vec<u8>) {
        out.push(0x10);
        self.msg.write_to(out);
        assert(out@ =~= old(out)@ + self.wire());
    }
}

/// A speeding ticket.
pub struct Ticket {
    pub plate: Plate,
    pub road: Road,
    pub mile1: MilePos,
    pub timestamp1: Timestamp,
    pub mile2: MilePos,
    pub timestamp2: Timestamp,
    pub speed: Speed,
}

impl WriteMsg for Ticket {
    open spec fn wire(&self) -> Seq<u8> {
        seq![0x21u8] + str_bytes(self.plate@) + u16_bytes(self.road) + u16_bytes(self.mile1)
            + u32_bytes(self.timestamp1) + u16_bytes(self.mile2) + u32_bytes(self.timestamp2)
            + u16_bytes(self.speed)
    }

    fn write_to(&self, out: &mut Vec<u8>) {
        out.push(0x21);
        self.plate.write_to(out);
        push_u16(out, self.road);
        push_u16(out, self.mile1);
        push_u32(out, self.timestamp1);
        push_u16(out, self.mile2);
        push_u32(out, self.timestamp2);
        push_u16(out, self.speed);
        assert(out@ =~= old(out)@ + self.wire());
    }
}

/// A heartbeat.
pub struct Heartbeat;

impl WriteMsg for Heartbeat {
    open spec fn wire(&self) -> Seq<u8> {
        seq![0x41u8]
    }

    fn write_to(&self, out: &mut Vec<u8>) {
        out.push(0x41);
    }
}

/// What `String::from_utf8_lossy` makes of a byte string: the characters
/// it decodes, with each invalid sequence replaced by U+FFFD.
pub uninterp spec fn utf8_lossy(bytes: Seq<u8>) -> Seq<char>;

/// Text decoded from bytes as `String::from_utf8_lossy` does: for valid
/// UTF-8 the decoding itself, otherwise its replacement-character version.
pub open spec fn lossy_text(bytes: Seq<u8>) -> Seq<char> {
    if valid_utf8(bytes) {
        decode_utf8(bytes)
    } else {
        utf8_lossy(bytes)
    }
}

/// Calls `String::from_utf8_lossy` and takes ownership of the result.
/// Trusted: the result is `utf8_lossy` of the bytes, and (as std documents)
/// exactly their decoding when they are valid UTF-8.
#[verifier::external_body]
fn string_from_utf8_lossy(bytes: &[u8]) -> (s: String)
    ensures
        s@ == utf8_lossy(bytes@),
        valid_utf8(bytes@) ==> s@ == decode_utf8(bytes@),
{
    String::from_utf8_lossy(bytes).into_owned()
}

/// Decodes bytes as text, each invalid UTF-8 sequence becoming U+FFFD.
pub fn text_from_bytes(bytes: &[u8]) -> (s: String)
    ensures
        s@ == lossy_text(bytes@),
{
    string_from_utf8_lossy(bytes)
}

/// A string at the front of `b`: its length byte, then that many bytes of
/// text; `None` while `b` is too short to hold it.
pub open spec fn decode_str(b: Seq<u8>) -> Option<(Seq<char>, int)> {
    if b.len() < 1 {
        None
    } else if b.len() < 1 + b[0] {
        None
    } else {
        Some((lossy_text(b.subrange(1, 1 + b[0])), 1 + b[0]))
    }
}

/// A message from a client, as decoded.
pub enum ClientMsgModel {
    Plate { id: Seq<char>, timestamp: u32 },
    WantHeartBeat { interval: u32 },
    IAmCamera { road: u16, mile: u16, limit: u16 },
    IAmDispatcher { roads: Seq<u16> },
    UnknownMsg,
}

/// The client message at the front of `b` and the number of bytes it takes;
/// `None` while `b` is too short to hold a whole message. A type byte the
/// protocol does not know makes a one-byte `UnknownMsg`.
pub open spec fn decode_client_msg(b: Seq<u8>) -> Option<(ClientMsgModel, int)> {
    if b.len() < 1 {
        None
    } else if b[0] == 0x20 {
        match decode_str(b.skip(1)) {
            Some((id, n)) => if b.len() < 1 + n + 4 {
                None
            } else {
                Some(
                    (
                        ClientMsgModel::Plate {
                            id,
                            timestamp: u32_from(b[1 + n], b[2 + n], b[3 + n], b[4 + n]),
                        },
                        5 + n,
                    ),
                )
            },
            None => None,
        }
    } else if b[0] == 0x40 {
        if b.len() < 5 {
            None
        } else {
            Some((ClientMsgModel::WantHeartBeat { interval: u32_from(b[1], b[2], b[3], b[4]) }, 5))
        }
    } else if b[0] == 0x80 {
        if b.len() < 7 {
            None
        } else {
            Some(
                (
                    ClientMsgModel::IAmCamera {
                        road: u16_from(b[1], b[2]),
                        mile: u16_from(b[3], b[4]),
                        limit: u16_from(b[5], b[6]),
                    },
                    7,
                ),
            )
        }
    } else if b[0] == 0x81 {
        if b.len() < 2 || b.len() < 2 + 2 * b[1] {
            None
        } else {
            Some(
                (
                    ClientMsgModel::IAmDispatcher {
                        roads: Seq::new(b[1] as nat, |i: int| u16_from(b[2 + 2 * i], b[3 + 2 * i])),
                    },
                    2 + 2 * b[1],
                ),
            )
        }
    } else {
        Some((ClientMsgModel::UnknownMsg, 1))
    }
}

/// A message from a client.
pub enum ClientMsg {
    Plate { id: Plate, timestamp: Timestamp },
    WantHeartBeat { interval: u32 },
    IAmCamera { road: Road, mile: MilePos, limit: Speed },
    IAmDispatcher { roads: Vec<Road> },
    UnknownMsg,
}

impl View for ClientMsg {
    type V = ClientMsgModel;

    open spec fn view(&self) -> ClientMsgModel {
        match self {
            ClientMsg::Plate { id, timestamp } => ClientMsgModel::Plate { id: id@, timestamp: *timestamp },
            ClientMsg::WantHeartBeat { interval } => ClientMsgModel::WantHeartBeat { interval: *interval },
            ClientMsg::IAmCamera { road, mile, limit } => ClientMsgModel::IAmCamera {
                road: *road,
                mile: *mile,
                limit: *limit,
            },
            ClientMsg::IAmDispatcher { roads } => ClientMsgModel::IAmDispatcher { roads: roads@ },
            ClientMsg::UnknownMsg => ClientMsgModel::UnknownMsg,
        }
    }
}

/// Reads the big-endian 16-bit integer at `at`.
fn read_u16_at(bytes: &[u8], at: usize) -> (v: u16)
    requires
        at + 2 <= bytes@.len(),
    ensures
        v == u16_from(bytes@[at as int], bytes@[at + 1]),
{
    (bytes[at] as u16) * 0x100 + (bytes[at + 1] as u16)
}

/// Reads the big-endian 32-bit integer at `at`.
fn read_u32_at(bytes: &[u8], at: usize) -> (v: u32)
    requires
        at + 4 <= bytes@.len(),
    ensures
        v == u32_from(bytes@[at as int], bytes@[at + 1], bytes@[at + 2], bytes@[at + 3]),
{
    (bytes[at] as u32) * 0x100_0000 + (bytes[at + 1] as u32) * 0x1_0000 + (bytes[at + 2] as u32)
        * 0x100 + (bytes[at + 3] as u32)
}

/// Reads the string that starts at `at`.
fn read_string_at(bytes: &[u8], at: usize) -> (r: Option<(String, usize)>)
    requires
        at <= bytes@.len(),
    ensures
        match r {
            Some((s, n)) => decode_str(bytes@.skip(at as int)) == Some((s@, n as int)),
            None => decode_str(bytes@.skip(at as int)) is None,
        },
{
    let ghost b = bytes@.skip(at as int);
    if at >= bytes.len() {
        return None;
    }
    let n = bytes[at] as usize;
    if bytes.len() - at - 1 < n {
        return None;
    }
    let text = &bytes[at + 1..at + 1 + n];
    assert(text@ =~= bytes@.subrange(at + 1, at + 1 + n));
    let s = string_from_utf8_lossy(text);
    assert(bytes@.subrange(at + 1, at + 1 + n) =~= b.subrange(1, 1 + b[0]));
    Some((s, n + 1))
}

/// Reads a string (a length byte and that many bytes of text) from the
/// front of `bytes`, with the number of bytes it takes; `None` while
/// `bytes` is too short.
pub fn read_string(bytes: &[u8]) -> (r: Option<(String, usize)>)
    ensures
        match r {
            Some((s, n)) => decode_str(bytes@) == Some((s@, n as int)),
            None => decode_str(bytes@) is None,
        },
{
    assert(bytes@.skip(0) =~= bytes@);
    read_string_at(bytes, 0)
}

impl ClientMsg {
    /// Reads the client message at the front of `bytes`, with the number of
    /// bytes it takes; `None` while `bytes` does not yet hold a whole
    /// message.
    pub fn read_from(bytes: &[u8]) -> (r: Option<(ClientMsg, usize)>)
        ensures
            match r {
                Some((m, n)) => decode_client_msg(bytes@) == Some((m@, n as int)),
                None => decode_client_msg(bytes@) is None,
            },
    {
        if bytes.len() < 1 {
            return None;
        }
        let kind = bytes[0];
        if kind == 0x20 {
            match read_string_at(bytes, 1) {
                Some((id, n)) => {
                    if bytes.len() - 1 - n < 4 {
                        return None;
                    }
                    let timestamp = read_u32_at(bytes, 1 + n);
                    Some((ClientMsg::Plate { id, timestamp }, 5 + n))
                },
                None => None,
            }
        } else if kind == 0x40 {
            if bytes.len() < 5 {
                return None;
            }
            Some((ClientMsg::WantHeartBeat { interval: read_u32_at(bytes, 1) }, 5))
        } else if kind == 0x80 {
            if bytes.len() < 7 {
                return None;
            }
            let road = read_u16_at(bytes, 1);
            let mile = read_u16_at(bytes, 3);
            let limit = read_u16_at(bytes, 5);
            Some((ClientMsg::IAmCamera { road, mile, limit }, 7))
        } else if kind == 0x81 {
            if bytes.len() < 2 {
                return None;
            }
            let num_roads = bytes[1] as usize;
            if bytes.len() - 2 < 2 * num_roads {
                return None;
            }
            let mut roads: Vec<Road> = Vec::with_capacity(num_roads);
            let mut i: usize = 0;
            while i < num_roads
                invariant
                    i <= num_roads,
                    num_roads == bytes@[1],
                    2 + 2 * num_roads <= bytes@.len(),
                    roads@ =~= Seq::new(
                        i as nat,
                        |j: int| u16_from(bytes@[2 + 2 * j], bytes@[3 + 2 * j]),
                    ),
                decreases num_roads - i,
            {
                let road = read_u16_at(bytes, 2 + 2 * i);
                roads.push(road);
                i = i + 1;
            }
            Some((ClientMsg::IAmDispatcher { roads }, 2 + 2 * num_roads))
        } else {
            Some((ClientMsg::UnknownMsg, 1))
        }
    }
}

/// A string of at most 255 UTF-8 bytes written to the wire reads back as
/// itself, taking exactly the bytes written, whatever follows it.
pub proof fn lemma_string_roundtrip(s: Seq<char>, rest: Seq<u8>)
    requires
        encode_utf8(s).len() <= 255,
    ensures
        decode_str(str_bytes(s) + rest) == Some((s, str_bytes(s).len() as int)),
{
    let e = encode_utf8(s);
    let b = str_bytes(s) + rest;
    assert(b[0] == e.len());
    assert(b.subrange(1, 1 + b[0]) =~= e);
    vstd::utf8::encode_utf8_valid_utf8(s);
    vstd::utf8::encode_utf8_decode_utf8(s);
}

/// A string decoded from the front of some bytes decodes the same with more
/// bytes after them.
pub proof fn lemma_decode_str_prefix(b: Seq<u8>, extra: Seq<u8>)
    requires
        decode_str(b) is Some,
    ensures
        decode_str(b + extra) == decode_str(b),
        1 <= decode_str(b).unwrap().1 <= b.len(),
{
    let c = b + extra;
    assert(c[0] == b[0]);
    assert(c.subrange(1, 1 + b[0]) =~= b.subrange(1, 1 + b[0]));
}

/// Decoding a client message only looks at the bytes the message takes:
/// once the front of a buffer holds a whole message, more bytes after it do
/// not change what is decoded, and the message takes at least one byte and
/// no more than the buffer holds.
pub proof fn lemma_decode_prefix(b: Seq<u8>, extra: Seq<u8>)
    requires
        decode_client_msg(b) is Some,
    ensures
        decode_client_msg(b + extra) == decode_client_msg(b),
        1 <= decode_client_msg(b).unwrap().1 <= b.len(),
{
    let c = b + extra;
    assert(c[0] == b[0]);
    if b[0] == 0x20 {
        assert(c.skip(1) =~= b.skip(1) + extra);
        lemma_decode_str_prefix(b.skip(1), extra);
        let n = decode_str(b.skip(1)).unwrap().1;
        assert(c[1 + n] == b[1 + n] && c[2 + n] == b[2 + n] && c[3 + n] == b[3 + n] && c[4 + n]
            == b[4 + n]);
    } else if b[0] == 0x40 {
        assert(c[1] == b[1] && c[2] == b[2] && c[3] == b[3] && c[4] == b[4]);
    } else if b[0] == 0x80 {
        assert(c[1] == b[1] && c[2] == b[2] && c[3] == b[3] && c[4] == b[4] && c[5] == b[5] && c[6]
            == b[6]);
    } else if b[0] == 0x81 {
        assert(c[1] == b[1]);
        let n = b[1] as nat;
        assert(Seq::new(n, |i: int| u16_from(c[2 + 2 * i], c[3 + 2 * i])) =~= Seq::new(
            n,
            |i: int| u16_from(b[2 + 2 * i], b[3 + 2 * i]),
        ));
    }
}

/// The text of a plate: the decoding of its bytes when they are valid
/// UTF-8, otherwise what `String::from_utf8_lossy` makes of them.
pub open spec fn plate_text_of(bytes: Seq<u8>) -> Seq<char> {
    if valid_utf8(bytes) {
        decode_utf8(bytes)
    } else {
        utf8_lossy(bytes)
    }
}

/// A `Plate` message (type byte 0x20) is its plate (a length byte `n`, then
/// `n` bytes of text) followed by the big-endian 32-bit timestamp in the
/// next four bytes, and takes `6 + n` bytes; it is incomplete while fewer
/// bytes are there.
pub proof fn lemma_decode_plate(b: Seq<u8>)
    requires
        b.len() >= 2,
        b[0] == 0x20,
    ensures
        b.len() < 6 + b[1] ==> decode_client_msg(b) is None,
        b.len() >= 6 + b[1] ==> decode_client_msg(b) == Some(
            (
                ClientMsgModel::Plate {
                    id: plate_text_of(b.subrange(2, 2 + b[1])),
                    timestamp: (b[2 + b[1]] * 0x100_0000 + b[3 + b[1]] * 0x1_0000 + b[4 + b[1]]
                        * 0x100 + b[5 + b[1]]) as u32,
                },
                6 + b[1],
            ),
        ),
{
    let t = b.skip(1);
    assert(t[0] == b[1]);
    if t.len() >= 1 + t[0] {
        assert(t.subrange(1, 1 + t[0]) =~= b.subrange(2, 2 + b[1]));
    }
}

/// A one-byte `Plate` prefix (type byte only) is incomplete.
pub proof fn lemma_decode_plate_short(b: Seq<u8>)
    requires
        b.len() == 1,
        b[0] == 0x20,
    ensures
        decode_client_msg(b) is None,
{
}

/// A `WantHeartbeat` message (type byte 0x40) carries the big-endian 32-bit
/// interval in bytes 1 to 4 and takes five bytes.
pub proof fn lemma_decode_want_heartbeat(b: Seq<u8>)
    requires
        b.len() >= 1,
        b[0] == 0x40,
    ensures
        b.len() < 5 ==> decode_client_msg(b) is None,
        b.len() >= 5 ==> decode_client_msg(b) == Some(
            (
                ClientMsgModel::WantHeartBeat {
                    interval: (b[1] * 0x100_0000 + b[2] * 0x1_0000 + b[3] * 0x100 + b[4]) as u32,
                },
                5int,
            ),
        ),
{
}

/// An `IAmCamera` message (type byte 0x80) carries road, mile and limit as
/// big-endian 16-bit integers in bytes 1-2, 3-4 and 5-6 and takes seven
/// bytes.
pub proof fn lemma_decode_camera(b: Seq<u8>)
    requires
        b.len() >= 1,
        b[0] == 0x80,
    ensures
        b.len() < 7 ==> decode_client_msg(b) is None,
        b.len() >= 7 ==> decode_client_msg(b) == Some(
            (
                ClientMsgModel::IAmCamera {
                    road: (b[1] * 0x100 + b[2]) as u16,
                    mile: (b[3] * 0x100 + b[4]) as u16,
                    limit: (b[5] * 0x100 + b[6]) as u16,
                },
                7int,
            ),
        ),
{
}

/// An `IAmDispatcher` message (type byte 0x81) is a count `n` and then `n`
/// big-endian 16-bit roads, the `i`-th in bytes `2 + 2i` and `3 + 2i`; it
/// takes `2 + 2n` bytes.
pub proof fn lemma_decode_dispatcher(b: Seq<u8>)
    requires
        b.len() >= 2,
        b[0] == 0x81,
    ensures
        b.len() < 2 + 2 * b[1] ==> decode_client_msg(b) is None,
        b.len() >= 2 + 2 * b[1] ==> {
            &&& decode_client_msg(b) matches Some((ClientMsgModel::IAmDispatcher { roads }, n))
            &&& n == 2 + 2 * b[1]
            &&& roads.len() == b[1]
            &&& forall|i: int|
                0 <= i < b[1] ==> #[trigger] roads[i] == (b[2 + 2 * i] * 0x100 + b[3 + 2 * i]) as u16
        },
{
}

/// Any other type byte is a one-byte unknown message.
pub proof fn lemma_decode_unknown(b: Seq<u8>)
    requires
        b.len() >= 1,
        b[0] != 0x20 && b[0] != 0x40 && b[0] != 0x80 && b[0] != 0x81,
    ensures
        decode_client_msg(b) == Some((ClientMsgModel::UnknownMsg, 1int)),
{
}

/// The two bytes written for a 16-bit integer read back, big-endian, as
/// that integer.
proof fn lemma_u16_bytes_value(v: u16)
    ensures
        u16_bytes(v).len() == 2,
        u16_bytes(v)[0] * 0x100 + u16_bytes(v)[1] == v,
{
}

/// The four bytes written for a 32-bit integer read back, big-endian, as
/// that integer.
proof fn lemma_u32_bytes_value(v: u32)
    ensures
        u32_bytes(v).len() == 4,
        u32_bytes(v)[0] * 0x100_0000 + u32_bytes(v)[1] * 0x1_0000 + u32_bytes(v)[2] * 0x100
            + u32_bytes(v)[3] == v,
{
    let a = v / 0x100_0000;
    let b = (v / 0x1_0000) % 0x100;
    let c = (v / 0x100) % 0x100;
    let d = v % 0x100;
    assert(a * 0x100_0000 + b * 0x1_0000 + c * 0x100 + d == v) by (nonlinear_arith)
        requires
            a == v / 0x100_0000,
            b == (v / 0x1_0000) % 0x100,
            c == (v / 0x100) % 0x100,
            d == v % 0x100,
            0 <= v < 0x1_0000_0000,
    ;
}

/// The bytes of a ticket, field by field: the type byte 0x21, the plate's
/// length byte and UTF-8 bytes, then road and first mile (16 bits each),
/// first timestamp (32 bits), second mile (16 bits), second timestamp (32
/// bits) and speed (16 bits), all big-endian and in that order.
pub proof fn lemma_ticket_layout(t: Ticket)
    ensures
        ({
            let w = t.wire();
            let e = encode_utf8(t.plate@);
            let l = e.len() as int;
            &&& w.len() == l + 18
            &&& w[0] == 0x21
            &&& w[1] == l % 0x100
            &&& w.subrange(2, 2 + l) == e
            &&& w[2 + l] * 0x100 + w[3 + l] == t.road
            &&& w[4 + l] * 0x100 + w[5 + l] == t.mile1
            &&& w[6 + l] * 0x100_0000 + w[7 + l] * 0x1_0000 + w[8 + l] * 0x100 + w[9 + l]
                == t.timestamp1
            &&& w[10 + l] * 0x100 + w[11 + l] == t.mile2
            &&& w[12 + l] * 0x100_0000 + w[13 + l] * 0x1_0000 + w[14 + l] * 0x100 + w[15 + l]
                == t.timestamp2
            &&& w[16 + l] * 0x100 + w[17 + l] == t.speed
        }),
{
    let w = t.wire();
    let e = encode_utf8(t.plate@);
    let l = e.len() as int;
    lemma_u16_bytes_value(t.road);
    lemma_u16_bytes_value(t.mile1);
    lemma_u32_bytes_value(t.timestamp1);
    lemma_u16_bytes_value(t.mile2);
    lemma_u32_bytes_value(t.timestamp2);
    lemma_u16_bytes_value(t.speed);
    let head = seq![0x21u8] + str_bytes(t.plate@);
    assert(head.len() == l + 2);
    assert(w =~= head + u16_bytes(t.road) + u16_bytes(t.mile1) + u32_bytes(t.timestamp1)
        + u16_bytes(t.mile2) + u32_bytes(t.timestamp2) + u16_bytes(t.speed));
    assert(w.subrange(2, 2 + l) =~= e);
    assert(w[2 + l] == u16_bytes(t.road)[0] && w[3 + l] == u16_bytes(t.road)[1]);
    assert(w[4 + l] == u16_bytes(t.mile1)[0] && w[5 + l] == u16_bytes(t.mile1)[1]);
    assert(w[6 + l] == u32_bytes(t.timestamp1)[0] && w[7 + l] == u32_bytes(t.timestamp1)[1]
        && w[8 + l] == u32_bytes(t.timestamp1)[2] && w[9 + l] == u32_bytes(t.timestamp1)[3]);
    assert(w[10 + l] == u16_bytes(t.mile2)[0] && w[11 + l] == u16_bytes(t.mile2)[1]);
    assert(w[12 + l] == u32_bytes(t.timestamp2)[0] && w[13 + l] == u32_bytes(t.timestamp2)[1]
        && w[14 + l] == u32_bytes(t.timestamp2)[2] && w[15 + l] == u32_bytes(t.timestamp2)[3]);
    assert(w[16 + l] == u16_bytes(t.speed)[0] && w[17 + l] == u16_bytes(t.speed)[1]);
}

/// The bytes of an error message: the type byte 0x10, then the message's
/// length byte and its UTF-8 bytes.
pub proof fn lemma_error_layout(m: ErrorMsg)
    ensures
        ({
            let w = m.wire();
            let e = encode_utf8(m.msg@);
            &&& w.len() == e.len() + 2
            &&& w[0] == 0x10
            &&& w[1] == e.len() % 0x100
            &&& w.subrange(2, 2 + e.len() as int) == e
        }),
{
    let e = encode_utf8(m.msg@);
    assert(m.wire().subrange(2, 2 + e.len() as int) =~= e);
}

/// The bytes of a string: its UTF-8 length (modulo 256) as one byte, then
/// its UTF-8 bytes.
pub proof fn lemma_string_layout(s: String)
    ensures
        ({
            let w = s.wire();
            let e = encode_utf8(s@);
            &&& w.len() == e.len() + 1
            &&& w[0] == e.len() % 0x100
            &&& w.subrange(1, 1 + e.len() as int) == e
        }),
{
    let e = encode_utf8(s@);
    assert(s.wire().subrange(1, 1 + e.len() as int) =~= e);
}

/// A heartbeat is the single byte 0x41.
pub proof fn lemma_heartbeat_layout(h: Heartbeat)
    ensures
        h.wire() == seq![0x41u8],
{
}

/// Reading a string: a length byte `n`, then `n` bytes of text; it takes
/// `1 + n` bytes and is incomplete while fewer are there.
pub proof fn lemma_decode_string(b: Seq<u8>)
    requires
        b.len() >= 1,
    ensures
        b.len() < 1 + b[0] ==> decode_str(b) is None,
        b.len() >= 1 + b[0] ==> decode_str(b) == Some(
            (plate_text_of(b.subrange(1, 1 + b[0])), 1 + b[0]),
        ),
{
}

} // verus!
