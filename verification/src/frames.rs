//! The binary frame codec: tagged, big-endian, length-implicit messages.
//!
//! A frame is one tagged message. Strings on the wire are pascal-strings:
//! a one-byte length followed by that many bytes. `encode` produces the
//! bit-exact byte layout of a well-formed frame; `decode` is speculative,
//! reporting `NeedMore` until a whole frame is present and consuming
//! nothing until then.

use vstd::prelude::*;

use crate::{be16, be32, bytes_of_u16, bytes_of_u32, rd_u16, rd_u32};

verus! {

/// An error report carried on the wire (tag 0x10).
#[derive(Debug, Clone, PartialEq, Eq)]
pub struct Error {
    pub message: Vec<u8>,
}

/// A plate observation (tag 0x20).
#[derive(Debug, Clone, PartialEq, Eq)]
pub struct Plate {
    pub plate: Vec<u8>,
    pub timestamp: u32,
}

/// A speeding ticket (tag 0x21).
#[derive(Debug, Clone, PartialEq, Eq)]
pub struct Ticket {
    pub plate: Vec<u8>,
    pub road: u16,
    pub mile1: u16,
    pub timestamp1: u32,
    pub mile2: u16,
    pub timestamp2: u32,
    pub speed: u16,
}

/// A heartbeat request (tag 0x40).
#[derive(Debug, Copy, Clone, PartialEq, Eq)]
pub struct WantHeartbeat {
    pub interval: u32,
}

/// A heartbeat (tag 0x41). Carries nothing.
#[derive(Debug, Copy, Clone, PartialEq, Eq)]
pub struct Heartbeat;

/// A camera introduction (tag 0x80).
#[derive(Debug, Clone, Copy, PartialEq, Eq)]
pub struct IAmCamera {
    pub road: u16,
    pub mile: u16,
    pub limit: u16,
}

/// A dispatcher introduction (tag 0x81): a declared count and the roads served.
#[derive(Debug, Clone, PartialEq, Eq)]
pub struct IAmDispatcher {
    pub num_roads: u8,
    pub roads: Vec<u16>,
}

/// One complete message of the binary protocol.
#[derive(Debug, Clone, PartialEq, Eq)]
pub enum Message {
    Error(Error),
    Plate(Plate),
    Ticket(Ticket),
    WantHeartbeat(WantHeartbeat),
    Heartbeat(Heartbeat),
    IAmCamera(IAmCamera),
    IAmDispatcher(IAmDispatcher),
}

/// The mathematical model of a frame: the same variants over sequences.
pub enum Frame {
    Error { message: Seq<u8> },
    Plate { plate: Seq<u8>, timestamp: u32 },
    Ticket {
        plate: Seq<u8>,
        road: u16,
        mile1: u16,
        timestamp1: u32,
        mile2: u16,
        timestamp2: u32,
        speed: u16,
    },
    WantHeartbeat { interval: u32 },
    Heartbeat,
    IAmCamera { road: u16, mile: u16, limit: u16 },
    IAmDispatcher { num_roads: u8, roads: Seq<u16> },
}

impl View for Message {
    type V = Frame;

    open spec fn view(&self) -> Frame {
        match self {
            Message::Error(d) => Frame::Error { message: d.message@ },
            Message::Plate(d) => Frame::Plate { plate: d.plate@, timestamp: d.timestamp },
            Message::Ticket(d) => Frame::Ticket {
                plate: d.plate@,
                road: d.road,
                mile1: d.mile1,
                timestamp1: d.timestamp1,
                mile2: d.mile2,
                timestamp2: d.timestamp2,
                speed: d.speed,
            },
            Message::WantHeartbeat(d) => Frame::WantHeartbeat { interval: d.interval },
            Message::Heartbeat(_) => Frame::Heartbeat,
            Message::IAmCamera(d) => Frame::IAmCamera {
                road: d.road,
                mile: d.mile,
                limit: d.limit,
            },
            Message::IAmDispatcher(d) => Frame::IAmDispatcher {
                num_roads: d.num_roads,
                roads: d.roads@,
            },
        }
    }
}

/// A well-formed frame: every pascal-string fits in its length byte and a
/// dispatcher's declared count equals the number of roads supplied.
pub open spec fn wf_frame(f: Frame) -> bool {
    match f {
        Frame::Error { message } => message.len() <= 255,
        Frame::Plate { plate, .. } => plate.len() <= 255,
        Frame::Ticket { plate, .. } => plate.len() <= 255,
        Frame::WantHeartbeat { .. } => true,
        Frame::Heartbeat => true,
        Frame::IAmCamera { .. } => true,
        Frame::IAmDispatcher { num_roads, roads } => roads.len() == num_roads as int,
    }
}

/// A pascal-string on the wire: length byte, then the bytes.
pub open spec fn pstr_bytes(s: Seq<u8>) -> Seq<u8>
    recommends
        s.len() <= 255,
{
    seq![s.len() as u8] + s
}

/// The wire bytes of a road list: each road as two big-endian bytes, in order.
pub open spec fn roads_bytes(roads: Seq<u16>) -> Seq<u8>
    decreases roads.len(),
{
    if roads.len() == 0 {
        Seq::empty()
    } else {
        bytes_of_u16(roads[0]) + roads_bytes(roads.skip(1))
    }
}

/// The exact wire encoding of a frame.
pub open spec fn frame_bytes(f: Frame) -> Seq<u8>
    recommends
        wf_frame(f),
{
    match f {
        Frame::Error { message } => seq![0x10u8] + pstr_bytes(message),
        Frame::Plate { plate, timestamp } => seq![0x20u8] + pstr_bytes(plate) + bytes_of_u32(
            timestamp,
        ),
        Frame::Ticket { plate, road, mile1, timestamp1, mile2, timestamp2, speed } => seq![0x21u8]
            + pstr_bytes(plate) + bytes_of_u16(road) + bytes_of_u16(mile1) + bytes_of_u32(
            timestamp1,
        ) + bytes_of_u16(mile2) + bytes_of_u32(timestamp2) + bytes_of_u16(speed),
        Frame::WantHeartbeat { interval } => seq![0x40u8] + bytes_of_u32(interval),
        Frame::Heartbeat => seq![0x41u8],
        Frame::IAmCamera { road, mile, limit } => seq![0x80u8] + bytes_of_u16(road) + bytes_of_u16(
            mile,
        ) + bytes_of_u16(limit),
        Frame::IAmDispatcher { num_roads, roads } => seq![0x81u8, num_roads] + roads_bytes(roads),
    }
}

/// Encoding refused: a string was longer than 255 bytes or a dispatcher's
/// count disagreed with its road list.
#[derive(Debug, Clone, Copy, PartialEq, Eq)]
pub struct EncodeFailed;

/// Append a pascal-string to `dst`. Fails, appending nothing, when the
/// string cannot fit its one-byte length prefix.
pub fn put_str(dst: &mut Vec<u8>, s: &Vec<u8>) -> (r: Result<(), EncodeFailed>)
    ensures
        s@.len() <= 255 ==> r is Ok && final(dst)@ == old(dst)@ + pstr_bytes(s@),
        s@.len() > 255 ==> r is Err && final(dst)@ == old(dst)@,
{
    if s.len() > 255 {
        return Err(EncodeFailed);
    }
    dst.push(s.len() as u8);
    let mut i: usize = 0;
    while i < s.len()
        invariant
            i <= s@.len(),
            s@.len() <= 255,
            dst@ == old(dst)@ + seq![s@.len() as u8] + s@.take(i as int),
        decreases s@.len() - i,
    {
        dst.push(s[i]);
        assert(s@.take(i + 1) == s@.take(i as int).push(s@[i as int]));
        i = i + 1;
    }
    assert(dst@ == old(dst)@ + pstr_bytes(s@)) by {
        assert(s@.take(s@.len() as int) == s@);
        assert(old(dst)@ + seq![s@.len() as u8] + s@ == old(dst)@ + pstr_bytes(s@));
    }
    Ok(())
}

/// Append a `u16`, most significant byte first.
pub fn put_u16(dst: &mut Vec<u8>, v: u16)
    ensures
        final(dst)@ == old(dst)@ + bytes_of_u16(v),
{
    dst.push((v / 256) as u8);
    dst.push((v % 256) as u8);
    assert(dst@ == old(dst)@ + bytes_of_u16(v));
}

/// Append a `u32`, most significant byte first.
pub fn put_u32(dst: &mut Vec<u8>, v: u32)
    ensures
        final(dst)@ == old(dst)@ + bytes_of_u32(v),
{
    put_u16(dst, (v / 65536) as u16);
    put_u16(dst, (v % 65536) as u16);
    assert(dst@ == old(dst)@ + bytes_of_u32(v));
}

} // verus!

verus! {

impl Message {
    /// Whether the frame can be encoded: see `wf_frame`.
    pub fn is_well_formed(&self) -> (b: bool)
        ensures
            b == wf_frame(self@),
    {
        match self {
            Message::Error(d) => d.message.len() <= 255,
            Message::Plate(d) => d.plate.len() <= 255,
            Message::Ticket(d) => d.plate.len() <= 255,
            Message::WantHeartbeat(_) => true,
            Message::Heartbeat(_) => true,
            Message::IAmCamera(_) => true,
            Message::IAmDispatcher(d) => d.roads.len() == d.num_roads as usize,
        }
    }
}

/// The stateless encoder/decoder for the binary protocol.
#[derive(Debug, Copy, Clone, PartialEq, Eq)]
pub struct MessageCodec;

impl MessageCodec {
    /// Serialize one frame, appending its bit-exact layout to `dst`.
    /// Refuses a malformed frame and appends nothing in that case.
    pub fn encode(&self, item: &Message, dst: &mut Vec<u8>) -> (r: Result<(), EncodeFailed>)
        ensures
            wf_frame(item@) ==> r is Ok && final(dst)@ == old(dst)@ + frame_bytes(item@),
            !wf_frame(item@) ==> r is Err && final(dst)@ == old(dst)@,
    {
        if !item.is_well_formed() {
            return Err(EncodeFailed);
        }
        match item {
            Message::Error(d) => {
                dst.push(0x10);
                put_str(dst, &d.message)?;
            },
            Message::Plate(d) => {
                dst.push(0x20);
                put_str(dst, &d.plate)?;
                put_u32(dst, d.timestamp);
            },
            Message::Ticket(d) => {
                dst.push(0x21);
                put_str(dst, &d.plate)?;
                put_u16(dst, d.road);
                put_u16(dst, d.mile1);
                put_u32(dst, d.timestamp1);
                put_u16(dst, d.mile2);
                put_u32(dst, d.timestamp2);
                put_u16(dst, d.speed);
            },
            Message::WantHeartbeat(d) => {
                dst.push(0x40);
                put_u32(dst, d.interval);
            },
            Message::Heartbeat(_) => {
                dst.push(0x41);
            },
            Message::IAmCamera(d) => {
                dst.push(0x80);
                put_u16(dst, d.road);
                put_u16(dst, d.mile);
                put_u16(dst, d.limit);
            },
            Message::IAmDispatcher(d) => {
                dst.push(0x81);
                dst.push(d.num_roads);
                let mut k: usize = 0;
                while k < d.roads.len()
                    invariant
                        k <= d.roads@.len(),
                        dst@ == old(dst)@ + seq![0x81u8, d.num_roads] + roads_bytes(
                            d.roads@.take(k as int),
                        ),
                    decreases d.roads@.len() - k,
                {
                    put_u16(dst, d.roads[k]);
                    proof {
                        lemma_roads_bytes_push(d.roads@.take(k as int), d.roads@[k as int]);
                        assert(d.roads@.take(k + 1) == d.roads@.take(k as int).push(
                            d.roads@[k as int],
                        ));
                    }
                    k = k + 1;
                }
                assert(d.roads@.take(d.roads@.len() as int) == d.roads@);
            },
        }
        assert(dst@ == old(dst)@ + frame_bytes(item@));
        Ok(())
    }
}

/// Appending one road to a list appends its two bytes to the list's encoding.
proof fn lemma_roads_bytes_push(roads: Seq<u16>, v: u16)
    ensures
        roads_bytes(roads.push(v)) == roads_bytes(roads) + bytes_of_u16(v),
    decreases roads.len(),
{
    if roads.len() == 0 {
        assert(roads.push(v)[0] == v);
        assert(roads.push(v).skip(1) =~= Seq::<u16>::empty());
        assert(roads_bytes(roads.push(v)) == bytes_of_u16(v) + roads_bytes(Seq::<u16>::empty()));
        assert(roads_bytes(roads.push(v)) =~= roads_bytes(roads) + bytes_of_u16(v));
    } else {
        assert(roads.push(v).skip(1) =~= roads.skip(1).push(v));
        lemma_roads_bytes_push(roads.skip(1), v);
        assert(roads_bytes(roads.push(v)) =~= roads_bytes(roads) + bytes_of_u16(v));
    }
}

} // verus!

verus! {

/// Read one byte at `i`; `None` when the buffer ends first.
pub open spec fn rd_u8(s: Seq<u8>, i: int) -> Option<(u8, int)> {
    if 0 <= i && i + 1 <= s.len() {
        Some((s[i], i + 1))
    } else {
        None
    }
}

/// Read a pascal-string at `i`; `None` when the length byte or any of the
/// announced bytes are missing.
pub open spec fn rd_str(s: Seq<u8>, i: int) -> Option<(Seq<u8>, int)> {
    if 0 <= i && i + 1 <= s.len() {
        let l = s[i] as int;
        if i + 1 + l <= s.len() {
            Some((s.subrange(i + 1, i + 1 + l), i + 1 + l))
        } else {
            None
        }
    } else {
        None
    }
}

/// Read `n` big-endian `u16` roads starting at `i`; `None` when the buffer
/// ends before the last one.
pub open spec fn rd_roads(s: Seq<u8>, i: int, n: int) -> Option<(Seq<u16>, int)>
    decreases n,
{
    if n <= 0 {
        Some((Seq::empty(), i))
    } else {
        match rd_u16(s, i) {
            Some((v, j)) => match rd_roads(s, j, n - 1) {
                Some((rest, k)) => Some((seq![v] + rest, k)),
                None => None,
            },
            None => None,
        }
    }
}

/// What `decode` reports for a buffer: an incomplete frame, a complete
/// frame with the number of bytes it occupies, or an unusable buffer.
pub enum SpecDecision {
    NeedMore,
    Complete(Frame, int),
    ProtocolError,
}

/// Ticket fields are read in wire order after the tag.
pub open spec fn spec_decode_ticket(s: Seq<u8>) -> SpecDecision {
    match rd_str(s, 1) {
        Some((plate, p1)) => match rd_u16(s, p1) {
            Some((road, p2)) => match rd_u16(s, p2) {
                Some((mile1, p3)) => match rd_u32(s, p3) {
                    Some((timestamp1, p4)) => match rd_u16(s, p4) {
                        Some((mile2, p5)) => match rd_u32(s, p5) {
                            Some((timestamp2, p6)) => match rd_u16(s, p6) {
                                Some((speed, p7)) => SpecDecision::Complete(
                                    Frame::Ticket {
                                        plate,
                                        road,
                                        mile1,
                                        timestamp1,
                                        mile2,
                                        timestamp2,
                                        speed,
                                    },
                                    p7,
                                ),
                                None => SpecDecision::NeedMore,
                            },
                            None => SpecDecision::NeedMore,
                        },
                        None => SpecDecision::NeedMore,
                    },
                    None => SpecDecision::NeedMore,
                },
                None => SpecDecision::NeedMore,
            },
            None => SpecDecision::NeedMore,
        },
        None => SpecDecision::NeedMore,
    }
}

/// The whole decoder, speculatively reading one frame from the front of `s`.
pub open spec fn spec_decode(s: Seq<u8>) -> SpecDecision {
    if s.len() == 0 {
        SpecDecision::NeedMore
    } else if s[0] == 0x10 {
        match rd_str(s, 1) {
            Some((message, j)) => SpecDecision::Complete(Frame::Error { message }, j),
            None => SpecDecision::NeedMore,
        }
    } else if s[0] == 0x20 {
        match rd_str(s, 1) {
            Some((plate, j)) => match rd_u32(s, j) {
                Some((timestamp, k)) => SpecDecision::Complete(
                    Frame::Plate { plate, timestamp },
                    k,
                ),
                None => SpecDecision::NeedMore,
            },
            None => SpecDecision::NeedMore,
        }
    } else if s[0] == 0x21 {
        spec_decode_ticket(s)
    } else if s[0] == 0x40 {
        match rd_u32(s, 1) {
            Some((interval, j)) => SpecDecision::Complete(Frame::WantHeartbeat { interval }, j),
            None => SpecDecision::NeedMore,
        }
    } else if s[0] == 0x41 {
        SpecDecision::Complete(Frame::Heartbeat, 1)
    } else if s[0] == 0x80 {
        match rd_u16(s, 1) {
            Some((road, p1)) => match rd_u16(s, p1) {
                Some((mile, p2)) => match rd_u16(s, p2) {
                    Some((limit, p3)) => SpecDecision::Complete(
                        Frame::IAmCamera { road, mile, limit },
                        p3,
                    ),
                    None => SpecDecision::NeedMore,
                },
                None => SpecDecision::NeedMore,
            },
            None => SpecDecision::NeedMore,
        }
    } else if s[0] == 0x81 {
        match rd_u8(s, 1) {
            Some((num_roads, j)) => match rd_roads(s, j, num_roads as int) {
                Some((roads, k)) => SpecDecision::Complete(
                    Frame::IAmDispatcher { num_roads, roads },
                    k,
                ),
                None => SpecDecision::NeedMore,
            },
            None => SpecDecision::NeedMore,
        }
    } else {
        SpecDecision::ProtocolError
    }
}

/// The decoder's verdict on a buffer. `NeedMore` and `ProtocolError`
/// consume nothing; `Complete` reports how many leading bytes form the frame.
#[derive(Debug, Clone, PartialEq, Eq)]
pub enum Decision {
    NeedMore,
    Complete(Message, usize),
    ProtocolError,
}

impl View for Decision {
    type V = SpecDecision;

    open spec fn view(&self) -> SpecDecision {
        match self {
            Decision::NeedMore => SpecDecision::NeedMore,
            Decision::Complete(m, c) => SpecDecision::Complete(m@, *c as int),
            Decision::ProtocolError => SpecDecision::ProtocolError,
        }
    }
}

/// Read one byte at `i`.
fn read_u8(src: &Vec<u8>, i: usize) -> (r: Option<(u8, usize)>)
    ensures
        match r {
            Some(p) => rd_u8(src@, i as int) == Some((p.0, p.1 as int)),
            None => rd_u8(src@, i as int) is None,
        },
{
    if i < src.len() {
        Some((src[i], i + 1))
    } else {
        None
    }
}

/// Read a big-endian `u16` at `i`.
fn read_u16(src: &Vec<u8>, i: usize) -> (r: Option<(u16, usize)>)
    ensures
        match r {
            Some(p) => rd_u16(src@, i as int) == Some((p.0, p.1 as int)),
            None => rd_u16(src@, i as int) is None,
        },
{
    if i < src.len() && src.len() - i >= 2 {
        let v: u16 = (src[i] as u16) * 256 + (src[i + 1] as u16);
        Some((v, i + 2))
    } else {
        None
    }
}

/// Read a big-endian `u32` at `i`.
fn read_u32(src: &Vec<u8>, i: usize) -> (r: Option<(u32, usize)>)
    ensures
        match r {
            Some(p) => rd_u32(src@, i as int) == Some((p.0, p.1 as int)),
            None => rd_u32(src@, i as int) is None,
        },
{
    if i < src.len() && src.len() - i >= 4 {
        let hi: u32 = (src[i] as u32) * 256 + (src[i + 1] as u32);
        let lo: u32 = (src[i + 2] as u32) * 256 + (src[i + 3] as u32);
        Some((hi * 65536 + lo, i + 4))
    } else {
        None
    }
}

/// Read a pascal-string at `i`, copying its bytes out.
fn read_str(src: &Vec<u8>, i: usize) -> (r: Option<(Vec<u8>, usize)>)
    ensures
        match r {
            Some(p) => rd_str(src@, i as int) == Some((p.0@, p.1 as int)),
            None => rd_str(src@, i as int) is None,
        },
{
    if i >= src.len() {
        return None;
    }
    let l = src[i] as usize;
    if src.len() - (i + 1) < l {
        return None;
    }
    let mut out: Vec<u8> = Vec::new();
    let mut k: usize = 0;
    while k < l
        invariant
            k <= l,
            i + 1 + l <= src@.len(),
            src@.len() <= usize::MAX,
            l == src@[i as int] as int,
            out@ == src@.subrange(i + 1, i + 1 + k),
        decreases l - k,
    {
        out.push(src[i + 1 + k]);
        assert(src@.subrange(i + 1, i + 1 + (k + 1)) == src@.subrange(i + 1, i + 1 + k).push(
            src@[i + 1 + k],
        ));
        k = k + 1;
    }
    Some((out, i + 1 + l))
}

impl MessageCodec {
    /// Inspect the front of `src` for one frame. Speculative: the buffer is
    /// only read, never changed, so an incomplete frame costs nothing.
    pub fn decode(&self, src: &Vec<u8>) -> (r: Decision)
        ensures
            r@ == spec_decode(src@),
    {
        if src.len() == 0 {
            return Decision::NeedMore;
        }
        match src[0] {
            0x10 => {
                let Some((message, j)) = read_str(src, 1) else {
                    return Decision::NeedMore;
                };
                Decision::Complete(Message::Error(Error { message }), j)
            },
            0x20 => {
                let Some((plate, j)) = read_str(src, 1) else {
                    return Decision::NeedMore;
                };
                let Some((timestamp, k)) = read_u32(src, j) else {
                    return Decision::NeedMore;
                };
                Decision::Complete(Message::Plate(Plate { plate, timestamp }), k)
            },
            0x21 => {
                let Some((plate, p1)) = read_str(src, 1) else {
                    return Decision::NeedMore;
                };
                let Some((road, p2)) = read_u16(src, p1) else {
                    return Decision::NeedMore;
                };
                let Some((mile1, p3)) = read_u16(src, p2) else {
                    return Decision::NeedMore;
                };
                let Some((timestamp1, p4)) = read_u32(src, p3) else {
                    return Decision::NeedMore;
                };
                let Some((mile2, p5)) = read_u16(src, p4) else {
                    return Decision::NeedMore;
                };
                let Some((timestamp2, p6)) = read_u32(src, p5) else {
                    return Decision::NeedMore;
                };
                let Some((speed, p7)) = read_u16(src, p6) else {
                    return Decision::NeedMore;
                };
                Decision::Complete(
                    Message::Ticket(
                        Ticket { plate, road, mile1, timestamp1, mile2, timestamp2, speed },
                    ),
                    p7,
                )
            },
            0x40 => {
                let Some((interval, j)) = read_u32(src, 1) else {
                    return Decision::NeedMore;
                };
                Decision::Complete(Message::WantHeartbeat(WantHeartbeat { interval }), j)
            },
            0x41 => Decision::Complete(Message::Heartbeat(Heartbeat), 1),
            0x80 => {
                let Some((road, p1)) = read_u16(src, 1) else {
                    return Decision::NeedMore;
                };
                let Some((mile, p2)) = read_u16(src, p1) else {
                    return Decision::NeedMore;
                };
                let Some((limit, p3)) = read_u16(src, p2) else {
                    return Decision::NeedMore;
                };
                Decision::Complete(Message::IAmCamera(IAmCamera { road, mile, limit }), p3)
            },
            0x81 => {
                let Some((num_roads, start)) = read_u8(src, 1) else {
                    return Decision::NeedMore;
                };
                let mut roads: Vec<u16> = Vec::new();
                let mut pos = start;
                let mut k: u8 = 0;
                while k < num_roads
                    invariant
                        k <= num_roads,
                        roads@.len() == k as int,
                        src@.len() > 0,
                        src@[0] == 0x81u8,
                        rd_u8(src@, 1) == Some((num_roads, start as int)),
                        (match rd_roads(src@, pos as int, num_roads as int - k as int) {
                            Some(p) => rd_roads(src@, start as int, num_roads as int) == Some(
                                (roads@ + p.0, p.1),
                            ),
                            None => rd_roads(src@, start as int, num_roads as int) is None,
                        }),
                    decreases num_roads - k,
                {
                    let Some((road, next)) = read_u16(src, pos) else {
                        proof {
                            lemma_rd_roads_stuck(src@, pos as int, num_roads as int - k as int);
                        }
                        return Decision::NeedMore;
                    };
                    proof {
                        lemma_rd_roads_step(src@, pos as int, num_roads as int - k as int);
                    }
                    let ghost prev = roads@;
                    roads.push(road);
                    pos = next;
                    k = k + 1;
                    proof {
                        assert(roads@ == prev + seq![road]);
                        if let Some(p) = rd_roads(src@, pos as int, num_roads as int - k as int) {
                            assert(prev + (seq![road] + p.0) =~= roads@ + p.0);
                        }
                    }
                }
                Decision::Complete(
                    Message::IAmDispatcher(IAmDispatcher { num_roads, roads }),
                    pos,
                )
            },
            _ => Decision::ProtocolError,
        }
    }
}

/// `rd_roads` fails as soon as one `u16` read fails.
proof fn lemma_rd_roads_stuck(s: Seq<u8>, i: int, n: int)
    requires
        n > 0,
        rd_u16(s, i) is None,
    ensures
        rd_roads(s, i, n) is None,
{
}

/// Unfolding one step of `rd_roads` after a successful `u16` read.
proof fn lemma_rd_roads_step(s: Seq<u8>, i: int, n: int)
    requires
        n > 0,
        rd_u16(s, i) is Some,
    ensures
        (match rd_roads(s, rd_u16(s, i)->Some_0.1, n - 1) {
            Some(p) => rd_roads(s, i, n) == Some(
                (seq![rd_u16(s, i)->Some_0.0] + p.0, p.1),
            ),
            None => rd_roads(s, i, n) is None,
        }),
{
}

} // verus!

verus! {

/// A big-endian `u16` placed directly after `prefix` reads back as itself.
proof fn lemma_rd_u16_at(prefix: Seq<u8>, v: u16, rest: Seq<u8>)
    ensures
        rd_u16(prefix + bytes_of_u16(v) + rest, prefix.len() as int) == Some(
            (v, prefix.len() + 2int),
        ),
{
    let s = prefix + bytes_of_u16(v) + rest;
    let i = prefix.len() as int;
    crate::lemma_u16_round_trip(v);
    assert(s[i] == bytes_of_u16(v)[0]);
    assert(s[i + 1] == bytes_of_u16(v)[1]);
}

/// A big-endian `u32` placed directly after `prefix` reads back as itself.
proof fn lemma_rd_u32_at(prefix: Seq<u8>, v: u32, rest: Seq<u8>)
    ensures
        rd_u32(prefix + bytes_of_u32(v) + rest, prefix.len() as int) == Some(
            (v, prefix.len() + 4int),
        ),
{
    let s = prefix + bytes_of_u32(v) + rest;
    let i = prefix.len() as int;
    crate::lemma_u32_round_trip(v);
    assert(s[i] == bytes_of_u32(v)[0]);
    assert(s[i + 1] == bytes_of_u32(v)[1]);
    assert(s[i + 2] == bytes_of_u32(v)[2]);
    assert(s[i + 3] == bytes_of_u32(v)[3]);
}

/// A pascal-string placed directly after `prefix` reads back as itself.
proof fn lemma_rd_str_at(prefix: Seq<u8>, data: Seq<u8>, rest: Seq<u8>)
    requires
        data.len() <= 255,
    ensures
        rd_str(prefix + pstr_bytes(data) + rest, prefix.len() as int) == Some(
            (data, prefix.len() + 1int + data.len()),
        ),
{
    let s = prefix + pstr_bytes(data) + rest;
    let i = prefix.len() as int;
    let l = data.len() as int;
    assert(s[i] == pstr_bytes(data)[0]);
    assert(s[i] as int == l);
    assert(s.subrange(i + 1, i + 1 + l) =~= data);
}

/// A road list placed directly after `prefix` reads back as itself.
proof fn lemma_rd_roads_at(prefix: Seq<u8>, roads: Seq<u16>, rest: Seq<u8>)
    ensures
        rd_roads(prefix + roads_bytes(roads) + rest, prefix.len() as int, roads.len() as int)
            == Some((roads, prefix.len() + 2int * roads.len())),
    decreases roads.len(),
{
    let s = prefix + roads_bytes(roads) + rest;
    let i = prefix.len() as int;
    if roads.len() == 0 {
        assert(roads =~= Seq::<u16>::empty());
    } else {
        let first = roads[0];
        let tail = roads.skip(1);
        assert(roads_bytes(roads) == bytes_of_u16(first) + roads_bytes(tail));
        assert(s =~= prefix + bytes_of_u16(first) + (roads_bytes(tail) + rest));
        lemma_rd_u16_at(prefix, first, roads_bytes(tail) + rest);
        assert(rd_u16(s, i) == Some((first, i + 2)));
        let prefix2 = prefix + bytes_of_u16(first);
        assert(s =~= prefix2 + roads_bytes(tail) + rest);
        lemma_rd_roads_at(prefix2, tail, rest);
        assert(rd_roads(s, i + 2, tail.len() as int) == Some((tail, i + 2 + 2 * tail.len())));
        assert(seq![first] + tail =~= roads);
    }
}

/// The byte length of a road list is two bytes per road.
proof fn lemma_roads_bytes_len(roads: Seq<u16>)
    ensures
        roads_bytes(roads).len() == 2 * roads.len(),
    decreases roads.len(),
{
    if roads.len() > 0 {
        lemma_roads_bytes_len(roads.skip(1));
    }
}

/// Round trip: decoding the encoding of any well-formed frame yields that
/// frame again and consumes exactly its length.
/// Round-trip case: an error frame.
proof fn lemma_rt_error(message: Seq<u8>)
    requires
        message.len() <= 255,
    ensures
        spec_decode(frame_bytes(Frame::Error { message })) == SpecDecision::Complete(
            Frame::Error { message },
            frame_bytes(Frame::Error { message }).len() as int,
        ),
{
    let s = frame_bytes(Frame::Error { message });
    assert(s =~= seq![0x10u8] + pstr_bytes(message) + Seq::<u8>::empty());
    lemma_rd_str_at(seq![0x10u8], message, Seq::<u8>::empty());
    assert(s[0] == 0x10u8);
}

/// Round-trip case: a plate frame.
proof fn lemma_rt_plate(plate: Seq<u8>, timestamp: u32)
    requires
        plate.len() <= 255,
    ensures
        spec_decode(frame_bytes(Frame::Plate { plate, timestamp })) == SpecDecision::Complete(
            Frame::Plate { plate, timestamp },
            frame_bytes(Frame::Plate { plate, timestamp }).len() as int,
        ),
{
    let s = frame_bytes(Frame::Plate { plate, timestamp });
    assert(s =~= seq![0x20u8] + pstr_bytes(plate) + bytes_of_u32(timestamp));
    lemma_rd_str_at(seq![0x20u8], plate, bytes_of_u32(timestamp));
    let p1 = seq![0x20u8] + pstr_bytes(plate);
    assert(s =~= p1 + bytes_of_u32(timestamp) + Seq::<u8>::empty());
    lemma_rd_u32_at(p1, timestamp, Seq::<u8>::empty());
    assert(s[0] == 0x20u8);
}

/// Round-trip case: a ticket frame.
#[verifier::spinoff_prover]
#[verifier::rlimit(80)]
proof fn lemma_rt_ticket(
    plate: Seq<u8>,
    road: u16,
    mile1: u16,
    timestamp1: u32,
    mile2: u16,
    timestamp2: u32,
    speed: u16,
)
    requires
        plate.len() <= 255,
    ensures
        spec_decode(
            frame_bytes(
                Frame::Ticket { plate, road, mile1, timestamp1, mile2, timestamp2, speed },
            ),
        ) == SpecDecision::Complete(
            Frame::Ticket { plate, road, mile1, timestamp1, mile2, timestamp2, speed },
            frame_bytes(
                Frame::Ticket { plate, road, mile1, timestamp1, mile2, timestamp2, speed },
            ).len() as int,
        ),
{
    let f = Frame::Ticket { plate, road, mile1, timestamp1, mile2, timestamp2, speed };
    let s = frame_bytes(f);
    let l = plate.len() as int;
    let r1 = bytes_of_u16(road) + bytes_of_u16(mile1) + bytes_of_u32(timestamp1) + bytes_of_u16(
        mile2,
    ) + bytes_of_u32(timestamp2) + bytes_of_u16(speed);
    assert(s =~= seq![0x21u8] + pstr_bytes(plate) + r1);
    lemma_rd_str_at(seq![0x21u8], plate, r1);
    let p1 = seq![0x21u8] + pstr_bytes(plate);
    assert(p1.len() == 2 + l);
    let r2 = bytes_of_u16(mile1) + bytes_of_u32(timestamp1) + bytes_of_u16(mile2) + bytes_of_u32(
        timestamp2,
    ) + bytes_of_u16(speed);
    assert(s =~= p1 + bytes_of_u16(road) + r2);
    lemma_rd_u16_at(p1, road, r2);
    let p2 = p1 + bytes_of_u16(road);
    let r3 = bytes_of_u32(timestamp1) + bytes_of_u16(mile2) + bytes_of_u32(timestamp2)
        + bytes_of_u16(speed);
    assert(s =~= p2 + bytes_of_u16(mile1) + r3);
    lemma_rd_u16_at(p2, mile1, r3);
    let p3 = p2 + bytes_of_u16(mile1);
    let r4 = bytes_of_u16(mile2) + bytes_of_u32(timestamp2) + bytes_of_u16(speed);
    assert(s =~= p3 + bytes_of_u32(timestamp1) + r4);
    lemma_rd_u32_at(p3, timestamp1, r4);
    let p4 = p3 + bytes_of_u32(timestamp1);
    let r5 = bytes_of_u32(timestamp2) + bytes_of_u16(speed);
    assert(s =~= p4 + bytes_of_u16(mile2) + r5);
    lemma_rd_u16_at(p4, mile2, r5);
    let p5 = p4 + bytes_of_u16(mile2);
    let r6 = bytes_of_u16(speed);
    assert(s =~= p5 + bytes_of_u32(timestamp2) + r6);
    lemma_rd_u32_at(p5, timestamp2, r6);
    let p6 = p5 + bytes_of_u32(timestamp2);
    assert(s =~= p6 + bytes_of_u16(speed) + Seq::<u8>::empty());
    lemma_rd_u16_at(p6, speed, Seq::<u8>::empty());
    assert(s[0] == 0x21u8);
    assert(s.len() == p6.len() + 2);
}

/// Round-trip case: a camera frame.
proof fn lemma_rt_camera(road: u16, mile: u16, limit: u16)
    ensures
        spec_decode(frame_bytes(Frame::IAmCamera { road, mile, limit }))
            == SpecDecision::Complete(
            Frame::IAmCamera { road, mile, limit },
            frame_bytes(Frame::IAmCamera { road, mile, limit }).len() as int,
        ),
{
    let s = frame_bytes(Frame::IAmCamera { road, mile, limit });
    assert(s =~= seq![0x80u8] + bytes_of_u16(road) + (bytes_of_u16(mile) + bytes_of_u16(limit)));
    lemma_rd_u16_at(seq![0x80u8], road, bytes_of_u16(mile) + bytes_of_u16(limit));
    let p1 = seq![0x80u8] + bytes_of_u16(road);
    assert(s =~= p1 + bytes_of_u16(mile) + bytes_of_u16(limit));
    lemma_rd_u16_at(p1, mile, bytes_of_u16(limit));
    let p2 = p1 + bytes_of_u16(mile);
    assert(s =~= p2 + bytes_of_u16(limit) + Seq::<u8>::empty());
    lemma_rd_u16_at(p2, limit, Seq::<u8>::empty());
    assert(s[0] == 0x80u8);
}

/// Round-trip case: a dispatcher frame.
proof fn lemma_rt_dispatcher(num_roads: u8, roads: Seq<u16>)
    requires
        roads.len() == num_roads as int,
    ensures
        spec_decode(frame_bytes(Frame::IAmDispatcher { num_roads, roads }))
            == SpecDecision::Complete(
            Frame::IAmDispatcher { num_roads, roads },
            frame_bytes(Frame::IAmDispatcher { num_roads, roads }).len() as int,
        ),
{
    let s = frame_bytes(Frame::IAmDispatcher { num_roads, roads });
    assert(s == seq![0x81u8, num_roads] + roads_bytes(roads));
    assert(s[0] == 0x81u8);
    assert(s[1] == num_roads);
    assert(s =~= seq![0x81u8, num_roads] + roads_bytes(roads) + Seq::<u8>::empty());
    lemma_rd_roads_at(seq![0x81u8, num_roads], roads, Seq::<u8>::empty());
    lemma_roads_bytes_len(roads);
}

/// Round trip: decoding the encoding of any well-formed frame yields that
/// frame again and consumes exactly its length.
pub proof fn lemma_frame_round_trip(f: Frame)
    requires
        wf_frame(f),
    ensures
        spec_decode(frame_bytes(f)) == SpecDecision::Complete(f, frame_bytes(f).len() as int),
{
    match f {
        Frame::Error { message } => lemma_rt_error(message),
        Frame::Plate { plate, timestamp } => lemma_rt_plate(plate, timestamp),
        Frame::Ticket { plate, road, mile1, timestamp1, mile2, timestamp2, speed } => {
            lemma_rt_ticket(plate, road, mile1, timestamp1, mile2, timestamp2, speed);
        },
        Frame::WantHeartbeat { interval } => {
            let s = frame_bytes(f);
            assert(s =~= seq![0x40u8] + bytes_of_u32(interval) + Seq::<u8>::empty());
            lemma_rd_u32_at(seq![0x40u8], interval, Seq::<u8>::empty());
            assert(s[0] == 0x40u8);
        },
        Frame::Heartbeat => {
            assert(frame_bytes(f)[0] == 0x41u8);
        },
        Frame::IAmCamera { road, mile, limit } => lemma_rt_camera(road, mile, limit),
        Frame::IAmDispatcher { num_roads, roads } => lemma_rt_dispatcher(num_roads, roads),
    }
}

/// A road list cannot be read out of a buffer too short to hold it.
proof fn lemma_rd_roads_short(s: Seq<u8>, i: int, n: int)
    requires
        0 <= i,
        n >= 1,
        i + 2 * n > s.len(),
    ensures
        rd_roads(s, i, n) is None,
    decreases n,
{
    if i + 2 <= s.len() {
        if n >= 2 {
            lemma_rd_roads_short(s, i + 2, n - 1);
        }
    }
}

/// Partial-read idempotence: every strict prefix of a well-formed frame's
/// encoding is reported incomplete, never mistaken for a frame or an error.
pub proof fn lemma_partial_frame_needs_more(f: Frame, i: int)
    requires
        wf_frame(f),
        0 <= i < frame_bytes(f).len(),
    ensures
        spec_decode(frame_bytes(f).take(i)) is NeedMore,
{
    let s = frame_bytes(f);
    let t = s.take(i);
    if i == 0 {
    } else {
    assert(t[0] == s[0]);
    match f {
        Frame::Error { message } => {
            let l = message.len() as int;
            assert(s[0] == 0x10u8);
            if i >= 2 {
                assert(t[1] == s[1]);
                assert(s[1] == pstr_bytes(message)[0]);
                assert(rd_str(t, 1) is None);
            }
        },
        Frame::Plate { plate, timestamp } => {
            let l = plate.len() as int;
            assert(s[0] == 0x20u8);
            assert(s.len() == 2 + l + 4);
            if i >= 2 {
                assert(t[1] == s[1]);
                assert(s[1] == pstr_bytes(plate)[0]);
                assert(s[1] as int == l);
                if 2 + l <= i {
                    assert(rd_str(t, 1) == Some((t.subrange(2, 2 + l), 2 + l)));
                    assert(rd_u32(t, 2 + l) is None);
                } else {
                    assert(rd_str(t, 1) is None);
                }
            }
        },
        Frame::Ticket { plate, road, mile1, timestamp1, mile2, timestamp2, speed } => {
            let l = plate.len() as int;
            assert(s[0] == 0x21u8);
            assert(s.len() == 2 + l + 16) by {
                let r1 = bytes_of_u16(road) + bytes_of_u16(mile1) + bytes_of_u32(timestamp1)
                    + bytes_of_u16(mile2) + bytes_of_u32(timestamp2) + bytes_of_u16(speed);
                assert(s == seq![0x21u8] + pstr_bytes(plate) + r1);
            }
            if i >= 2 {
                assert(t[1] == s[1]);
                assert(s[1] == pstr_bytes(plate)[0]);
                assert(s[1] as int == l);
                if 2 + l <= i {
                    assert(rd_str(t, 1) == Some((t.subrange(2, 2 + l), 2 + l)));
                    let b = 2 + l;
                    if b + 2 <= i {
                        if b + 4 <= i {
                            if b + 8 <= i {
                                if b + 10 <= i {
                                    if b + 14 <= i {
                                        assert(rd_u16(t, b + 14) is None);
                                    } else {
                                        assert(rd_u32(t, b + 10) is None);
                                    }
                                } else {
                                    assert(rd_u16(t, b + 8) is None);
                                }
                            } else {
                                assert(rd_u32(t, b + 4) is None);
                            }
                        } else {
                            assert(rd_u16(t, b + 2) is None);
                        }
                    } else {
                        assert(rd_u16(t, b) is None);
                    }
                } else {
                    assert(rd_str(t, 1) is None);
                }
            }
        },
        Frame::WantHeartbeat { interval } => {
            assert(s[0] == 0x40u8);
            assert(rd_u32(t, 1) is None);
        },
        Frame::Heartbeat => {
            assert(s.len() == 1);
        },
        Frame::IAmCamera { road, mile, limit } => {
            assert(s[0] == 0x80u8);
            assert(s.len() == 7);
            if i >= 3 {
                if i >= 5 {
                    assert(rd_u16(t, 5) is None);
                } else {
                    assert(rd_u16(t, 3) is None);
                }
            } else {
                assert(rd_u16(t, 1) is None);
            }
        },
        Frame::IAmDispatcher { num_roads, roads } => {
            let n = num_roads as int;
            assert(s[0] == 0x81u8);
            lemma_roads_bytes_len(roads);
            assert(s.len() == 2 + 2 * n);
            if i >= 2 {
                assert(t[1] == s[1]);
                assert(s[1] == num_roads);
                assert(rd_u8(t, 1) == Some((num_roads, 2int)));
                assert(n >= 1);
                lemma_rd_roads_short(t, 2, n);
            } else {
                assert(rd_u8(t, 1) is None);
            }
        },
    }
    }
}

} // verus!

verus! {

/// The bytes of the value two bytes denote are those bytes again.
proof fn lemma_be16_bytes(a: u8, b: u8)
    ensures
        bytes_of_u16(be16(a, b)) == seq![a, b],
{
    let v = be16(a, b);
    vstd::arithmetic::div_mod::lemma_fundamental_div_mod_converse(
        v as int,
        256,
        a as int,
        b as int,
    );
    assert(bytes_of_u16(v) =~= seq![a, b]);
}

/// The bytes of the value four bytes denote are those bytes again.
proof fn lemma_be32_bytes(b0: u8, b1: u8, b2: u8, b3: u8)
    ensures
        bytes_of_u32(be32(b0, b1, b2, b3)) == seq![b0, b1, b2, b3],
{
    let v = be32(b0, b1, b2, b3);
    let hi = be16(b0, b1);
    let lo = be16(b2, b3);
    vstd::arithmetic::div_mod::lemma_fundamental_div_mod_converse(
        v as int,
        65536,
        hi as int,
        lo as int,
    );
    lemma_be16_bytes(b0, b1);
    lemma_be16_bytes(b2, b3);
    assert(bytes_of_u32(v) =~= seq![b0, b1, b2, b3]);
}

/// What a successful `rd_roads` read says about its result: `n` roads,
/// two bytes each, spelled by exactly the bytes it covered.
proof fn lemma_rd_roads_inv(s: Seq<u8>, i: int, n: int)
    requires
        rd_roads(s, i, n) is Some,
    ensures
        ({
            let (r, e) = rd_roads(s, i, n)->Some_0;
            &&& r.len() == if n >= 0 { n } else { 0 }
            &&& e == i + 2 * r.len()
            &&& i >= 0 || n <= 0
            &&& e <= s.len() || n <= 0
            &&& roads_bytes(r) == s.subrange(i, e) || n <= 0
        }),
    decreases n,
{
    if n <= 0 {
    } else {
        let (v, j) = rd_u16(s, i)->Some_0;
        lemma_rd_roads_inv(s, j, n - 1);
        let (rest, e) = rd_roads(s, j, n - 1)->Some_0;
        let (r, _e) = rd_roads(s, i, n)->Some_0;
        assert(r == seq![v] + rest);
        assert(r.skip(1) =~= rest);
        lemma_be16_bytes(s[i], s[i + 1]);
        if n - 1 <= 0 {
            assert(rest =~= Seq::<u16>::empty());
            assert(r[0] == v);
            assert(r.skip(1) =~= Seq::<u16>::empty());
            assert(roads_bytes(r) == bytes_of_u16(v) + roads_bytes(r.skip(1)));
            assert(roads_bytes(r) =~= s.subrange(i, e));
        } else {
            assert(roads_bytes(r) == bytes_of_u16(v) + roads_bytes(rest));
            assert(roads_bytes(r) =~= s.subrange(i, e));
        }
    }
}

/// A decoded frame is well formed, and the bytes it was read from are
/// exactly its own encoding: decoding inverts encoding byte for byte.
#[verifier::spinoff_prover]
#[verifier::rlimit(100)]
pub proof fn lemma_decode_bytes(s: Seq<u8>)
    requires
        spec_decode(s) is Complete,
    ensures
        ({
            let (f, n) = match spec_decode(s) {
                SpecDecision::Complete(f, n) => (f, n),
                _ => arbitrary(),
            };
            &&& wf_frame(f)
            &&& 1 <= n <= s.len()
            &&& frame_bytes(f) == s.subrange(0, n)
        }),
{
    let (f, n) = match spec_decode(s) {
        SpecDecision::Complete(f, n) => (f, n),
        _ => arbitrary(),
    };
    if s[0] == 0x10 {
        let (m, j) = rd_str(s, 1)->Some_0;
        assert(frame_bytes(f) =~= s.subrange(0, n));
    } else if s[0] == 0x20 {
        let (p, j) = rd_str(s, 1)->Some_0;
        let (ts, k) = rd_u32(s, j)->Some_0;
        lemma_be32_bytes(s[j], s[j + 1], s[j + 2], s[j + 3]);
        assert(frame_bytes(f) =~= s.subrange(0, n));
    } else if s[0] == 0x21 {
        let (p, p1) = rd_str(s, 1)->Some_0;
        let (road, p2) = rd_u16(s, p1)->Some_0;
        let (mile1, p3) = rd_u16(s, p2)->Some_0;
        let (ts1, p4) = rd_u32(s, p3)->Some_0;
        let (mile2, p5) = rd_u16(s, p4)->Some_0;
        let (ts2, p6) = rd_u32(s, p5)->Some_0;
        let (speed, p7) = rd_u16(s, p6)->Some_0;
        lemma_be16_bytes(s[p1], s[p1 + 1]);
        lemma_be16_bytes(s[p2], s[p2 + 1]);
        lemma_be32_bytes(s[p3], s[p3 + 1], s[p3 + 2], s[p3 + 3]);
        lemma_be16_bytes(s[p4], s[p4 + 1]);
        lemma_be32_bytes(s[p5], s[p5 + 1], s[p5 + 2], s[p5 + 3]);
        lemma_be16_bytes(s[p6], s[p6 + 1]);
        assert(frame_bytes(f) =~= s.subrange(0, n));
    } else if s[0] == 0x40 {
        lemma_be32_bytes(s[1], s[2], s[3], s[4]);
        assert(frame_bytes(f) =~= s.subrange(0, n));
    } else if s[0] == 0x41 {
        assert(frame_bytes(f) =~= s.subrange(0, n));
    } else if s[0] == 0x80 {
        lemma_be16_bytes(s[1], s[2]);
        lemma_be16_bytes(s[3], s[4]);
        lemma_be16_bytes(s[5], s[6]);
        assert(frame_bytes(f) =~= s.subrange(0, n));
    } else {
        let (num_roads, j) = rd_u8(s, 1)->Some_0;
        lemma_rd_roads_inv(s, j, num_roads as int);
        let (roads, e) = rd_roads(s, j, num_roads as int)->Some_0;
        assert(roads_bytes(roads) == s.subrange(2, e));
        assert(frame_bytes(f) =~= s.subrange(0, n));
    }
}

} // verus!
