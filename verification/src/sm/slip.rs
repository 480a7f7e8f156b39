//! SLIP deframer: cuts a byte stream into packets at the end marker and
//! undoes the escaping of marker bytes inside a packet.

use vstd::prelude::*;
use crate::bus::Bus;
use crate::sm::{lemma_run_concat, lemma_run_push, run_out, run_state, Push};

verus! {

/// The four special byte values of the framing.
#[derive(Copy, Clone)]
pub struct Config {
    /// Ends a packet.
    pub end: u8,
    /// Announces an escaped byte.
    pub esc: u8,
    /// After `esc`: stands for `end`.
    pub esc_end: u8,
    /// After `esc`: stands for `esc`.
    pub esc_esc: u8,
}

/// The memory of the deframer.
pub struct State {
    buf: Vec<u8>,
    esc: bool,
}

/// A deframer.
pub struct Slip {
    config: Config,
    state: State,
}

/// Configuration and memory of a deframer, as contracts see them.
pub struct Model {
    pub config: Config,
    /// The bytes of the packet under way.
    pub buf: Seq<u8>,
    /// Whether the previous byte was an unescaped `esc`.
    pub esc: bool,
}

impl View for Slip {
    type V = Model;

    closed spec fn view(&self) -> Model {
        Model { config: self.config, buf: self.state.buf@, esc: self.state.esc }
    }
}

/// The deframer after it has consumed `byte`.
pub open spec fn next_state(m: Model, byte: u8) -> Model {
    let c = m.config;
    if m.esc {
        Model {
            config: c,
            buf: if c.esc_end == byte {
                m.buf.push(c.end)
            } else if c.esc_esc == byte {
                m.buf.push(c.esc)
            } else {
                m.buf
            },
            esc: false,
        }
    } else if c.esc == byte {
        Model { esc: true, ..m }
    } else if c.end == byte {
        Model { buf: Seq::empty(), ..m }
    } else {
        Model { buf: m.buf.push(byte), ..m }
    }
}

/// The packet, if any, that `byte` completes: the bytes gathered so far,
/// when `byte` is an unescaped end marker.
pub open spec fn completed(m: Model, byte: u8) -> Option<Seq<u8>> {
    if !m.esc && m.config.esc != byte && m.config.end == byte {
        Some(m.buf)
    } else {
        None
    }
}

/// The byte that a bus sample carries: the low eight bits of its word.
pub open spec fn byte_of<B: Bus>(input: B) -> u8 {
    input.word() as u8
}

/// Creates a deframer with no packet under way.
pub fn init(c: Config) -> (slip: Slip)
    ensures
        slip@ == fresh(c),
{
    Slip { config: c, state: State { buf: Vec::new(), esc: false } }
}

impl<B: Bus> Push<B, Vec<u8>> for Slip {
    open spec fn inv(m: Model) -> bool {
        true
    }

    open spec fn step(m: Model, input: B) -> Model {
        next_state(m, byte_of(input))
    }

    open spec fn emit(m: Model, input: B) -> Option<Seq<u8>> {
        completed(m, byte_of(input))
    }

    proof fn lemma_step_keeps_inv(m: Model, input: B) {
    }

    fn push(&mut self, input_bus: B) -> (out: Option<Vec<u8>>) {
        let i: u8 = #[verifier::truncate]
        (input_bus.as_usize() as u8);
        if self.state.esc {
            self.state.esc = false;
            if self.config.esc_end == i {
                self.state.buf.push(self.config.end);
            } else if self.config.esc_esc == i {
                self.state.buf.push(self.config.esc);
            }
            return None;
        }
        if self.config.esc == i {
            self.state.esc = true;
            return None;
        }
        if self.config.end == i {
            let mut packet: Vec<u8> = Vec::new();
            core::mem::swap(&mut self.state.buf, &mut packet);
            return Some(packet);
        }
        self.state.buf.push(i);
        None
    }
}

/// Decoding never changes the configuration.
pub proof fn lemma_run_keeps_config<B: Bus>(m: Model, ins: Seq<B>)
    ensures
        run_state::<B, Vec<u8>, Slip>(m, ins).config == m.config,
    decreases ins.len(),
{
    if ins.len() > 0 {
        lemma_run_keeps_config::<B>(m, ins.drop_last());
    }
}

/// A deframer with no packet under way.
pub open spec fn fresh(c: Config) -> Model {
    Model { config: c, buf: Seq::empty(), esc: false }
}

/// A byte-sized sample carries itself.
pub proof fn lemma_byte_of_byte(byte: u8)
    ensures
        byte_of(byte) == byte,
{
    assert((byte as usize) as u8 == byte) by (bit_vector);
}

/// What a fresh deframer produces from three bytes, spelled out tick by
/// tick.
proof fn lemma_three_bytes(c: Config, a: u8, b: u8, d: u8)
    ensures
        run_out::<u8, Vec<u8>, Slip>(fresh(c), seq![a, b, d]) == ({
            let m0 = fresh(c);
            let m1 = next_state(m0, a);
            let m2 = next_state(m1, b);
            let out0 = Seq::<Seq<u8>>::empty();
            let out1 = match completed(m0, a) {
                Some(packet) => out0.push(packet),
                None => out0,
            };
            let out2 = match completed(m1, b) {
                Some(packet) => out1.push(packet),
                None => out1,
            };
            match completed(m2, d) {
                Some(packet) => out2.push(packet),
                None => out2,
            }
        }),
{
    lemma_byte_of_byte(a);
    lemma_byte_of_byte(b);
    lemma_byte_of_byte(d);
    let none = Seq::<u8>::empty();
    lemma_run_push::<u8, Vec<u8>, Slip>(fresh(c), none, a);
    lemma_run_push::<u8, Vec<u8>, Slip>(fresh(c), none.push(a), b);
    lemma_run_push::<u8, Vec<u8>, Slip>(fresh(c), none.push(a).push(b), d);
    assert(none.push(a).push(b).push(d) == seq![a, b, d]);
}

/// With distinct `esc` and `end`, the bytes `esc, esc_end, end` decode to
/// the single packet that holds the one byte `end`.
pub proof fn lemma_escaped_end(c: Config)
    requires
        c.esc != c.end,
    ensures
        run_out::<u8, Vec<u8>, Slip>(fresh(c), seq![c.esc, c.esc_end, c.end]) == seq![
            seq![c.end],
        ],
{
    lemma_three_bytes(c, c.esc, c.esc_end, c.end);
    assert(Seq::<u8>::empty().push(c.end) == seq![c.end]);
    assert(Seq::<Seq<u8>>::empty().push(seq![c.end]) == seq![seq![c.end]]);
}

/// With distinct `esc` and `end` and distinct `esc_end` and `esc_esc`, the
/// bytes `esc, esc_esc, end` decode to the single packet that holds the
/// one byte `esc`.
pub proof fn lemma_escaped_esc(c: Config)
    requires
        c.esc != c.end,
        c.esc_end != c.esc_esc,
    ensures
        run_out::<u8, Vec<u8>, Slip>(fresh(c), seq![c.esc, c.esc_esc, c.end]) == seq![
            seq![c.esc],
        ],
{
    lemma_three_bytes(c, c.esc, c.esc_esc, c.end);
    assert(Seq::<u8>::empty().push(c.esc) == seq![c.esc]);
    assert(Seq::<Seq<u8>>::empty().push(seq![c.esc]) == seq![seq![c.esc]]);
}

/// The bytes that carry one byte of a packet: the two markers are sent
/// escaped, every other byte as it is.
pub open spec fn escaped_byte(c: Config, byte: u8) -> Seq<u8> {
    if byte == c.end {
        seq![c.esc, c.esc_end]
    } else if byte == c.esc {
        seq![c.esc, c.esc_esc]
    } else {
        seq![byte]
    }
}

/// The bytes that carry the bytes of a packet.
pub open spec fn escaped(c: Config, packet: Seq<u8>) -> Seq<u8>
    decreases packet.len(),
{
    if packet.len() == 0 {
        Seq::empty()
    } else {
        escaped(c, packet.drop_last()) + escaped_byte(c, packet.last())
    }
}

/// The bytes that carry a packet: its bytes, escaped, and the end marker.
pub open spec fn framed(c: Config, packet: Seq<u8>) -> Seq<u8> {
    escaped(c, packet).push(c.end)
}

/// The bytes that carry a sequence of packets.
pub open spec fn stream_of(c: Config, packets: Seq<Seq<u8>>) -> Seq<u8>
    decreases packets.len(),
{
    if packets.len() == 0 {
        Seq::empty()
    } else {
        stream_of(c, packets.drop_last()) + framed(c, packets.last())
    }
}

/// The markers can be told apart: `esc` from `end`, and `esc_end` from
/// `esc_esc`.
pub open spec fn distinct(c: Config) -> bool {
    c.esc != c.end && c.esc_end != c.esc_esc
}

/// The escaped form of a byte adds that byte to the packet under way and
/// completes nothing.
proof fn lemma_escaped_byte_decodes(m: Model, byte: u8)
    requires
        distinct(m.config),
        !m.esc,
    ensures
        run_state::<u8, Vec<u8>, Slip>(m, escaped_byte(m.config, byte)) == (Model {
            buf: m.buf.push(byte),
            ..m
        }),
        run_out::<u8, Vec<u8>, Slip>(m, escaped_byte(m.config, byte)) == Seq::<Seq<u8>>::empty(),
{
    let c = m.config;
    let none = Seq::<u8>::empty();
    if byte == c.end || byte == c.esc {
        let second = if byte == c.end {
            c.esc_end
        } else {
            c.esc_esc
        };
        lemma_byte_of_byte(c.esc);
        lemma_byte_of_byte(second);
        lemma_run_push::<u8, Vec<u8>, Slip>(m, none, c.esc);
        lemma_run_push::<u8, Vec<u8>, Slip>(m, none.push(c.esc), second);
        assert(none.push(c.esc).push(second) == escaped_byte(c, byte));
    } else {
        lemma_byte_of_byte(byte);
        lemma_run_push::<u8, Vec<u8>, Slip>(m, none, byte);
        assert(none.push(byte) == escaped_byte(c, byte));
    }
}

/// The escaped form of some bytes adds those bytes to the packet under way
/// and completes nothing.
proof fn lemma_escaped_decodes(m: Model, bytes: Seq<u8>)
    requires
        distinct(m.config),
        !m.esc,
    ensures
        run_state::<u8, Vec<u8>, Slip>(m, escaped(m.config, bytes)) == (Model {
            buf: m.buf + bytes,
            ..m
        }),
        run_out::<u8, Vec<u8>, Slip>(m, escaped(m.config, bytes)) == Seq::<Seq<u8>>::empty(),
    decreases bytes.len(),
{
    let c = m.config;
    if bytes.len() == 0 {
        assert(m.buf + bytes == m.buf);
    } else {
        let front = bytes.drop_last();
        lemma_escaped_decodes(m, front);
        let mid = run_state::<u8, Vec<u8>, Slip>(m, escaped(c, front));
        lemma_escaped_byte_decodes(mid, bytes.last());
        lemma_run_concat::<u8, Vec<u8>, Slip>(m, escaped(c, front), escaped_byte(c, bytes.last()));
        assert((m.buf + front).push(bytes.last()) == m.buf + bytes);
    }
}

/// A deframer with no packet under way, fed the bytes that carry a
/// packet, produces that packet and nothing else, and has no packet under
/// way afterwards.
pub proof fn lemma_packet_round_trip(c: Config, packet: Seq<u8>)
    requires
        distinct(c),
    ensures
        run_out::<u8, Vec<u8>, Slip>(fresh(c), framed(c, packet)) == seq![packet],
        run_state::<u8, Vec<u8>, Slip>(fresh(c), framed(c, packet)) == fresh(c),
{
    lemma_escaped_decodes(fresh(c), packet);
    lemma_run_push::<u8, Vec<u8>, Slip>(fresh(c), escaped(c, packet), c.end);
    lemma_byte_of_byte(c.end);
    assert(Seq::<u8>::empty() + packet == packet);
    assert(Seq::<Seq<u8>>::empty().push(packet) == seq![packet]);
}

/// Round trip: a new deframer, fed the bytes that carry a sequence of
/// packets, produces exactly those packets, in order. Empty packets are
/// packets like any other.
pub proof fn lemma_round_trip(c: Config, packets: Seq<Seq<u8>>)
    requires
        distinct(c),
    ensures
        run_out::<u8, Vec<u8>, Slip>(fresh(c), stream_of(c, packets)) == packets,
        run_state::<u8, Vec<u8>, Slip>(fresh(c), stream_of(c, packets)) == fresh(c),
    decreases packets.len(),
{
    if packets.len() > 0 {
        let front = packets.drop_last();
        lemma_round_trip(c, front);
        lemma_packet_round_trip(c, packets.last());
        lemma_run_concat::<u8, Vec<u8>, Slip>(
            fresh(c),
            stream_of(c, front),
            framed(c, packets.last()),
        );
        assert(front + seq![packets.last()] == packets);
    }
}

} // verus!
