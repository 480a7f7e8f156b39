//! Clocked synchronous-serial framer: a shift register driven by clock
//! edges, with optional chip-select framing and frame timeout.
//!
//! The clock is described by two parameters. `clock_edge` is the level the
//! clock has right after the edge on which data is sampled: 0 samples on
//! the 1->0 transition, 1 on the 0->1 transition. `clock_polarity` is the
//! level of the idle clock. Data is sampled on the first edge of a cycle
//! when the two differ and on the second when they are equal.

use vstd::prelude::*;
use crate::bus::Bus;
use crate::sm::{lemma_run_concat, lemma_run_push, run_out, run_state, Push};
use vstd::arithmetic::power2::pow2;

verus! {

/// Line parameters, fixed for a decoding run.
#[derive(Copy, Clone)]
pub struct Config {
    pub clock_channel: usize,
    pub data_channel: usize,
    /// Chip select.
    pub frame_channel: usize,
    /// Level of the clock after the sampling edge.
    pub clock_edge: usize,
    /// Level of the idle clock.
    pub clock_polarity: usize,
    /// Level of the frame channel while a frame is open.
    pub frame_active: usize,
    /// Ticks between two forced resets; 0 disables them.
    pub frame_timeout: usize,
    /// Bits per word.
    pub nb_bits: usize,
    /// Whether the frame channel gates the clock.
    pub frame_enable: bool,
    /// Whether `frame_timeout` applies.
    pub timeout_enable: bool,
}

/// The registers of the framer.
#[derive(Copy, Clone)]
pub struct State {
    /// Clock level at the previous tick.
    pub clock_state: usize,
    /// Frame level at the previous tick.
    pub frame_state: usize,
    /// Bits collected of the current word.
    pub shift_count: usize,
    /// The bits collected, first bit highest.
    pub shift_reg: usize,
    /// Ticks left until the next forced reset.
    pub frame_timeout_state: usize,
}

/// Configuration and registers of a framer, as contracts see them.
pub struct Model {
    pub config: Config,
    pub state: State,
}

/// A framer for one clocked line. The registers are public so that
/// contracts and callers can inspect them; only `push` is meant to change
/// them.
pub struct SyncSer {
    pub config: Config,
    pub state: State,
}

impl View for SyncSer {
    type V = Model;

    open spec fn view(&self) -> Model {
        Model { config: self.config, state: self.state }
    }
}

/// The levels of the three lines at one tick.
pub struct Lines {
    pub clock: usize,
    pub frame: usize,
    pub data: usize,
}

/// The default configuration: clock on channel 0, data on channel 1,
/// sampling on the rising edge of a clock that idles low, words of 8 bits,
/// no framing and no timeout.
pub open spec fn default_config() -> Config {
    Config {
        clock_channel: 0,
        data_channel: 1,
        frame_channel: 0,
        clock_edge: 1,
        clock_polarity: 0,
        frame_active: 0,
        frame_timeout: 0,
        nb_bits: 8,
        frame_enable: false,
        timeout_enable: false,
    }
}

/// The registers of a framer that has seen nothing yet: the clock idle,
/// the frame line at the bitwise complement of its active level, which
/// no sample has when the active level is 0 or 1.
pub open spec fn initial_state(c: Config) -> State {
    State {
        clock_state: c.clock_polarity,
        frame_state: !c.frame_active,
        shift_count: 0,
        shift_reg: 0,
        frame_timeout_state: 0,
    }
}

/// A configuration with at least one bit per word, and registers that
/// hold less than a word.
pub open spec fn consistent(m: Model) -> bool {
    &&& m.config.nb_bits >= 1
    &&& m.state.shift_count < m.config.nb_bits
}

/// Framing is on and the frame line has just become active.
pub open spec fn frame_opens(m: Model, l: Lines) -> bool {
    m.config.frame_enable && l.frame != m.state.frame_state && l.frame == m.config.frame_active
}

/// The timeout is on.
pub open spec fn timeout_runs(c: Config) -> bool {
    c.timeout_enable && c.frame_timeout > 0
}

/// The timeout is on and its countdown has run out.
pub open spec fn timeout_fires(m: Model) -> bool {
    timeout_runs(m.config) && m.state.frame_timeout_state == 0
}

/// The tick carries a sampling edge: the clock has just moved to the
/// sampling level, inside a frame where framing is on.
pub open spec fn samples(m: Model, l: Lines) -> bool {
    &&& !m.config.frame_enable || l.frame == m.config.frame_active
    &&& l.clock != m.state.clock_state
    &&& l.clock == m.config.clock_edge
}

/// The shift register as the tick leaves it before any word is taken out:
/// cleared by a new frame or a timeout, then shifted left by one with the
/// data bit entering at the bottom if the tick samples.
pub open spec fn shifted(m: Model, l: Lines) -> usize {
    let kept = if frame_opens(m, l) || timeout_fires(m) {
        0
    } else {
        m.state.shift_reg
    };
    if samples(m, l) {
        (kept << 1usize) | l.data
    } else {
        kept
    }
}

/// The number of bits in the shift register at that point.
pub open spec fn counted(m: Model, l: Lines) -> int {
    let kept = if frame_opens(m, l) || timeout_fires(m) {
        0
    } else {
        m.state.shift_count
    };
    if samples(m, l) {
        kept + 1
    } else {
        kept as int
    }
}

/// The tick completes a word.
pub open spec fn word_ready(m: Model, l: Lines) -> bool {
    samples(m, l) && counted(m, l) == m.config.nb_bits
}

/// The word, if any, that the tick completes.
pub open spec fn completed(m: Model, l: Lines) -> Option<usize> {
    if word_ready(m, l) {
        Some(shifted(m, l))
    } else {
        None
    }
}

/// The registers after the tick.
pub open spec fn next_state(m: Model, l: Lines) -> State {
    State {
        clock_state: l.clock,
        frame_state: l.frame,
        shift_count: if word_ready(m, l) {
            0
        } else {
            counted(m, l) as usize
        },
        shift_reg: if word_ready(m, l) {
            0
        } else {
            shifted(m, l)
        },
        frame_timeout_state: if word_ready(m, l) || timeout_fires(m) {
            m.config.frame_timeout
        } else if timeout_runs(m.config) {
            (m.state.frame_timeout_state - 1) as usize
        } else {
            m.state.frame_timeout_state
        },
    }
}

/// The levels that a bus sample puts on the lines of configuration `c`.
pub open spec fn lines_of<B: Bus>(c: Config, input: B) -> Lines {
    Lines {
        clock: input.level(c.clock_channel),
        frame: input.level(c.frame_channel),
        data: input.level(c.data_channel),
    }
}

/// Returns the default configuration.
pub fn config() -> (c: Config)
    ensures
        c == default_config(),
{
    Config {
        clock_channel: 0,
        data_channel: 1,
        frame_channel: 0,
        frame_enable: false,
        clock_edge: 1,
        clock_polarity: 0,
        frame_active: 0,
        frame_timeout: 0,
        timeout_enable: false,
        nb_bits: 8,
    }
}

/// Creates a framer that has seen nothing yet.
pub fn init(c: Config) -> (syncser: SyncSer)
    ensures
        syncser@ == (Model { config: c, state: initial_state(c) }),
{
    SyncSer {
        config: c,
        state: State {
            clock_state: c.clock_polarity,
            frame_state: !c.frame_active,
            frame_timeout_state: 0,
            shift_count: 0,
            shift_reg: 0,
        },
    }
}

impl<B: Bus> Push<B, usize> for SyncSer {
    open spec fn inv(m: Model) -> bool {
        &&& consistent(m)
        &&& m.config.clock_channel < B::width()
        &&& m.config.frame_channel < B::width()
        &&& m.config.data_channel < B::width()
    }

    open spec fn step(m: Model, input: B) -> Model {
        Model { config: m.config, state: next_state(m, lines_of(m.config, input)) }
    }

    open spec fn emit(m: Model, input: B) -> Option<usize> {
        completed(m, lines_of(m.config, input))
    }

    proof fn lemma_step_keeps_inv(m: Model, input: B) {
    }

    fn push(&mut self, input: B) -> (out: Option<usize>) {
        let clock_bit: usize = input.channel(self.config.clock_channel);
        let frame_bit: usize = input.channel(self.config.frame_channel);
        let data_bit: usize = input.channel(self.config.data_channel);

        let mut rv: Option<usize> = None;

        // Frame edge.
        if self.config.frame_enable {
            if frame_bit != self.state.frame_state {
                if frame_bit == self.config.frame_active {
                    self.state.shift_reg = 0;
                    self.state.shift_count = 0;
                }
            }
        }
        // Frame timeout.
        if self.config.timeout_enable {
            if self.config.frame_timeout > 0 {
                if self.state.frame_timeout_state == 0 {
                    self.state.shift_reg = 0;
                    self.state.shift_count = 0;
                    self.state.frame_timeout_state = self.config.frame_timeout;
                } else {
                    self.state.frame_timeout_state = self.state.frame_timeout_state - 1;
                }
            }
        }
        // Shift in data on the sampling clock edge.
        if !self.config.frame_enable || frame_bit == self.config.frame_active {
            if clock_bit != self.state.clock_state {
                if clock_bit == self.config.clock_edge {
                    self.state.shift_reg = (self.state.shift_reg << 1usize) | data_bit;
                    self.state.shift_count = self.state.shift_count + 1;
                    if self.state.shift_count == self.config.nb_bits {
                        rv = Some(self.state.shift_reg);
                        self.state.shift_reg = 0;
                        self.state.shift_count = 0;
                        self.state.frame_timeout_state = self.config.frame_timeout;
                    }
                }
            }
        }
        // Edge detector state.
        self.state.clock_state = clock_bit;
        self.state.frame_state = frame_bit;

        rv
    }
}

/// Decoding never changes the configuration.
pub proof fn lemma_run_keeps_config<B: Bus>(m: Model, ins: Seq<B>)
    ensures
        run_state::<B, usize, SyncSer>(m, ins).config == m.config,
    decreases ins.len(),
{
    if ins.len() > 0 {
        lemma_run_keeps_config::<B>(m, ins.drop_last());
    }
}

/// Tick `i` of `ins` carries a sampling edge of the clock: the clock is at
/// the sampling level and was not at the tick before. Before the first
/// tick the clock is where the framer `m` last saw it.
pub open spec fn edge_at<B: Bus>(m: Model, ins: Seq<B>, i: int) -> bool {
    let now = ins[i].level(m.config.clock_channel);
    let before = if i == 0 {
        m.state.clock_state
    } else {
        ins[i - 1].level(m.config.clock_channel)
    };
    now != before && now == m.config.clock_edge
}

/// Number of sampling edges among the ticks of `ins`.
pub open spec fn edges<B: Bus>(m: Model, ins: Seq<B>) -> nat
    decreases ins.len(),
{
    if ins.len() == 0 {
        0
    } else {
        edges(m, ins.drop_last()) + if edge_at(m, ins, ins.len() - 1) {
            1nat
        } else {
            0nat
        }
    }
}

/// Counting one further: either the count completes a multiple of `n`, or
/// the remainder grows by one.
proof fn lemma_count_on(total: int, n: int)
    requires
        total >= 0,
        n >= 1,
    ensures
        total % n + 1 == n ==> (total + 1) / n == total / n + 1 && (total + 1) % n == 0,
        total % n + 1 != n ==> (total + 1) / n == total / n && (total + 1) % n == total % n + 1,
{
    vstd::arithmetic::div_mod::lemma_fundamental_div_mod(total, n);
    vstd::arithmetic::div_mod::lemma_mod_bound(total, n);
    let q = total / n;
    let r = total % n;
    assert(n * q == q * n) by (nonlinear_arith);
    if r + 1 == n {
        assert(total + 1 == (q + 1) * n + 0) by (nonlinear_arith)
            requires
                total == q * n + r,
                r + 1 == n,
        ;
        vstd::arithmetic::div_mod::lemma_fundamental_div_mod_converse(total + 1, n, q + 1, 0);
    } else {
        vstd::arithmetic::div_mod::lemma_fundamental_div_mod_converse(total + 1, n, q, r + 1);
    }
}

/// Without chip-select framing and without timeout, the number of words a
/// framer emits is the number of sampling edges it is fed, added to the
/// bits it already held, divided by the word length and rounded down. The
/// bits it is left with are the remainder.
pub proof fn lemma_words_per_edges<B: Bus>(m: Model, ins: Seq<B>)
    requires
        consistent(m),
        !m.config.frame_enable,
        !timeout_runs(m.config),
    ensures
        run_out::<B, usize, SyncSer>(m, ins).len() == (m.state.shift_count + edges(m, ins)) / (
        m.config.nb_bits as int),
        run_state::<B, usize, SyncSer>(m, ins).state.shift_count == (m.state.shift_count + edges(
            m,
            ins,
        )) % (m.config.nb_bits as int),
        run_state::<B, usize, SyncSer>(m, ins).config == m.config,
        ins.len() > 0 ==> run_state::<B, usize, SyncSer>(m, ins).state.clock_state
            == ins.last().level(m.config.clock_channel),
    decreases ins.len(),
{
    let n = m.config.nb_bits as int;
    if ins.len() == 0 {
        assert(m.state.shift_count as int / n == 0 && m.state.shift_count as int % n
            == m.state.shift_count) by {
            vstd::arithmetic::div_mod::lemma_fundamental_div_mod_converse(
                m.state.shift_count as int,
                n,
                0,
                m.state.shift_count as int,
            );
        }
    } else {
        let front = ins.drop_last();
        lemma_words_per_edges::<B>(m, front);
        let before = run_state::<B, usize, SyncSer>(m, front);
        let l = lines_of(m.config, ins.last());
        let total = m.state.shift_count + edges(m, front);
        lemma_count_on(total, n);
        if front.len() > 0 {
            assert(front.last() == ins[ins.len() - 2]);
        }
        assert(samples(before, l) == edge_at(m, ins, ins.len() - 1));
    }
}

/// A sample with the clock line at `clock`, the data line at `data` and
/// all other channels low.
pub open spec fn sample_of(c: Config, clock: usize, data: usize) -> usize {
    (clock << c.clock_channel) | (data << c.data_channel)
}

/// The samples that send one bit: the clock is held for `half` samples at
/// the level opposite to the sampling level, then for `half` samples at
/// the sampling level, while the data line holds the bit.
pub open spec fn signal_of_bit(c: Config, half: nat, bit: usize) -> Seq<usize> {
    Seq::new(half, |k: int| sample_of(c, c.clock_edge ^ 1, bit)) + Seq::new(
        half,
        |k: int| sample_of(c, c.clock_edge, bit),
    )
}

/// The samples that send the `sent` highest bits of the word `value`, the
/// highest first.
pub open spec fn signal_of_bits(c: Config, half: nat, value: usize, sent: nat) -> Seq<usize>
    decreases sent,
{
    if sent == 0 {
        Seq::empty()
    } else {
        signal_of_bits(c, half, value, (sent - 1) as nat) + signal_of_bit(
            c,
            half,
            (value >> ((c.nb_bits - sent) as usize)) & 1,
        )
    }
}

/// The samples that send `words` one after the other.
pub open spec fn signal_of(c: Config, half: nat, words: Seq<usize>) -> Seq<usize>
    decreases words.len(),
{
    if words.len() == 0 {
        Seq::empty()
    } else {
        signal_of(c, half, words.drop_last()) + signal_of_bits(
            c,
            half,
            words.last(),
            c.nb_bits as nat,
        )
    }
}

/// A line that a framer can decode without framing and timeout: the clock
/// and the data line on two channels of a word, words that fit the shift
/// register, and 0 or 1 as the sampling level of the clock.
pub open spec fn plain_line(c: Config) -> bool {
    &&& !c.frame_enable
    &&& !timeout_runs(c)
    &&& 1 <= c.nb_bits <= usize::BITS
    &&& c.clock_edge <= 1
    &&& c.clock_channel < usize::BITS
    &&& c.data_channel < usize::BITS
    &&& c.clock_channel != c.data_channel
}

/// The framer holds no bit of a word.
pub open spec fn between_words(m: Model) -> bool {
    m.state.shift_count == 0 && m.state.shift_reg == 0
}

/// The `j` highest bits of the word `w` of `n` bits.
spec fn high_bits(w: usize, n: usize, j: int) -> usize {
    if j == 0 {
        0
    } else {
        w >> ((n - j) as usize)
    }
}

/// The next bit below the `j` highest bits gives the `j + 1` highest bits.
proof fn lemma_high_bits_grow(w: usize, n: usize, j: int)
    requires
        0 <= j < n <= usize::BITS,
        w < pow2(n as nat),
    ensures
        (high_bits(w, n, j) << 1usize) | ((w >> ((n - (j + 1)) as usize)) & 1) == high_bits(
            w,
            n,
            j + 1,
        ),
        high_bits(w, n, n as int) == w,
{
    let below: usize = (n - (j + 1)) as usize;
    assert(w >> 0usize == w) by (bit_vector);
    if j == 0 {
        if n < usize::BITS {
            crate::bits::lemma_one_shl(n);
        }
        assert((0usize << 1usize) | ((w >> below) & 1) == w >> below) by (bit_vector)
            requires
                below == n - 1,
                1 <= n <= usize::BITS,
                n < usize::BITS ==> w < (1usize << n),
        ;
    } else {
        let at: usize = (n - j) as usize;
        assert(((w >> at) << 1usize) | ((w >> below) & 1) == w >> below) by (bit_vector)
            requires
                at == below + 1,
                at < usize::BITS,
        ;
    }
}

/// A sample puts on the clock and on the data line what it was made of.
proof fn lemma_sample_levels(c: Config, clock: usize, data: usize)
    requires
        c.clock_channel < usize::BITS,
        c.data_channel < usize::BITS,
        c.clock_channel != c.data_channel,
        clock <= 1,
        data <= 1,
    ensures
        sample_of(c, clock, data).level(c.clock_channel) == clock,
        sample_of(c, clock, data).level(c.data_channel) == data,
        clock ^ 1 <= 1,
        clock ^ 1 != clock,
{
    let a = c.clock_channel;
    let b = c.data_channel;
    assert((((clock << a) | (data << b)) >> a) & 1 == clock && (((clock << a) | (data << b)) >> b)
        & 1 == data && clock ^ 1 <= 1 && clock ^ 1 != clock) by (bit_vector)
        requires
            a < usize::BITS,
            b < usize::BITS,
            a != b,
            clock <= 1,
            data <= 1,
    ;
}

/// On a plain line only the first of a run of equal samples counts: the
/// framer takes it as one tick and the rest changes nothing.
proof fn lemma_held_sample(m: Model, sample: usize, count: nat)
    requires
        consistent(m),
        !m.config.frame_enable,
        !timeout_runs(m.config),
        count >= 1,
    ensures
        run_state::<usize, usize, SyncSer>(m, Seq::new(count, |k: int| sample)) == (Model {
            config: m.config,
            state: next_state(m, lines_of(m.config, sample)),
        }),
        run_out::<usize, usize, SyncSer>(m, Seq::new(count, |k: int| sample)) == match completed(
            m,
            lines_of(m.config, sample),
        ) {
            Some(word) => seq![word],
            None => Seq::empty(),
        },
    decreases count,
{
    let held = Seq::new(count, |k: int| sample);
    let front = Seq::new((count - 1) as nat, |k: int| sample);
    assert(front.push(sample) == held);
    lemma_run_push::<usize, usize, SyncSer>(m, front, sample);
    if count == 1 {
        assert(front == Seq::<usize>::empty());
        assert(Seq::<usize>::empty().push(completed(m, lines_of(m.config, sample))->0) == seq![
            completed(m, lines_of(m.config, sample))->0,
        ]);
    } else {
        lemma_held_sample(m, sample, (count - 1) as nat);
    }
}

/// The samples of one bit shift that bit into the register. With the bit
/// that fills the word the framer emits the word and is between words
/// again.
proof fn lemma_bit_decodes(m: Model, half: nat, bit: usize)
    requires
        consistent(m),
        plain_line(m.config),
        half >= 1,
        bit <= 1,
    ensures
        run_state::<usize, usize, SyncSer>(m, signal_of_bit(m.config, half, bit)).config
            == m.config,
        consistent(run_state::<usize, usize, SyncSer>(m, signal_of_bit(m.config, half, bit))),
        m.state.shift_count + 1 < m.config.nb_bits ==> {
            &&& run_state::<usize, usize, SyncSer>(
                m,
                signal_of_bit(m.config, half, bit),
            ).state.shift_count == m.state.shift_count + 1
            &&& run_state::<usize, usize, SyncSer>(
                m,
                signal_of_bit(m.config, half, bit),
            ).state.shift_reg == (m.state.shift_reg << 1usize) | bit
            &&& run_out::<usize, usize, SyncSer>(m, signal_of_bit(m.config, half, bit))
                == Seq::<usize>::empty()
        },
        m.state.shift_count + 1 == m.config.nb_bits ==> {
            &&& between_words(
                run_state::<usize, usize, SyncSer>(m, signal_of_bit(m.config, half, bit)),
            )
            &&& run_out::<usize, usize, SyncSer>(m, signal_of_bit(m.config, half, bit)) == seq![
                (m.state.shift_reg << 1usize) | bit,
            ]
        },
{
    let c = m.config;
    let before = sample_of(c, c.clock_edge ^ 1, bit);
    let after = sample_of(c, c.clock_edge, bit);
    lemma_sample_levels(c, c.clock_edge, bit);
    lemma_sample_levels(c, c.clock_edge ^ 1, bit);
    lemma_held_sample(m, before, half);
    let mid = run_state::<usize, usize, SyncSer>(m, Seq::new(half, |k: int| before));
    lemma_held_sample(mid, after, half);
    lemma_run_concat::<usize, usize, SyncSer>(
        m,
        Seq::new(half, |k: int| before),
        Seq::new(half, |k: int| after),
    );
    let word = (m.state.shift_reg << 1usize) | bit;
    assert(Seq::<usize>::empty() + Seq::<usize>::empty() == Seq::<usize>::empty());
    assert(Seq::<usize>::empty() + seq![word] == seq![word]);
}

/// The samples of the `sent` highest bits of a word leave those bits in
/// the register; those of the whole word make the framer emit the word.
proof fn lemma_bits_decode(m: Model, half: nat, w: usize, sent: nat)
    requires
        consistent(m),
        plain_line(m.config),
        between_words(m),
        half >= 1,
        w < pow2(m.config.nb_bits as nat),
        sent <= m.config.nb_bits,
    ensures
        run_state::<usize, usize, SyncSer>(m, signal_of_bits(m.config, half, w, sent)).config
            == m.config,
        consistent(run_state::<usize, usize, SyncSer>(m, signal_of_bits(m.config, half, w, sent))),
        sent < m.config.nb_bits ==> {
            &&& run_state::<usize, usize, SyncSer>(
                m,
                signal_of_bits(m.config, half, w, sent),
            ).state.shift_count == sent
            &&& run_state::<usize, usize, SyncSer>(
                m,
                signal_of_bits(m.config, half, w, sent),
            ).state.shift_reg == high_bits(w, m.config.nb_bits, sent as int)
            &&& run_out::<usize, usize, SyncSer>(m, signal_of_bits(m.config, half, w, sent))
                == Seq::<usize>::empty()
        },
        sent == m.config.nb_bits ==> {
            &&& between_words(
                run_state::<usize, usize, SyncSer>(m, signal_of_bits(m.config, half, w, sent)),
            )
            &&& run_out::<usize, usize, SyncSer>(m, signal_of_bits(m.config, half, w, sent))
                == seq![w]
        },
    decreases sent,
{
    let c = m.config;
    if sent > 0 {
        let j = (sent - 1) as nat;
        let bit = (w >> ((c.nb_bits - sent) as usize)) & 1;
        lemma_bits_decode(m, half, w, j);
        let mid = run_state::<usize, usize, SyncSer>(m, signal_of_bits(c, half, w, j));
        assert(bit <= 1) by {
            w.lemma_level_is_bit((c.nb_bits - sent) as usize);
        }
        lemma_bit_decodes(mid, half, bit);
        lemma_high_bits_grow(w, c.nb_bits, j as int);
        lemma_run_concat::<usize, usize, SyncSer>(
            m,
            signal_of_bits(c, half, w, j),
            signal_of_bit(c, half, bit),
        );
        assert(Seq::<usize>::empty() + Seq::<usize>::empty() == Seq::<usize>::empty());
        assert(Seq::<usize>::empty() + seq![w] == seq![w]);
    }
}

/// Round trip on a plain line: a framer that is between words, fed the
/// samples that send a sequence of words, each bit for `2 * half`
/// samples, emits exactly those words, in order, and is between words
/// again.
pub proof fn lemma_round_trip(m: Model, half: nat, words: Seq<usize>)
    requires
        consistent(m),
        plain_line(m.config),
        between_words(m),
        half >= 1,
        forall|i: int| 0 <= i < words.len() ==> #[trigger] words[i] < pow2(m.config.nb_bits as nat),
    ensures
        run_out::<usize, usize, SyncSer>(m, signal_of(m.config, half, words)) == words,
        between_words(run_state::<usize, usize, SyncSer>(m, signal_of(m.config, half, words))),
        consistent(run_state::<usize, usize, SyncSer>(m, signal_of(m.config, half, words))),
        run_state::<usize, usize, SyncSer>(m, signal_of(m.config, half, words)).config
            == m.config,
    decreases words.len(),
{
    if words.len() > 0 {
        let c = m.config;
        let front = words.drop_last();
        assert forall|i: int| 0 <= i < front.len() implies #[trigger] front[i] < pow2(
            c.nb_bits as nat,
        ) by {
            assert(front[i] == words[i]);
        }
        lemma_round_trip(m, half, front);
        let mid = run_state::<usize, usize, SyncSer>(m, signal_of(c, half, front));
        assert(words.last() == words[words.len() - 1]);
        lemma_bits_decode(mid, half, words.last(), c.nb_bits as nat);
        lemma_run_concat::<usize, usize, SyncSer>(
            m,
            signal_of(c, half, front),
            signal_of_bits(c, half, words.last(), c.nb_bits as nat),
        );
        assert(front + seq![words.last()] == words);
    }
}

} // verus!
