//! Asynchronous serial framer: start bit, data bits LSB first, stop bit.

use vstd::prelude::*;
use crate::bits::lemma_one_shl;
use crate::bus::Bus;
use crate::signal::{lemma_oversampled_at, lemma_oversampled_len, oversampled};
use crate::sm::{lemma_run_concat, lemma_run_push, run_out, run_state, Push};
use vstd::arithmetic::div_mod::lemma_fundamental_div_mod_converse;
use vstd::arithmetic::power2::pow2;

verus! {

/// Line parameters, fixed for a decoding run.
#[derive(Copy, Clone)]
pub struct Config {
    /// Samples per bit.
    pub period: usize,
    /// Data bits per frame.
    pub nb_bits: usize,
    /// Bus channel that carries the line.
    pub channel: usize,
}

/// What the framer is waiting for.
#[derive(Copy, Clone)]
pub enum Mode {
    /// The line is idle; a low level starts a frame.
    Idle,
    /// Data bits are being collected, then the stop bit.
    Shift,
    /// The stop bit was low and no data bit was set.
    Break,
    /// The stop bit was low after some data bit was set.
    FrameErr,
}

/// The registers of the framer.
#[derive(Copy, Clone)]
pub struct State {
    /// Data shift register.
    pub reg: usize,
    /// Number of data bits collected.
    pub bit: usize,
    /// Samples to skip before the next sample point.
    pub skip: usize,
    /// Current mode.
    pub mode: Mode,
}

/// Configuration and registers of a framer, as contracts see them.
pub struct Model {
    pub config: Config,
    pub state: State,
}

/// A framer for one line. The registers are public so that contracts and
/// callers can inspect them; only `push` is meant to change them.
pub struct Uart {
    pub config: Config,
    pub state: State,
}

impl View for Uart {
    type V = Model;

    open spec fn view(&self) -> Model {
        Model { config: self.config, state: self.state }
    }
}

/// Delay from the first low sample of a start bit to the sample point of
/// the first data bit, less one.
pub open spec fn delay_after_start(period: int) -> int {
    (period - 1) + (period - 1) / 2 + period / 4
}

/// The registers of a framer that has seen nothing yet.
pub open spec fn initial_state() -> State {
    State { reg: 0, bit: 0, skip: 0, mode: Mode::Idle }
}

/// A configuration the framer can run with: at least one sample per bit,
/// a start delay that fits the counter, and a word that fits the register.
pub open spec fn usable(c: Config) -> bool {
    &&& c.period >= 1
    &&& delay_after_start(c.period as int) <= usize::MAX
    &&& c.nb_bits <= usize::BITS
}

/// A usable configuration with registers that are consistent with it.
pub open spec fn consistent(m: Model) -> bool {
    &&& usable(m.config)
    &&& m.state.bit <= m.config.nb_bits
}

/// The registers after one tick on which the line is at `level`.
pub open spec fn next_state(m: Model, level: usize) -> State {
    let c = m.config;
    let s = m.state;
    if s.skip > 0 {
        State { skip: (s.skip - 1) as usize, ..s }
    } else {
        match s.mode {
            Mode::Idle => if level == 0 {
                State {
                    reg: 0,
                    bit: 0,
                    skip: delay_after_start(c.period as int) as usize,
                    mode: Mode::Shift,
                }
            } else {
                s
            },
            Mode::Shift => if s.bit < c.nb_bits {
                State {
                    reg: s.reg | (level << s.bit),
                    bit: (s.bit + 1) as usize,
                    skip: (c.period - 1) as usize,
                    mode: Mode::Shift,
                }
            } else if level == 1 {
                State { skip: 0, mode: Mode::Idle, ..s }
            } else if s.reg == 0 {
                State { skip: 0, mode: Mode::Break, ..s }
            } else {
                State { skip: 0, mode: Mode::FrameErr, ..s }
            },
            _ => if level == 1 {
                State { mode: Mode::Idle, ..s }
            } else {
                s
            },
        }
    }
}

/// The word, if any, that a tick with the line at `level` completes: the
/// register, once all data bits are in and the stop bit is high.
pub open spec fn completed(m: Model, level: usize) -> Option<usize> {
    if m.state.skip == 0 && m.state.mode is Shift && m.state.bit >= m.config.nb_bits && level
        == 1 {
        Some(m.state.reg)
    } else {
        None
    }
}

/// Creates a framer in the idle state.
pub fn init(config: Config) -> (uart: Uart)
    ensures
        uart@ == (Model { config, state: initial_state() }),
{
    Uart { config: config, state: State { reg: 0, bit: 0, skip: 0, mode: Mode::Idle } }
}

/// Samples to let pass after the start of a frame so that the data bits
/// are sampled near their middle.
pub fn start_delay(period: usize) -> (delay: usize)
    requires
        period >= 1,
        delay_after_start(period as int) <= usize::MAX,
    ensures
        delay == delay_after_start(period as int),
{
    let rest: usize = period - 1;
    assert(rest >> 1 == rest / 2) by (bit_vector);
    assert(period >> 2 == period / 4) by (bit_vector);
    rest + (rest >> 1) + (period >> 2)
}

impl<B: Bus> Push<B, usize> for Uart {
    open spec fn inv(m: Model) -> bool {
        consistent(m) && m.config.channel < B::width()
    }

    open spec fn step(m: Model, input: B) -> Model {
        Model { config: m.config, state: next_state(m, input.level(m.config.channel)) }
    }

    open spec fn emit(m: Model, input: B) -> Option<usize> {
        completed(m, input.level(m.config.channel))
    }

    proof fn lemma_step_keeps_inv(m: Model, input: B) {
    }

    fn push(&mut self, input: B) -> (out: Option<usize>) {
        if self.state.skip > 0 {
            self.state.skip = self.state.skip - 1;
            return None;
        }
        let i: usize = input.channel(self.config.channel);
        match self.state.mode {
            Mode::Idle => {
                if i == 0 {
                    self.state.mode = Mode::Shift;
                    self.state.bit = 0;
                    self.state.skip = start_delay(self.config.period);
                    self.state.reg = 0;
                }
                None
            },
            Mode::Shift => {
                if self.state.bit < self.config.nb_bits {
                    self.state.reg = self.state.reg | (i << self.state.bit);
                    self.state.bit = self.state.bit + 1;
                    self.state.skip = self.config.period - 1;
                    None
                } else {
                    self.state.skip = 0;
                    if i == 1 {
                        self.state.mode = Mode::Idle;
                        Some(self.state.reg)
                    } else {
                        self.state.mode = if self.state.reg == 0 {
                            Mode::Break
                        } else {
                            Mode::FrameErr
                        };
                        None
                    }
                }
            },
            _ => {
                if i == 1 {
                    self.state.mode = Mode::Idle;
                }
                None
            },
        }
    }
}

/// Decoding never changes the configuration.
pub proof fn lemma_run_keeps_config<B: Bus>(m: Model, ins: Seq<B>)
    ensures
        run_state::<B, usize, Uart>(m, ins).config == m.config,
    decreases ins.len(),
{
    if ins.len() > 0 {
        lemma_run_keeps_config::<B>(m, ins.drop_last());
    }
}

/// The frame that sends `value`: bit `k` of the frame is the `k`-th level
/// on the line. A low start bit, the data bits from the lowest up, a high
/// stop bit.
pub open spec fn frame_of(nb_bits: usize, value: usize) -> usize {
    (value | (1usize << nb_bits)) << 1usize
}

/// Builds the frame that sends `value` as a word of `nb_bits` bits.
pub fn frame(nb_bits: usize, value: usize) -> (bits: usize)
    requires
        nb_bits < usize::BITS,
    ensures
        bits == frame_of(nb_bits, value),
{
    (value | (1usize << nb_bits)) << 1usize
}

/// The samples of the line while it sends `value`: every level of the
/// frame is held for `period` samples, on the channel of the line, with
/// all other channels low.
pub open spec fn signal_of_word(c: Config, value: usize) -> Seq<usize> {
    Seq::new(
        ((c.nb_bits + 2) * c.period) as nat,
        |k: int| ((frame_of(c.nb_bits, value) >> ((k / (c.period as int)) as usize)) & 1) << c.channel,
    )
}

/// The samples of the line while it sends `words` one after the other.
pub open spec fn signal_of(c: Config, words: Seq<usize>) -> Seq<usize>
    decreases words.len(),
{
    if words.len() == 0 {
        Seq::empty()
    } else {
        signal_of(c, words.drop_last()) + signal_of_word(c, words.last())
    }
}

/// The signal of a word is its frame, put out by an oversampled shift
/// register whose samples are moved to the channel of the line.
pub proof fn lemma_signal_is_oversampled_frame(c: Config, value: usize)
    requires
        c.period >= 1,
        c.nb_bits + 2 <= usize::BITS,
    ensures
        signal_of_word(c, value) == oversampled(
            frame_of(c.nb_bits, value),
            (c.nb_bits + 2) as nat,
            c.period as nat,
        ).map_values(|bit: usize| bit << c.channel),
{
    let bits = oversampled(frame_of(c.nb_bits, value), (c.nb_bits + 2) as nat, c.period as nat);
    lemma_oversampled_len(frame_of(c.nb_bits, value), (c.nb_bits + 2) as nat, c.period as nat);
    assert forall|k: int| 0 <= k < bits.len() implies #[trigger] bits[k] == (frame_of(
        c.nb_bits,
        value,
    ) >> ((k / (c.period as int)) as usize)) & 1 by {
        lemma_oversampled_at(
            frame_of(c.nb_bits, value),
            (c.nb_bits + 2) as nat,
            c.period as nat,
            k,
        );
    }
    assert(signal_of_word(c, value) =~= bits.map_values(|bit: usize| bit << c.channel));
}

/// The framer waits for a start bit and is ready to take the next sample.
pub open spec fn idle(m: Model) -> bool {
    m.state.mode is Idle && m.state.skip == 0
}

/// The `j` lowest bits of `w`.
spec fn low_bits(w: usize, j: usize) -> usize {
    w & (((1usize << j) - 1) as usize)
}

/// No bits are nothing, and bit `j` on top of the `j` lowest bits gives
/// the `j + 1` lowest bits.
proof fn lemma_low_bits_grow(w: usize, j: usize)
    requires
        j + 1 < usize::BITS,
    ensures
        low_bits(w, 0) == 0,
        low_bits(w, j) | (((w >> j) & 1) << j) == low_bits(w, (j + 1) as usize),
{
    assert(w & (((1usize << 0usize) - 1) as usize) == 0) by (bit_vector);
    let next: usize = (j + 1) as usize;
    assert((w & (((1usize << j) - 1) as usize)) | (((w >> j) & 1) << j) == w & (((1usize << next)
        - 1) as usize)) by (bit_vector)
        requires
            next == j + 1,
            next < usize::BITS,
    ;
}

/// A word that fits `n` bits is its `n` lowest bits.
proof fn lemma_low_bits_all(w: usize, n: usize)
    requires
        n < usize::BITS,
        w < pow2(n as nat),
    ensures
        low_bits(w, n) == w,
{
    lemma_one_shl(n);
    assert(w & (((1usize << n) - 1) as usize) == w) by (bit_vector)
        requires
            n < usize::BITS,
            w < (1usize << n),
    ;
}

/// Frame bit `j + 1` is data bit `j`.
proof fn lemma_frame_data_bit(n: usize, w: usize, j: usize)
    requires
        n + 2 <= usize::BITS,
        j < n,
    ensures
        (frame_of(n, w) >> ((j + 1) as usize)) & 1 == (w >> j) & 1,
{
    let f = frame_of(n, w);
    let above: usize = (j + 1) as usize;
    assert((f >> above) & 1 == (w >> j) & 1) by (bit_vector)
        requires
            f == (w | (1usize << n)) << 1usize,
            n + 1 < usize::BITS,
            above == j + 1,
            j < n,
    ;
}

/// The first frame bit is the low start bit, the last the high stop bit.
proof fn lemma_frame_ends(n: usize, w: usize)
    requires
        n + 2 <= usize::BITS,
        w < pow2(n as nat),
    ensures
        (frame_of(n, w) >> 0usize) & 1 == 0,
        (frame_of(n, w) >> ((n + 1) as usize)) & 1 == 1,
{
    lemma_one_shl(n);
    let f = frame_of(n, w);
    let top: usize = (n + 1) as usize;
    assert((f >> 0usize) & 1 == 0 && (f >> top) & 1 == 1) by (bit_vector)
        requires
            f == (w | (1usize << n)) << 1usize,
            top == n + 1,
            top < usize::BITS,
            w < (1usize << n),
    ;
}

/// Sample `k` of the signal of a word puts on the line the level of the
/// frame bit that is being held at that time.
proof fn lemma_signal_level(c: Config, w: usize, k: int)
    requires
        c.period >= 1,
        c.channel < usize::BITS,
        0 <= k < (c.nb_bits + 2) * c.period,
    ensures
        signal_of_word(c, w)[k].level(c.channel) == (frame_of(c.nb_bits, w) >> ((k / (
        c.period as int)) as usize)) & 1,
{
    let f = frame_of(c.nb_bits, w);
    let q = (k / (c.period as int)) as usize;
    let ch = c.channel;
    assert(((((f >> q) & 1) << ch) >> ch) & 1 == (f >> q) & 1) by (bit_vector)
        requires
            ch < usize::BITS,
    ;
}

/// The state of a framer started in `m` after the first `k` samples of `s`.
spec fn at(m: Model, s: Seq<usize>, k: int) -> Model {
    run_state::<usize, usize, Uart>(m, s.take(k))
}

/// What it has produced by then.
spec fn out_at(m: Model, s: Seq<usize>, k: int) -> Seq<usize> {
    run_out::<usize, usize, Uart>(m, s.take(k))
}

/// One more sample is one more tick.
proof fn lemma_at_next(m: Model, s: Seq<usize>, k: int)
    requires
        0 <= k < s.len(),
    ensures
        at(m, s, k + 1) == (Model {
            config: at(m, s, k).config,
            state: next_state(at(m, s, k), s[k].level(at(m, s, k).config.channel)),
        }),
        out_at(m, s, k + 1) == match completed(
            at(m, s, k),
            s[k].level(at(m, s, k).config.channel),
        ) {
            Some(word) => out_at(m, s, k).push(word),
            None => out_at(m, s, k),
        },
{
    lemma_run_push::<usize, usize, Uart>(m, s.take(k), s[k]);
    assert(s.take(k).push(s[k]) == s.take(k + 1));
}

/// While the framer skips samples it changes nothing but its countdown
/// and produces nothing.
proof fn lemma_skipping(m: Model, s: Seq<usize>, k: int, r: int)
    requires
        0 <= k,
        0 <= r <= at(m, s, k).state.skip,
        k + r <= s.len(),
    ensures
        at(m, s, k + r) == (Model {
            config: at(m, s, k).config,
            state: State { skip: (at(m, s, k).state.skip - r) as usize, ..at(m, s, k).state },
        }),
        out_at(m, s, k + r) == out_at(m, s, k),
    decreases r,
{
    if r > 0 {
        lemma_skipping(m, s, k, r - 1);
        lemma_at_next(m, s, k + r - 1);
    }
}

/// An idle framer stays as it is, and produces nothing, while the line is
/// high.
proof fn lemma_idling(m: Model, s: Seq<usize>, k: int, r: int)
    requires
        0 <= k,
        0 <= r,
        k + r <= s.len(),
        idle(at(m, s, k)),
        forall|i: int| k <= i < k + r ==> (#[trigger] s[i]).level(at(m, s, k).config.channel) == 1,
    ensures
        at(m, s, k + r) == at(m, s, k),
        out_at(m, s, k + r) == out_at(m, s, k),
    decreases r,
{
    if r > 0 {
        lemma_idling(m, s, k, r - 1);
        lemma_at_next(m, s, k + r - 1);
        assert(s[k + r - 1].level(at(m, s, k).config.channel) == 1);
    }
}

/// Number of samples the framer has consumed when it is about to sample
/// data bit `j`; for `j == nb_bits`, the stop bit.
#[verifier::opaque]
spec fn sample_point(c: Config, j: int) -> int {
    (j + 1) * c.period + (c.period - 1) / 2 + c.period / 4
}

/// The sample at a sample point lies in the bit after the start bit and
/// the `j` data bits before it. The first sample point comes when the
/// start delay is over, each further one a period later.
proof fn lemma_sample_point(c: Config, j: int)
    requires
        c.period >= 1,
        0 <= j <= c.nb_bits,
    ensures
        sample_point(c, 0) == 1 + delay_after_start(c.period as int),
        sample_point(c, j) >= 1,
        sample_point(c, j) / (c.period as int) == j + 1,
        (j + 1) * c.period <= sample_point(c, j) < (j + 2) * c.period,
        (j + 2) * c.period == (j + 1) * c.period + c.period,
        (j + 2) * c.period <= (c.nb_bits + 2) * c.period,
        j < c.nb_bits ==> sample_point(c, j + 1) == sample_point(c, j) + c.period,
{
    reveal(sample_point);
    let p = c.period as int;
    let o = (p - 1) / 2 + p / 4;
    let n = c.nb_bits as int;
    assert((0 + 1) * p == p) by (nonlinear_arith);
    assert((j + 1 + 1) * p == (j + 1) * p + p) by (nonlinear_arith);
    assert((j + 2) * p == (j + 1) * p + p) by (nonlinear_arith);
    assert((j + 1) * p >= p) by (nonlinear_arith)
        requires
            j >= 0,
            p >= 1,
    ;
    assert((j + 2) * p <= (n + 2) * p) by (nonlinear_arith)
        requires
            j <= n,
            p >= 1,
    ;
    lemma_fundamental_div_mod_converse((j + 1) * p + o, p, j + 1, o);
}

/// The registers of a framer that is about to sample data bit `j` of the
/// word `w`: it holds the bits below `j`.
spec fn sampling(c: Config, w: usize, j: int) -> Model {
    Model {
        config: c,
        state: State { reg: low_bits(w, j as usize), bit: j as usize, skip: 0, mode: Mode::Shift },
    }
}

/// The start bit and the start delay take an idle framer to the sample
/// point of the first data bit.
proof fn lemma_start_bit(m: Model, w: usize)
    requires
        consistent(m),
        idle(m),
        m.config.nb_bits + 2 <= usize::BITS,
        m.config.channel < usize::BITS,
        w < pow2(m.config.nb_bits as nat),
    ensures
        at(m, signal_of_word(m.config, w), sample_point(m.config, 0)) == sampling(m.config, w, 0),
        out_at(m, signal_of_word(m.config, w), sample_point(m.config, 0)) == Seq::<usize>::empty(),
{
    let c = m.config;
    let s = signal_of_word(c, w);
    let p = c.period as int;
    lemma_sample_point(c, 0);
    assert(s.take(0) == Seq::<usize>::empty());
    assert(at(m, s, 0) == m);
    assert(out_at(m, s, 0) == Seq::<usize>::empty());
    assert(s[0].level(c.channel) == 0) by {
        lemma_signal_level(c, w, 0);
        lemma_fundamental_div_mod_converse(0, p, 0, 0);
        lemma_frame_ends(c.nb_bits, w);
    }
    lemma_at_next(m, s, 0);
    assert(at(m, s, 1).state == State {
        reg: 0,
        bit: 0,
        skip: delay_after_start(p) as usize,
        mode: Mode::Shift,
    });
    lemma_skipping(m, s, 1, delay_after_start(p));
    lemma_low_bits_grow(w, 0);
}

/// Data bit `j` and the rest of its period take the framer from one
/// sample point to the next.
proof fn lemma_data_bit(m: Model, w: usize, j: int)
    requires
        m.config.period >= 1,
        m.config.nb_bits + 2 <= usize::BITS,
        m.config.channel < usize::BITS,
        w < pow2(m.config.nb_bits as nat),
        0 <= j < m.config.nb_bits,
        at(m, signal_of_word(m.config, w), sample_point(m.config, j)) == sampling(m.config, w, j),
    ensures
        at(m, signal_of_word(m.config, w), sample_point(m.config, j + 1)) == sampling(
            m.config,
            w,
            j + 1,
        ),
        out_at(m, signal_of_word(m.config, w), sample_point(m.config, j + 1)) == out_at(
            m,
            signal_of_word(m.config, w),
            sample_point(m.config, j),
        ),
{
    let c = m.config;
    let s = signal_of_word(c, w);
    let p = c.period as int;
    let k = sample_point(c, j);
    lemma_sample_point(c, j);
    lemma_sample_point(c, j + 1);
    assert(s[k].level(c.channel) == (w >> (j as usize)) & 1) by {
        lemma_signal_level(c, w, k);
        lemma_frame_data_bit(c.nb_bits, w, j as usize);
    }
    lemma_at_next(m, s, k);
    lemma_low_bits_grow(w, j as usize);
    assert(at(m, s, k + 1).state == State {
        reg: low_bits(w, (j + 1) as usize),
        bit: (j + 1) as usize,
        skip: (p - 1) as usize,
        mode: Mode::Shift,
    });
    lemma_skipping(m, s, k + 1, p - 1);
}

/// From the start bit to data bit `j`: when the framer is about to sample
/// data bit `j` it holds the bits below `j` and has produced nothing.
proof fn lemma_data_bits(m: Model, w: usize, j: int)
    requires
        consistent(m),
        idle(m),
        m.config.nb_bits + 2 <= usize::BITS,
        m.config.channel < usize::BITS,
        w < pow2(m.config.nb_bits as nat),
        0 <= j <= m.config.nb_bits,
    ensures
        at(m, signal_of_word(m.config, w), sample_point(m.config, j)) == sampling(m.config, w, j),
        out_at(m, signal_of_word(m.config, w), sample_point(m.config, j)) == Seq::<usize>::empty(),
    decreases j,
{
    if j == 0 {
        lemma_start_bit(m, w);
    } else {
        lemma_data_bits(m, w, j - 1);
        lemma_data_bit(m, w, j - 1);
    }
}

/// An idle framer that is fed the signal of one word produces that word
/// and nothing else, and is idle again at the end of the signal.
pub proof fn lemma_word_round_trip(m: Model, w: usize)
    requires
        consistent(m),
        idle(m),
        m.config.nb_bits + 2 <= usize::BITS,
        m.config.channel < usize::BITS,
        w < pow2(m.config.nb_bits as nat),
    ensures
        run_out::<usize, usize, Uart>(m, signal_of_word(m.config, w)) == seq![w],
        idle(run_state::<usize, usize, Uart>(m, signal_of_word(m.config, w))),
        consistent(run_state::<usize, usize, Uart>(m, signal_of_word(m.config, w))),
        run_state::<usize, usize, Uart>(m, signal_of_word(m.config, w)).config == m.config,
{
    let c = m.config;
    let s = signal_of_word(c, w);
    let p = c.period as int;
    let n = c.nb_bits;
    let k = sample_point(c, n as int);
    lemma_data_bits(m, w, n as int);
    lemma_sample_point(c, n as int);
    // The stop bit.
    assert(s[k].level(c.channel) == 1) by {
        lemma_signal_level(c, w, k);
        lemma_frame_ends(n, w);
    }
    lemma_low_bits_all(w, n);
    lemma_at_next(m, s, k);
    assert(Seq::<usize>::empty().push(w) == seq![w]);
    assert(at(m, s, k + 1).state == State { reg: w, bit: n, skip: 0, mode: Mode::Idle });
    // The rest of the stop bit.
    let rest = s.len() - (k + 1);
    assert forall|i: int| k + 1 <= i < k + 1 + rest implies (#[trigger] s[i]).level(c.channel)
        == 1 by {
        lemma_signal_level(c, w, i);
        lemma_fundamental_div_mod_converse(i, p, n + 1, i - (n + 1) * p);
    }
    lemma_idling(m, s, k + 1, rest);
    assert(s.take(s.len() as int) == s);
}

/// Round trip: a framer that has seen nothing yet, fed the signal of a
/// sequence of words, produces exactly those words, in order. The words
/// must fit the data bits and the frame must fit a word of the bus.
pub proof fn lemma_round_trip(c: Config, words: Seq<usize>)
    requires
        usable(c),
        c.nb_bits + 2 <= usize::BITS,
        c.channel < usize::BITS,
        forall|i: int| 0 <= i < words.len() ==> #[trigger] words[i] < pow2(c.nb_bits as nat),
    ensures
        run_out::<usize, usize, Uart>(
            Model { config: c, state: initial_state() },
            signal_of(c, words),
        ) == words,
        idle(
            run_state::<usize, usize, Uart>(
                Model { config: c, state: initial_state() },
                signal_of(c, words),
            ),
        ),
{
    let m = Model { config: c, state: initial_state() };
    lemma_signals_decode(m, words);
}

/// The same from any idle state.
proof fn lemma_signals_decode(m: Model, words: Seq<usize>)
    requires
        consistent(m),
        idle(m),
        m.config.nb_bits + 2 <= usize::BITS,
        m.config.channel < usize::BITS,
        forall|i: int| 0 <= i < words.len() ==> #[trigger] words[i] < pow2(m.config.nb_bits as nat),
    ensures
        run_out::<usize, usize, Uart>(m, signal_of(m.config, words)) == words,
        idle(run_state::<usize, usize, Uart>(m, signal_of(m.config, words))),
        consistent(run_state::<usize, usize, Uart>(m, signal_of(m.config, words))),
        run_state::<usize, usize, Uart>(m, signal_of(m.config, words)).config == m.config,
    decreases words.len(),
{
    if words.len() > 0 {
        let front = words.drop_last();
        let c = m.config;
        assert forall|i: int| 0 <= i < front.len() implies #[trigger] front[i] < pow2(
            c.nb_bits as nat,
        ) by {
            assert(front[i] == words[i]);
        }
        lemma_signals_decode(m, front);
        let mid = run_state::<usize, usize, Uart>(m, signal_of(c, front));
        assert(words.last() == words[words.len() - 1]);
        lemma_word_round_trip(mid, words.last());
        lemma_run_concat::<usize, usize, Uart>(
            m,
            signal_of(c, front),
            signal_of_word(c, words.last()),
        );
        assert(front + seq![words.last()] == words);
    }
}

} // verus!
