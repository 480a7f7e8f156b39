//! Mipmap storage for fast zoom over a captured buffer.
//!
//! A plane holds one bit per channel and sample: in the "high" plane the
//! bit says that the channel was seen high, in the "low" plane that it was
//! seen low. Two planes together give every channel one of four codes
//! (neither, low, high, both), and the bitwise or of two words is the code
//! of the two samples taken together. A buffer of `2^n` words is reduced
//! in place: level 1 halves the buffer, level 2 halves level 1, and so on
//! up to level `n`, which is a single word.
//!
//! The levels are packed into the buffer one after the other. The address
//! of the first word of each level, in binary, is
//!
//! ```text
//! 0.....  level 1
//! 10....  level 2
//! 110...  level 3
//! 1110..
//! 11110.
//! ```
//!
//! where the dots carry the high bits of the address of the sample.

use vstd::prelude::*;
use vstd::arithmetic::power2::{
    lemma2_to64,
    lemma_pow2_adds,
    lemma_pow2_pos,
    lemma_pow2_strictly_increases,
    lemma_pow2_unfold,
    pow2,
};
use vstd::bits::lemma_usize_shr_is_div;
use crate::bits::{lemma_one_shl, lemma_pow2_fits};

verus! {

/// A word of a plane: one bit per channel.
pub trait MipMap: Sized {
    /// Number of channels a word holds.
    spec fn width() -> nat;

    /// Whether channel `c` is marked in this word.
    spec fn marked(&self, c: usize) -> bool;

    /// The word that marks what this word or `other` marks.
    spec fn joined(&self, other: &Self) -> Self;

    /// The low and the high plane word of a raw sample: the high word is
    /// the sample, the low word its complement.
    spec fn split(&self) -> (Self, Self);

    /// A channel is marked in a joined word exactly if it is marked in one
    /// of the two words.
    proof fn lemma_joined_marks(&self, other: &Self, c: usize)
        ensures
            self.joined(other).marked(c) == (self.marked(c) || other.marked(c)),
    ;

    /// The high word of a sample is the sample itself. Of the channels the
    /// word has, the low word marks those that the sample does not.
    proof fn lemma_split_marks(&self, c: usize)
        ensures
            self.split().1 == *self,
            c < Self::width() ==> self.split().0.marked(c) == !self.marked(c),
    ;

    /// Raw sample to level 0.
    fn plane_init(&self) -> (planes: (Self, Self))
        ensures
            planes == self.split(),
    ;

    /// Level n to level n + 1.
    fn plane_or(&self, other: &Self) -> (both: Self)
        ensures
            both == self.joined(other),
    ;
}

impl MipMap for usize {
    open spec fn width() -> nat {
        usize::BITS as nat
    }

    open spec fn marked(&self, c: usize) -> bool {
        (*self >> c) & 1 == 1
    }

    open spec fn joined(&self, other: &usize) -> usize {
        *self | *other
    }

    open spec fn split(&self) -> (usize, usize) {
        (!*self, *self)
    }

    proof fn lemma_joined_marks(&self, other: &usize, c: usize) {
        let a = *self;
        let b = *other;
        assert((((a | b) >> c) & 1 == 1) == (((a >> c) & 1 == 1) || ((b >> c) & 1 == 1)))
            by (bit_vector);
    }

    proof fn lemma_split_marks(&self, c: usize) {
        let a = *self;
        assert(c < usize::BITS ==> (((!a >> c) & 1 == 1) == !((a >> c) & 1 == 1))) by (bit_vector);
    }

    fn plane_init(&self) -> (planes: (usize, usize)) {
        let bit1: usize = *self;
        let bit0: usize = !bit1;
        (bit0, bit1)
    }

    fn plane_or(&self, other: &usize) -> (both: usize) {
        (*self) | (*other)
    }
}

impl MipMap for u8 {
    open spec fn width() -> nat {
        8
    }

    open spec fn marked(&self, c: usize) -> bool {
        (*self >> c) & 1 == 1
    }

    open spec fn joined(&self, other: &u8) -> u8 {
        *self | *other
    }

    open spec fn split(&self) -> (u8, u8) {
        (!*self, *self)
    }

    proof fn lemma_joined_marks(&self, other: &u8, c: usize) {
        let a = *self;
        let b = *other;
        assert((((a | b) >> c) & 1 == 1) == (((a >> c) & 1 == 1) || ((b >> c) & 1 == 1)))
            by (bit_vector);
    }

    proof fn lemma_split_marks(&self, c: usize) {
        let a = *self;
        assert(c < 8 ==> (((!a >> c) & 1 == 1) == !((a >> c) & 1 == 1))) by (bit_vector);
    }

    fn plane_init(&self) -> (planes: (u8, u8)) {
        let bit1: u8 = *self;
        let bit0: u8 = !bit1;
        (bit0, bit1)
    }

    fn plane_or(&self, other: &u8) -> (both: u8) {
        (*self) | (*other)
    }
}

impl MipMap for u16 {
    open spec fn width() -> nat {
        16
    }

    open spec fn marked(&self, c: usize) -> bool {
        (*self >> c) & 1 == 1
    }

    open spec fn joined(&self, other: &u16) -> u16 {
        *self | *other
    }

    open spec fn split(&self) -> (u16, u16) {
        (!*self, *self)
    }

    proof fn lemma_joined_marks(&self, other: &u16, c: usize) {
        let a = *self;
        let b = *other;
        assert((((a | b) >> c) & 1 == 1) == (((a >> c) & 1 == 1) || ((b >> c) & 1 == 1)))
            by (bit_vector);
    }

    proof fn lemma_split_marks(&self, c: usize) {
        let a = *self;
        assert(c < 16 ==> (((!a >> c) & 1 == 1) == !((a >> c) & 1 == 1))) by (bit_vector);
    }

    fn plane_init(&self) -> (planes: (u16, u16)) {
        let bit1: u16 = *self;
        let bit0: u16 = !bit1;
        (bit0, bit1)
    }

    fn plane_or(&self, other: &u16) -> (both: u16) {
        (*self) | (*other)
    }
}

impl MipMap for u32 {
    open spec fn width() -> nat {
        32
    }

    open spec fn marked(&self, c: usize) -> bool {
        (*self >> c) & 1 == 1
    }

    open spec fn joined(&self, other: &u32) -> u32 {
        *self | *other
    }

    open spec fn split(&self) -> (u32, u32) {
        (!*self, *self)
    }

    proof fn lemma_joined_marks(&self, other: &u32, c: usize) {
        let a = *self;
        let b = *other;
        assert((((a | b) >> c) & 1 == 1) == (((a >> c) & 1 == 1) || ((b >> c) & 1 == 1)))
            by (bit_vector);
    }

    proof fn lemma_split_marks(&self, c: usize) {
        let a = *self;
        assert(c < 32 ==> (((!a >> c) & 1 == 1) == !((a >> c) & 1 == 1))) by (bit_vector);
    }

    fn plane_init(&self) -> (planes: (u32, u32)) {
        let bit1: u32 = *self;
        let bit0: u32 = !bit1;
        (bit0, bit1)
    }

    fn plane_or(&self, other: &u32) -> (both: u32) {
        (*self) | (*other)
    }
}

impl MipMap for u64 {
    open spec fn width() -> nat {
        64
    }

    open spec fn marked(&self, c: usize) -> bool {
        (*self >> c) & 1 == 1
    }

    open spec fn joined(&self, other: &u64) -> u64 {
        *self | *other
    }

    open spec fn split(&self) -> (u64, u64) {
        (!*self, *self)
    }

    proof fn lemma_joined_marks(&self, other: &u64, c: usize) {
        let a = *self;
        let b = *other;
        assert((((a | b) >> c) & 1 == 1) == (((a >> c) & 1 == 1) || ((b >> c) & 1 == 1)))
            by (bit_vector);
    }

    proof fn lemma_split_marks(&self, c: usize) {
        let a = *self;
        assert(c < 64 ==> (((!a >> c) & 1 == 1) == !((a >> c) & 1 == 1))) by (bit_vector);
    }

    fn plane_init(&self) -> (planes: (u64, u64)) {
        let bit1: u64 = *self;
        let bit0: u64 = !bit1;
        (bit0, bit1)
    }

    fn plane_or(&self, other: &u64) -> (both: u64) {
        (*self) | (*other)
    }
}

/// The least `log` such that `x` is at most `2^log`.
pub fn log2_upper(x: usize) -> (log: usize)
    requires
        x >= 1,
    ensures
        x <= pow2(log as nat),
        log > 0 ==> pow2((log - 1) as nat) < x,
        log <= usize::BITS,
{
    let mut v: usize = x - 1;
    let mut log: usize = 0;
    proof {
        lemma2_to64();
    }
    while v != 0
        invariant
            x >= 1,
            log <= usize::BITS,
            v as int == (x - 1) / (pow2(log as nat) as int),
            log > 0 ==> pow2((log - 1) as nat) <= x - 1,
        decreases v,
    {
        proof {
            let a: int = x - 1;
            let d: int = pow2(log as nat) as int;
            lemma_pow2_pos(log as nat);
            assert(a >= d) by (nonlinear_arith)
                requires
                    d > 0,
                    a >= 0,
                    a / d >= 1,
            ;
            lemma_pow2_fits(log as nat);
            lemma_pow2_unfold((log + 1) as nat);
            assert((a / d) / 2 == a / (d * 2)) by {
                vstd::arithmetic::div_mod::lemma_div_denominator(a, d, 2);
            }
            assert(v >> 1 == v / 2) by (bit_vector);
        }
        log = log + 1;
        v = v >> 1;
    }
    proof {
        let a: int = x - 1;
        let d: int = pow2(log as nat) as int;
        lemma_pow2_pos(log as nat);
        assert(a < d) by (nonlinear_arith)
            requires
                d > 0,
                a >= 0,
                a / d == 0,
        ;
    }
    log
}

/// Index of the first slot of a level in a buffer of `2^nb_levels` slots.
/// Level 0 is the buffer itself, before any reduction.
pub open spec fn level_base(level: nat, nb_levels: nat) -> nat {
    if level == 0 {
        0
    } else {
        (pow2(nb_levels) - pow2((nb_levels - level + 1) as nat)) as nat
    }
}

/// Number of slots of a level in a buffer of `2^nb_levels` slots.
pub open spec fn level_len(level: nat, nb_levels: nat) -> nat {
    pow2((nb_levels - level) as nat)
}

/// The slot of level `level` that covers the sample at `index`, in a buffer
/// of `2^nb_levels` slots. Bits of `index` beyond the buffer are ignored.
pub fn level_offset(index: usize, level: usize, nb_levels: usize) -> (addr: usize)
    requires
        level <= nb_levels < usize::BITS,
        level == 0 ==> nb_levels + 1 < usize::BITS,
    ensures
        addr == level_base(level as nat, nb_levels as nat) + (index as nat % pow2(
            nb_levels as nat,
        )) / pow2(level as nat),
        addr < pow2(nb_levels as nat),
{
    let ghost size = pow2(nb_levels as nat);
    let ghost below = (index as nat % size) / pow2(level as nat);
    proof {
        lemma_one_shl(nb_levels);
        lemma_pow2_pos(nb_levels as nat);
    }
    let mask: usize = (1usize << nb_levels) - 1;
    let shift: usize = nb_levels - level + 1;
    let left_ones: usize = (!0usize) << shift;
    let trunc_addr: usize = (index & mask) >> level;
    proof {
        assert(index & mask == index as nat % size) by {
            vstd::bits::lemma_usize_low_bits_mask_is_mod(index, nb_levels as nat);
        }
        lemma_usize_shr_is_div(index & mask, level);
        assert(trunc_addr == below);
        // The level has 2^(nb_levels - level) slots.
        let within = pow2((nb_levels - level) as nat);
        lemma_pow2_adds(level as nat, (nb_levels - level) as nat);
        lemma_pow2_pos(level as nat);
        assert(below < within) by (nonlinear_arith)
            requires
                below == (index as nat % size) / pow2(level as nat),
                index as nat % size < size,
                size == pow2(level as nat) * within,
                pow2(level as nat) > 0,
        ;
        lemma_one_shl((nb_levels - level) as usize);
        if level == 0 {
            assert(((!0usize << shift) | trunc_addr) & mask == trunc_addr) by (bit_vector)
                requires
                    shift == nb_levels + 1,
                    shift < usize::BITS,
                    mask == (1usize << nb_levels) - 1,
                    trunc_addr < (1usize << nb_levels),
            ;
        } else {
            lemma_one_shl(shift);
            lemma_pow2_unfold(shift as nat);
            let under: usize = (shift - 1) as usize;
            assert(((!0usize << shift) | trunc_addr) & mask == (1usize << nb_levels) - (1usize
                << shift) + trunc_addr) by (bit_vector)
                requires
                    1 <= shift <= nb_levels,
                    nb_levels < usize::BITS,
                    mask == (1usize << nb_levels) - 1,
                    under == shift - 1,
                    trunc_addr < (1usize << under),
            ;
            lemma_pow2_strictly_increases((shift - 1) as nat, shift as nat);
            if shift < nb_levels {
                lemma_pow2_strictly_increases(shift as nat, nb_levels as nat);
            }
        }
    }
    let addr: usize = (left_ones | trunc_addr) & mask;
    addr
}

/// First slot and number of slots of a level in a buffer of `2^nb_levels`
/// slots.
pub fn level_o_n(level: usize, nb_levels: usize) -> (on: (usize, usize))
    requires
        level <= nb_levels < usize::BITS,
        level == 0 ==> nb_levels + 1 < usize::BITS,
    ensures
        on.0 == level_base(level as nat, nb_levels as nat),
        on.1 == level_len(level as nat, nb_levels as nat),
{
    let o: usize = level_offset(0, level, nb_levels);
    proof {
        lemma_pow2_pos(nb_levels as nat);
        lemma_pow2_pos(level as nat);
        assert(0nat % pow2(nb_levels as nat) == 0) by (nonlinear_arith)
            requires
                pow2(nb_levels as nat) > 0,
        ;
        assert(0nat / pow2(level as nat) == 0) by (nonlinear_arith)
            requires
                pow2(level as nat) > 0,
        ;
        lemma_one_shl((nb_levels - level) as usize);
    }
    let n: usize = 1usize << (nb_levels - level);
    (o, n)
}

/// The number of reduction levels of a buffer of `len` slots, where `len`
/// is a power of two: the exponent.
pub open spec fn levels_of(len: nat) -> nat {
    choose|n: nat| len == pow2(n)
}

/// Slot `i` of level `level` of the pyramid over the buffer `raw`: level 0
/// is the buffer, and each slot of a higher level joins two adjacent slots
/// of the level below.
pub open spec fn reduced<M: MipMap>(raw: Seq<M>, level: nat, i: int) -> M
    decreases level,
{
    if level == 0 {
        raw[i]
    } else {
        reduced(raw, (level - 1) as nat, 2 * i).joined(
            &reduced(raw, (level - 1) as nat, 2 * i + 1),
        )
    }
}

/// `store` is the reduction of the buffer `raw` of `2^n` words: it holds
/// levels 1 to `n` of the pyramid over `raw`, each at its place, and in
/// its last slot, which belongs to no level, what `raw` holds there.
pub open spec fn is_pyramid<M: MipMap>(store: Seq<M>, raw: Seq<M>) -> bool {
    let n = levels_of(raw.len());
    &&& store.len() == raw.len()
    &&& forall|level: nat, i: int|
        1 <= level <= n && 0 <= i < level_len(level, n) ==> store[level_base(level, n) + i]
            == #[trigger] reduced(raw, level, i)
    &&& store[raw.len() - 1] == raw[raw.len() - 1]
}

/// Two powers of two are equal only if their exponents are.
proof fn lemma_pow2_injective(a: nat, b: nat)
    requires
        pow2(a) == pow2(b),
    ensures
        a == b,
{
    if a < b {
        lemma_pow2_strictly_increases(a, b);
    } else if b < a {
        lemma_pow2_strictly_increases(b, a);
    }
}

/// The least exponent whose power of two reaches `2^n` is `n`.
proof fn lemma_least_exponent(n: nat, log: nat)
    requires
        pow2(n) <= pow2(log),
        log > 0 ==> pow2((log - 1) as nat) < pow2(n),
    ensures
        log == n,
{
    if log > 0 && n < log - 1 {
        lemma_pow2_strictly_increases(n, (log - 1) as nat);
    }
    if log < n {
        lemma_pow2_strictly_increases(log, n);
    }
}

/// A buffer of `2^n` slots has `n` reduction levels.
pub proof fn lemma_levels_of_pow2(n: nat)
    ensures
        levels_of(pow2(n)) == n,
{
    lemma_pow2_injective(levels_of(pow2(n)), n);
}

/// Each level is half as long as the one below, and the levels from 1 on
/// follow one another in the buffer: behind level `level` there is room
/// for exactly as many slots as it has.
pub proof fn lemma_level_geometry(level: nat, nb_levels: nat)
    requires
        1 <= level <= nb_levels,
    ensures
        level_len(level, nb_levels) >= 1,
        level_len((level - 1) as nat, nb_levels) == 2 * level_len(level, nb_levels),
        level_base(level, nb_levels) + 2 * level_len(level, nb_levels) == pow2(nb_levels),
        level >= 2 ==> level_base(level, nb_levels) == level_base((level - 1) as nat, nb_levels)
            + level_len((level - 1) as nat, nb_levels),
{
    let within = (nb_levels - level) as nat;
    lemma_pow2_pos(within);
    lemma_pow2_unfold(within + 1);
    lemma_pow2_unfold(within + 2);
    if within + 1 < nb_levels {
        lemma_pow2_strictly_increases(within + 1, nb_levels);
    }
    if level >= 2 && within + 2 < nb_levels {
        lemma_pow2_strictly_increases(within + 2, nb_levels);
    }
}

/// Builds one level from the level below: every slot of level `level`
/// becomes the join of the two slots of level `level - 1` that it covers.
/// Level 1 is built over the buffer itself and takes the place of its
/// first half. No other slot changes.
pub fn build_single<M: MipMap>(store: &mut [M], level: usize)
    requires
        exists|n: nat| old(store)@.len() == pow2(n),
        1 <= level <= levels_of(old(store)@.len()),
    ensures
        final(store)@.len() == old(store)@.len(),
        ({
            let n = levels_of(old(store)@.len());
            let fine = level_base((level - 1) as nat, n) as int;
            let coarse = level_base(level as nat, n) as int;
            forall|i: int|
                0 <= i < old(store)@.len() ==> #[trigger] final(store)@[i] == if coarse <= i
                    < coarse + level_len(level as nat, n) {
                    old(store)@[fine + 2 * (i - coarse)].joined(
                        &old(store)@[fine + 2 * (i - coarse) + 1],
                    )
                } else {
                    old(store)@[i]
                }
        }),
{
    let ghost n = levels_of(store@.len());
    proof {
        lemma_pow2_pos(n);
    }
    let nb_levels: usize = log2_upper(store.len());
    proof {
        lemma_least_exponent(n, nb_levels as nat);
        lemma_pow2_fits(n);
        lemma_level_geometry(level as nat, n);
    }
    // o: offset, n: number of elements; c: coarse, f: fine
    let f_o: usize = if level == 1 {
        0
    } else {
        level_o_n(level - 1, nb_levels).0
    };
    let (c_o, c_n) = level_o_n(level, nb_levels);
    for c_i in 0..c_n
        invariant
            store@.len() == old(store)@.len(),
            store@.len() == pow2(n),
            pow2(n) <= usize::MAX,
            1 <= level <= n,
            f_o == level_base((level - 1) as nat, n),
            c_o == level_base(level as nat, n),
            c_n == level_len(level as nat, n),
            c_o + 2 * c_n == pow2(n),
            level >= 2 ==> c_o == f_o + 2 * c_n,
            forall|i: int|
                0 <= i < store@.len() ==> #[trigger] store@[i] == if c_o <= i < c_o + c_i {
                    old(store)@[f_o + 2 * (i - c_o)].joined(&old(store)@[f_o + 2 * (i - c_o) + 1])
                } else {
                    old(store)@[i]
                },
    {
        let f_i: usize = 2 * c_i;
        let both: M = store[f_o + f_i].plane_or(&store[f_o + f_i + 1]);
        store[c_o + c_i] = both;
    }
}

/// Reduces a buffer in place. The buffer must hold `2^n` words of a plane.
/// Afterwards it holds levels 1 to `n` of the pyramid over those words,
/// each at its place, and its last slot as it was.
pub fn mipmap<M: MipMap>(store: &mut [M])
    requires
        exists|n: nat| old(store)@.len() == pow2(n),
    ensures
        is_pyramid(final(store)@, old(store)@),
{
    let ghost n = levels_of(store@.len());
    proof {
        lemma_pow2_pos(n);
    }
    let levels: usize = log2_upper(store.len());
    proof {
        lemma_least_exponent(n, levels as nat);
    }
    for level in 1..levels + 1
        invariant
            levels == n,
            levels <= usize::BITS,
            store@.len() == old(store)@.len(),
            store@.len() == pow2(n),
            levels_of(store@.len()) == n,
            level == 1 ==> store@ == old(store)@,
            forall|k: nat, i: int|
                1 <= k < level && 0 <= i < level_len(k, n) ==> store@[level_base(k, n) + i]
                    == #[trigger] reduced(old(store)@, k, i),
            store@[store@.len() - 1] == old(store)@[store@.len() - 1],
    {
        let ghost before = store@;
        build_single(store, level);
        proof {
            lemma_level_geometry(level as nat, n);
            let fine = level_base((level - 1) as nat, n) as int;
            let coarse = level_base(level as nat, n) as int;
            assert forall|k: nat, i: int|
                1 <= k < level + 1 && 0 <= i < level_len(k, n) implies store@[level_base(k, n)
                + i] == #[trigger] reduced(old(store)@, k, i) by {
                if k == level {
                    let at = coarse + i;
                    assert(store@[at] == before[fine + 2 * i].joined(&before[fine + 2 * i + 1]));
                    if level == 1 {
                        assert(reduced(old(store)@, 0, 2 * i) == before[2 * i]);
                        assert(reduced(old(store)@, 0, 2 * i + 1) == before[2 * i + 1]);
                    } else {
                        assert(before[fine + 2 * i] == reduced(
                            old(store)@,
                            (level - 1) as nat,
                            2 * i,
                        ));
                        assert(before[fine + 2 * i + 1] == reduced(
                            old(store)@,
                            (level - 1) as nat,
                            2 * i + 1,
                        ));
                    }
                } else {
                    lemma_levels_stacked(k, level as nat, n);
                    assert(store@[level_base(k, n) + i] == before[level_base(k, n) + i]);
                }
            }
        }
    }
}

/// A lower level ends where the next one begins, so it ends before any
/// higher level begins.
proof fn lemma_levels_stacked(low: nat, high: nat, nb_levels: nat)
    requires
        1 <= low < high <= nb_levels,
    ensures
        level_base(low, nb_levels) + level_len(low, nb_levels) <= level_base(high, nb_levels),
    decreases high - low,
{
    lemma_level_geometry(high, nb_levels);
    lemma_level_geometry(low, nb_levels);
    if low + 1 < high {
        lemma_levels_stacked(low, (high - 1) as nat, nb_levels);
    }
}

/// Reduction never loses a mark: a channel marked in a slot of some level
/// is marked in the slot of every higher level that covers it.
pub proof fn lemma_mark_survives<M: MipMap>(raw: Seq<M>, level: nat, up: nat, i: int, c: usize)
    requires
        0 <= i,
        reduced(raw, level, i).marked(c),
    ensures
        reduced(raw, level + up, i / (pow2(up) as int)).marked(c),
    decreases up,
{
    if up == 0 {
        lemma2_to64();
    } else {
        let below = (up - 1) as nat;
        lemma_mark_survives(raw, level, below, i, c);
        lemma_pow2_pos(below);
        lemma_pow2_unfold(up);
        let j = i / (pow2(below) as int);
        let k = i / (pow2(up) as int);
        assert(k == j / 2) by {
            vstd::arithmetic::div_mod::lemma_div_denominator(i, pow2(below) as int, 2);
        }
        let left = reduced(raw, level + below, 2 * k);
        let right = reduced(raw, level + below, 2 * k + 1);
        assert(reduced(raw, level + up, k) == left.joined(&right));
        left.lemma_joined_marks(&right, c);
        assert(j == 2 * k || j == 2 * k + 1);
    }
}

/// In a reduced buffer a mark is never lost on the way up: a channel
/// marked in a slot of some level is marked in the slot of every higher
/// level that covers it.
pub proof fn lemma_pyramid_keeps_marks<M: MipMap>(
    store: Seq<M>,
    raw: Seq<M>,
    level: nat,
    up: nat,
    i: int,
    c: usize,
)
    requires
        exists|n: nat| raw.len() == pow2(n),
        is_pyramid(store, raw),
        1 <= level,
        level + up <= levels_of(raw.len()),
        0 <= i < level_len(level, levels_of(raw.len())),
        store[level_base(level, levels_of(raw.len())) + i].marked(c),
    ensures
        0 <= i / (pow2(up) as int) < level_len(level + up, levels_of(raw.len())),
        store[level_base(level + up, levels_of(raw.len())) + i / (pow2(up) as int)].marked(c),
{
    let n = levels_of(raw.len());
    let within = (n - level - up) as nat;
    lemma_pow2_pos(up);
    lemma_pow2_adds(up, within);
    let j = i / (pow2(up) as int);
    assert(0 <= j < pow2(within)) by (nonlinear_arith)
        requires
            j == i / (pow2(up) as int),
            0 <= i < pow2(up) * pow2(within),
            pow2(up) > 0,
    ;
    assert(store[level_base(level, n) + i] == reduced(raw, level, i));
    lemma_mark_survives(raw, level, up, i, c);
    assert(store[level_base(level + up, n) + j] == reduced(raw, level + up, j));
}

/// Splits raw samples into the words of the low and of the high plane.
pub fn planes<M: MipMap>(samples: &[M]) -> (both: (Vec<M>, Vec<M>))
    ensures
        both.0@.len() == samples@.len(),
        both.1@.len() == samples@.len(),
        forall|i: int|
            0 <= i < samples@.len() ==> (both.0@[i], both.1@[i]) == (#[trigger] samples@[i]).split(),
{
    let mut low: Vec<M> = Vec::new();
    let mut high: Vec<M> = Vec::new();
    for i in 0..samples.len()
        invariant
            low@.len() == i,
            high@.len() == i,
            forall|j: int|
                0 <= j < i ==> (low@[j], high@[j]) == (#[trigger] samples@[j]).split(),
    {
        let (bit0, bit1) = samples[i].plane_init();
        low.push(bit0);
        high.push(bit1);
    }
    (low, high)
}

} // verus!
