//! Test signal building blocks.

use vstd::prelude::*;

verus! {

/// The low `nb_bits` bits of `value`, from the lowest up, each held for
/// `period` samples.
pub open spec fn oversampled(value: usize, nb_bits: nat, period: nat) -> Seq<usize>
    decreases nb_bits,
{
    if nb_bits == 0 {
        Seq::empty()
    } else {
        Seq::new(period, |k: int| value & 1) + oversampled(
            value >> 1usize,
            (nb_bits - 1) as nat,
            period,
        )
    }
}

/// An oversampled shift register: hands out the bits of a word one sample
/// at a time.
#[derive(Copy, Clone)]
pub struct ShiftReg {
    reg: usize,
    count: usize,
    bitcount: usize,
    period: usize,
}

impl ShiftReg {
    /// The register holds each bit for at least one sample.
    pub closed spec fn wf(&self) -> bool {
        self.period >= 1 && self.bitcount <= self.period
    }

    /// The samples still to come.
    pub closed spec fn rest(&self) -> Seq<usize> {
        if self.count == 0 {
            Seq::empty()
        } else {
            Seq::new(self.bitcount as nat, |k: int| self.reg & 1) + oversampled(
                self.reg >> 1usize,
                (self.count - 1) as nat,
                self.period as nat,
            )
        }
    }

    /// Hands out the next sample, or `None` when all bits are out.
    pub fn next(&mut self) -> (bit: Option<usize>)
        requires
            old(self).wf(),
        ensures
            final(self).wf(),
            match bit {
                Some(level) => {
                    &&& old(self).rest().len() > 0
                    &&& level == old(self).rest()[0]
                    &&& final(self).rest() == old(self).rest().drop_first()
                },
                None => old(self).rest().len() == 0 && final(self).rest().len() == 0,
            },
    {
        if self.count == 0 {
            return None;
        }
        if self.bitcount == 0 {
            self.count = self.count - 1;
            self.reg = self.reg >> 1usize;
            self.bitcount = self.period;
        }
        self.bitcount = self.bitcount - 1;
        if self.count == 0 {
            None
        } else {
            let rv: usize = self.reg & 1;
            proof {
                let held = Seq::new((self.bitcount + 1) as nat, |k: int| self.reg & 1);
                let tail = oversampled(
                    self.reg >> 1usize,
                    (self.count - 1) as nat,
                    self.period as nat,
                );
                assert((held + tail).drop_first() == Seq::new(
                    self.bitcount as nat,
                    |k: int| self.reg & 1,
                ) + tail);
                assert((held + tail)[0] == rv);
            }
            Some(rv)
        }
    }
}

/// Creates a shift register that hands out the low `nb_bits` bits of
/// `value`, each for `period` samples.
pub fn word_bits(nb_bits: usize, period: usize, value: usize) -> (sr: ShiftReg)
    requires
        period >= 1,
    ensures
        sr.wf(),
        sr.rest() == oversampled(value, nb_bits as nat, period as nat),
{
    ShiftReg { reg: value, count: nb_bits, bitcount: period, period: period }
}

/// The samples come in runs of `period`, one run per bit.
pub proof fn lemma_oversampled_len(value: usize, nb_bits: nat, period: nat)
    ensures
        oversampled(value, nb_bits, period).len() == nb_bits * period,
    decreases nb_bits,
{
    if nb_bits > 0 {
        lemma_oversampled_len(value >> 1usize, (nb_bits - 1) as nat, period);
        assert(nb_bits * period == period + (nb_bits - 1) * period) by (nonlinear_arith)
            requires
                nb_bits > 0,
        ;
    } else {
        assert(nb_bits * period == 0) by (nonlinear_arith)
            requires
                nb_bits == 0,
        ;
    }
}

/// Sample `k` carries the bit of `value` whose run it lies in.
pub proof fn lemma_oversampled_at(value: usize, nb_bits: nat, period: nat, k: int)
    requires
        nb_bits <= usize::BITS,
        period >= 1,
        0 <= k < nb_bits * period,
    ensures
        k / (period as int) < nb_bits,
        oversampled(value, nb_bits, period)[k] == (value >> ((k / (period as int)) as usize)) & 1,
    decreases nb_bits,
{
    let p = period as int;
    if nb_bits == 0 {
        assert(nb_bits * period == 0) by (nonlinear_arith)
            requires
                nb_bits == 0,
        ;
    } else {
        let tail = oversampled(value >> 1usize, (nb_bits - 1) as nat, period);
        lemma_oversampled_len(value >> 1usize, (nb_bits - 1) as nat, period);
        assert(nb_bits * period == period + (nb_bits - 1) * period) by (nonlinear_arith)
            requires
                nb_bits > 0,
        ;
        if k < p {
            vstd::arithmetic::div_mod::lemma_fundamental_div_mod_converse(k, p, 0, k);
            assert(value & 1 == (value >> 0usize) & 1) by (bit_vector);
        } else {
            lemma_oversampled_at(value >> 1usize, (nb_bits - 1) as nat, period, k - p);
            let q = (k - p) / p;
            vstd::arithmetic::div_mod::lemma_fundamental_div_mod(k - p, p);
            vstd::arithmetic::div_mod::lemma_mod_bound(k - p, p);
            assert(k == (q + 1) * p + (k - p) % p) by (nonlinear_arith)
                requires
                    k - p == p * q + (k - p) % p,
            ;
            vstd::arithmetic::div_mod::lemma_fundamental_div_mod_converse(
                k,
                p,
                q + 1,
                (k - p) % p,
            );
            let j = q as usize;
            let above = (q + 1) as usize;
            assert(((value >> 1usize) >> j) & 1 == (value >> above) & 1) by (bit_vector)
                requires
                    above == j + 1,
                    above < usize::BITS,
            ;
        }
    }
}

} // verus!
