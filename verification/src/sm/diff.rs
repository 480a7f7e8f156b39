//! Edge-difference filter: passes a sample on only when it differs from
//! the one before.

use vstd::prelude::*;
use crate::bus::Bus;
use crate::sm::{run_out, run_state, Push};

verus! {

/// The memory of the filter: the previous sample.
#[derive(Copy, Clone)]
pub struct State {
    last: usize,
}

impl View for State {
    type V = usize;

    /// The previous sample.
    closed spec fn view(&self) -> usize {
        self.last
    }
}

/// Creates a filter whose previous sample is the all-zero word.
pub fn init() -> (state: State)
    ensures
        state@ == 0,
{
    State { last: 0 }
}

impl<B: Bus> Push<B, usize> for State {
    open spec fn inv(m: usize) -> bool {
        true
    }

    open spec fn step(m: usize, input: B) -> usize {
        input.word()
    }

    open spec fn emit(m: usize, input: B) -> Option<usize> {
        if input.word() != m {
            Some(input.word())
        } else {
            None
        }
    }

    proof fn lemma_step_keeps_inv(m: usize, input: B) {
    }

    fn push(&mut self, input_bus: B) -> (out: Option<usize>) {
        let input: usize = input_bus.as_usize();
        let last: usize = self.last;
        let x: usize = input ^ last;
        assert((x == 0) == (input == last)) by (bit_vector)
            requires
                x == input ^ last,
        ;
        self.last = input;
        if x == 0 {
            None
        } else {
            Some(input)
        }
    }
}

/// Feeding the same sample twice in a row yields nothing on the second
/// tick, whatever the filter remembered before.
pub proof fn lemma_repeat_is_silent<B: Bus>(m: usize, sample: B)
    ensures
        <State as Push<B, usize>>::emit(<State as Push<B, usize>>::step(m, sample), sample)
            is None,
{
}

/// Samples that all carry the word the filter remembers yield nothing.
pub proof fn lemma_same_is_silent<B: Bus>(m: usize, ins: Seq<B>)
    requires
        forall|i: int| 0 <= i < ins.len() ==> (#[trigger] ins[i]).word() == m,
    ensures
        run_out::<B, usize, State>(m, ins) == Seq::<usize>::empty(),
        ins.len() > 0 ==> run_state::<B, usize, State>(m, ins) == m,
    decreases ins.len(),
{
    if ins.len() > 0 {
        lemma_same_is_silent::<B>(m, ins.drop_last());
        assert(ins.last().word() == m);
        if ins.len() > 1 {
            assert(ins.drop_last().last() == ins[ins.len() - 2]);
        }
    }
}

/// Any number of identical samples, fed after a sample with a different
/// word, yield exactly one item in total: that word, on the first of them.
pub proof fn lemma_run_emits_once<B: Bus>(m: usize, ins: Seq<B>)
    requires
        ins.len() >= 1,
        ins[0].word() != m,
        forall|i: int| 0 <= i < ins.len() ==> (#[trigger] ins[i]).word() == ins[0].word(),
    ensures
        run_out::<B, usize, State>(m, ins) == seq![ins[0].word()],
        run_state::<B, usize, State>(m, ins) == ins[0].word(),
    decreases ins.len(),
{
    let word = ins[0].word();
    if ins.len() == 1 {
        assert(ins.drop_last() == Seq::<B>::empty());
        assert(run_out::<B, usize, State>(m, ins.drop_last()) == Seq::<usize>::empty());
        assert(ins.last() == ins[0]);
        assert(Seq::<usize>::empty().push(word) == seq![word]);
    } else {
        let front = ins.drop_last();
        assert(front[0] == ins[0]);
        assert forall|i: int| 0 <= i < front.len() implies (#[trigger] front[i]).word()
            == front[0].word() by {
            assert(front[i] == ins[i]);
        }
        lemma_run_emits_once::<B>(m, front);
        assert(ins.last().word() == word);
    }
}

} // verus!
