//! Push-driven state machines for logic analysis, and the combinator that
//! runs one over a buffer of samples.

use vstd::prelude::*;

// Many state machines operate on input busses.
pub use crate::bus::Bus;

pub mod diff;
pub mod slip;
pub mod syncser;
pub mod uart;

verus! {

/// A state machine that takes the next input item and possibly produces a
/// higher-level parsed item.
///
/// The behaviour of an implementation is given on its view: `step` is the
/// state after an input, `emit` what that input produces.
pub trait Push<I, O: View>: View {
    /// The states in which the machine may be pushed.
    spec fn inv(m: Self::V) -> bool;

    /// The state after `input` has been consumed in state `m`.
    spec fn step(m: Self::V, input: I) -> Self::V;

    /// The item, if any, that consuming `input` in state `m` produces.
    spec fn emit(m: Self::V, input: I) -> Option<O::V>;

    /// A step never leaves the states in which the machine may be pushed.
    proof fn lemma_step_keeps_inv(m: Self::V, input: I)
        requires
            Self::inv(m),
        ensures
            Self::inv(Self::step(m, input)),
    ;

    /// Consumes one input item.
    fn push(&mut self, input: I) -> (out: Option<O>)
        requires
            Self::inv(old(self)@),
        ensures
            Self::inv(final(self)@),
            final(self)@ == Self::step(old(self)@, input),
            out matches Some(o) ==> Self::emit(old(self)@, input) == Some(o@),
            out is None ==> Self::emit(old(self)@, input) is None,
    ;
}

/// The state of a machine started in `m` after it has consumed `ins` in order.
pub open spec fn run_state<I, O: View, SM: Push<I, O>>(m: SM::V, ins: Seq<I>) -> SM::V
    decreases ins.len(),
{
    if ins.len() == 0 {
        m
    } else {
        SM::step(run_state::<I, O, SM>(m, ins.drop_last()), ins.last())
    }
}

/// The items a machine started in `m` produces while it consumes `ins`, in order.
pub open spec fn run_out<I, O: View, SM: Push<I, O>>(m: SM::V, ins: Seq<I>) -> Seq<O::V>
    decreases ins.len(),
{
    if ins.len() == 0 {
        Seq::empty()
    } else {
        let before = run_out::<I, O, SM>(m, ins.drop_last());
        match SM::emit(run_state::<I, O, SM>(m, ins.drop_last()), ins.last()) {
            Some(item) => before.push(item),
            None => before,
        }
    }
}

/// Running over one more input is one more step.
pub proof fn lemma_run_push<I, O: View, SM: Push<I, O>>(m: SM::V, ins: Seq<I>, input: I)
    ensures
        run_state::<I, O, SM>(m, ins.push(input)) == SM::step(
            run_state::<I, O, SM>(m, ins),
            input,
        ),
        run_out::<I, O, SM>(m, ins.push(input)) == match SM::emit(
            run_state::<I, O, SM>(m, ins),
            input,
        ) {
            Some(item) => run_out::<I, O, SM>(m, ins).push(item),
            None => run_out::<I, O, SM>(m, ins),
        },
{
    assert(ins.push(input).drop_last() == ins);
}

/// Running over two buffers in a row is running over the first and then,
/// from the state that leaves, over the second.
pub proof fn lemma_run_concat<I, O: View, SM: Push<I, O>>(m: SM::V, a: Seq<I>, b: Seq<I>)
    ensures
        run_state::<I, O, SM>(m, a + b) == run_state::<I, O, SM>(
            run_state::<I, O, SM>(m, a),
            b,
        ),
        run_out::<I, O, SM>(m, a + b) == run_out::<I, O, SM>(m, a) + run_out::<I, O, SM>(
            run_state::<I, O, SM>(m, a),
            b,
        ),
    decreases b.len(),
{
    if b.len() == 0 {
        assert(a + b == a);
    } else {
        lemma_run_concat::<I, O, SM>(m, a, b.drop_last());
        assert((a + b).drop_last() == a + b.drop_last());
    }
}

/// A run never leaves the states in which the machine may be pushed.
pub proof fn lemma_run_keeps_inv<I, O: View, SM: Push<I, O>>(m: SM::V, ins: Seq<I>)
    requires
        SM::inv(m),
    ensures
        SM::inv(run_state::<I, O, SM>(m, ins)),
    decreases ins.len(),
{
    if ins.len() > 0 {
        lemma_run_keeps_inv::<I, O, SM>(m, ins.drop_last());
        SM::lemma_step_keeps_inv(run_state::<I, O, SM>(m, ins.drop_last()), ins.last());
    }
}

/// The views of a sequence of items.
pub open spec fn views<O: View>(items: Seq<O>) -> Seq<O::V> {
    items.map_values(|item: O| item@)
}

/// A sequence of word-sized items is its own view.
pub proof fn lemma_views_of_words(items: Seq<usize>)
    ensures
        views(items) == items,
{
}

/// A decoder being run over a buffer of inputs: `pos` of them are consumed.
///
/// The decoder is borrowed for as long as the run lasts and holds the
/// state it reached when the run is dropped.
pub struct Apply<'a, In, SM> {
    /// The decoder.
    pub sm: &'a mut SM,
    /// The inputs of the run.
    pub ins: &'a [In],
    /// How many of them the decoder has consumed.
    pub pos: usize,
}

impl<'a, In, SM> Apply<'a, In, SM> {
    /// The inputs that have not been consumed yet.
    pub open spec fn rest(&self) -> Seq<In> {
        self.ins@.skip(self.pos as int)
    }
}

/// Applies a state machine to a buffer of inputs. Nothing is consumed
/// until an item is asked for.
pub fn apply<'a, In, SM>(sm: &'a mut SM, ins: &'a [In]) -> (run: Apply<'a, In, SM>)
    ensures
        *run.sm == *old(sm),
        *final(run.sm) == *final(sm),
        run.ins@ == ins@,
        run.pos == 0,
        run.rest() == ins@,
{
    Apply { sm, ins, pos: 0 }
}

impl<'a, In: Copy, SM> Apply<'a, In, SM> {
    /// Advances the decoder over as many inputs as it takes to produce one
    /// item, and returns that item; returns `None` once the inputs are
    /// used up.
    pub fn next<Out: View>(&mut self) -> (out: Option<Out>) where SM: Push<In, Out>
        requires
            old(self).pos <= old(self).ins@.len(),
            SM::inv(old(self).sm@),
        ensures
            final(self).ins@ == old(self).ins@,
            *final(final(self).sm) == *final(old(self).sm),
            old(self).pos <= final(self).pos <= old(self).ins@.len(),
            SM::inv(final(self).sm@),
            ({
                let eaten = old(self).ins@.subrange(old(self).pos as int, final(self).pos as int);
                &&& final(self).sm@ == run_state::<In, Out, SM>(old(self).sm@, eaten)
                &&& match out {
                    Some(item) => {
                        &&& eaten.len() > 0
                        &&& run_out::<In, Out, SM>(old(self).sm@, eaten.drop_last()).len() == 0
                        &&& SM::emit(
                            run_state::<In, Out, SM>(old(self).sm@, eaten.drop_last()),
                            eaten.last(),
                        ) == Some(item@)
                    },
                    None => {
                        &&& final(self).pos == old(self).ins@.len()
                        &&& run_out::<In, Out, SM>(old(self).sm@, eaten).len() == 0
                    },
                }
            }),
    {
        let ghost start = self.pos as int;
        let ghost first = self.sm@;
        while self.pos < self.ins.len()
            invariant
                self.ins@ == old(self).ins@,
                *final(self.sm) == *final(old(self).sm),
                start == old(self).pos,
                first == old(self).sm@,
                start <= self.pos <= self.ins@.len(),
                SM::inv(self.sm@),
                self.sm@ == run_state::<In, Out, SM>(
                    first,
                    self.ins@.subrange(start, self.pos as int),
                ),
                run_out::<In, Out, SM>(first, self.ins@.subrange(start, self.pos as int)).len()
                    == 0,
            decreases self.ins@.len() - self.pos,
        {
            let input: In = self.ins[self.pos];
            let ghost before = self.ins@.subrange(start, self.pos as int);
            self.pos = self.pos + 1;
            let out = self.sm.push(input);
            proof {
                let eaten = self.ins@.subrange(start, self.pos as int);
                assert(eaten.drop_last() == before);
                assert(eaten.last() == input);
            }
            if out.is_some() {
                return out;
            }
        }
        None
    }

    /// Runs the decoder over all inputs that are left and gathers what it
    /// produces.
    pub fn collect<Out: View>(self) -> (items: Vec<Out>) where SM: Push<In, Out>
        requires
            self.pos <= self.ins@.len(),
            SM::inv(self.sm@),
        ensures
            SM::inv(final(self.sm)@),
            final(self.sm)@ == run_state::<In, Out, SM>(old(self.sm)@, self.rest()),
            views(items@) == run_out::<In, Out, SM>(old(self.sm)@, self.rest()),
    {
        let ghost start = self.pos as int;
        let ghost first = self.sm@;
        let ghost all = self.ins@;
        let ghost last = *final(self.sm);
        let mut run = self;
        let mut items: Vec<Out> = Vec::new();
        while run.pos < run.ins.len()
            invariant
                run.ins@ == all,
                *final(run.sm) == last,
                0 <= start <= run.pos <= run.ins@.len(),
                SM::inv(run.sm@),
                run.sm@ == run_state::<In, Out, SM>(
                    first,
                    run.ins@.subrange(start, run.pos as int),
                ),
                views(items@) == run_out::<In, Out, SM>(
                    first,
                    run.ins@.subrange(start, run.pos as int),
                ),
            decreases run.ins@.len() - run.pos,
        {
            let input: In = run.ins[run.pos];
            let ghost before = run.ins@.subrange(start, run.pos as int);
            let ghost gathered = items@;
            run.pos = run.pos + 1;
            match run.sm.push(input) {
                Some(item) => {
                    items.push(item);
                    assert(views(items@) == views(gathered).push(item@));
                },
                None => {},
            }
            proof {
                let eaten = run.ins@.subrange(start, run.pos as int);
                assert(eaten.drop_last() == before);
                assert(eaten.last() == input);
            }
        }
        assert(all.subrange(start, run.pos as int) == all.skip(start));
        items
    }
}

} // verus!
