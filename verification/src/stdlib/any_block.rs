use crate::block::Block;
use crate::block::BlockInput;
use crate::settle::outputs_of;
use crate::settle::settled;
use crate::settle::stepped;
use crate::stdlib::const_block::ConstBlock;
use crate::stdlib::toy::ToyBlockType1;
use vstd::prelude::*;

verus! {

/// One of the blocks of this module that work on `i32` values, so that a
/// model can hold blocks of either kind.
#[derive(Debug)]
pub enum AnyBlock {
    Const(ConstBlock<i32>),
    Toy(ToyBlockType1),
}

impl AnyBlock {
    pub fn get_output1(block: &Self) -> (value: i32)
        ensures
            value == block.spec_output(),
    {
        block.output()
    }
}

/// A pass-through that is handed an input is bound to the producer of that
/// input, and keeps its output.
pub proof fn lemma_toy_takes_input(block: AnyBlock, slot: usize, input: BlockInput<i32>)
    requires
        block is Toy,
    ensures
        block.spec_set_input(slot, input) is Toy,
        block.spec_set_input(slot, input)->Toy_0.spec_input1() == input.spec_source(),
        block.spec_set_input(slot, input).spec_output() == block.spec_output(),
{
    block->Toy_0.lemma_bind(slot, input);
}

/// A step leaves the output of a constant source as it is.
pub proof fn lemma_const_holds(before: Seq<AnyBlock>, after: Seq<AnyBlock>, i: int)
    requires
        settled(before, after),
        0 <= i < before.len(),
        before[i] is Const,
    ensures
        after[i].spec_output() == before[i].spec_output(),
{
    assert(after[i] == stepped(before, after, i));
}

/// After a step a pass-through carries what its producer has committed in
/// that step; one that is bound to no producer carries zero.
pub proof fn lemma_toy_follows(before: Seq<AnyBlock>, after: Seq<AnyBlock>, i: int)
    requires
        settled(before, after),
        0 <= i < before.len(),
        before[i] is Toy,
    ensures
        after[i].spec_output() == (match before[i]->Toy_0.spec_input1() {
            Some(id) => if id < after.len() {
                after[id as int].spec_output()
            } else {
                0
            },
            None => 0,
        }),
        after[i] is Toy,
        after[i]->Toy_0.spec_input1() == before[i]->Toy_0.spec_input1(),
{
    assert(after[i] == stepped(before, after, i));
    let toy = before[i]->Toy_0;
    toy.lemma_update(toy.spec_calc(outputs_of(after)));
}

impl Block for AnyBlock {
    type Value = i32;

    open spec fn spec_output(&self) -> i32 {
        match self {
            AnyBlock::Const(block) => block.spec_output(),
            AnyBlock::Toy(block) => block.spec_output(),
        }
    }

    open spec fn spec_inputs(&self) -> Set<usize> {
        match self {
            AnyBlock::Const(block) => block.spec_inputs(),
            AnyBlock::Toy(block) => block.spec_inputs(),
        }
    }

    open spec fn spec_calc(&self, outputs: Seq<i32>) -> i32 {
        match self {
            AnyBlock::Const(block) => block.spec_calc(outputs),
            AnyBlock::Toy(block) => block.spec_calc(outputs),
        }
    }

    open spec fn spec_update(&self, next: i32) -> Self {
        match self {
            AnyBlock::Const(block) => AnyBlock::Const(block.spec_update(next)),
            AnyBlock::Toy(block) => AnyBlock::Toy(block.spec_update(next)),
        }
    }

    open spec fn spec_set_input(&self, slot: usize, input: BlockInput<i32>) -> Self {
        match self {
            AnyBlock::Const(block) => AnyBlock::Const(block.spec_set_input(slot, input)),
            AnyBlock::Toy(block) => AnyBlock::Toy(block.spec_set_input(slot, input)),
        }
    }

    proof fn lemma_set_input(&self, slot: usize, input: BlockInput<i32>) {
        match self {
            AnyBlock::Const(block) => block.lemma_set_input(slot, input),
            AnyBlock::Toy(block) => block.lemma_set_input(slot, input),
        }
    }

    proof fn lemma_calc_is_local(&self, a: Seq<i32>, b: Seq<i32>) {
        match self {
            AnyBlock::Const(block) => block.lemma_calc_is_local(a, b),
            AnyBlock::Toy(block) => block.lemma_calc_is_local(a, b),
        }
    }

    proof fn lemma_update_keeps_inputs(&self, next: i32) {
        match self {
            AnyBlock::Const(block) => block.lemma_update_keeps_inputs(next),
            AnyBlock::Toy(block) => block.lemma_update_keeps_inputs(next),
        }
    }

    fn output(&self) -> (value: i32) {
        match self {
            AnyBlock::Const(block) => block.output(),
            AnyBlock::Toy(block) => block.output(),
        }
    }

    fn calc(&self, outputs: &Vec<i32>) -> (next: i32) {
        match self {
            AnyBlock::Const(block) => block.calc(outputs),
            AnyBlock::Toy(block) => {
                proof {
                    assert forall|id: usize| block.spec_inputs().contains(id) implies id
                        < outputs.len() by {
                        assert(self.spec_inputs().contains(id));
                    }
                }
                block.calc(outputs)
            },
        }
    }

    fn update(&mut self, next: i32) {
        match self {
            AnyBlock::Const(block) => block.update(next),
            AnyBlock::Toy(block) => block.update(next),
        }
    }

    fn set_input(&mut self, slot: usize, input: BlockInput<i32>) {
        match self {
            AnyBlock::Const(block) => block.set_input(slot, input),
            AnyBlock::Toy(block) => block.set_input(slot, input),
        }
    }
}

} // verus!
