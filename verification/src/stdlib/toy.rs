use crate::block::Block;
use crate::block::BlockInput;
use vstd::prelude::*;

verus! {

/// A pass-through with a delay: at each step it takes over what its input
/// carries.
#[derive(Debug)]
pub struct ToyBlockType1 {
    input1_getter: BlockInput<i32>,
    curr_output1: i32,
    next_output1: i32,
}

impl ToyBlockType1 {
    /// The producer that the input is bound to.
    pub closed spec fn spec_input1(&self) -> Option<usize> {
        self.input1_getter.spec_source()
    }

    /// The committed output.
    pub closed spec fn spec_output1(&self) -> i32 {
        self.curr_output1
    }

    /// The output that was computed last.
    pub closed spec fn spec_next_output1(&self) -> i32 {
        self.next_output1
    }

    /// What a commit leaves of the block.
    pub proof fn lemma_update(&self, next: i32)
        ensures
            self.spec_update(next).spec_output1() == next,
            self.spec_update(next).spec_next_output1() == next,
            self.spec_update(next).spec_input1() == self.spec_input1(),
    {
    }

    /// What a binding leaves of the block.
    pub proof fn lemma_bind(&self, slot: usize, block_input: BlockInput<i32>)
        ensures
            self.spec_set_input(slot, block_input).spec_input1() == block_input.spec_source(),
            self.spec_set_input(slot, block_input).spec_output1() == self.spec_output1(),
            self.spec_set_input(slot, block_input).spec_next_output1() == self.spec_next_output1(),
    {
    }

    pub fn new(initial_value: i32) -> (block: Self)
        ensures
            block.spec_input1() == None::<usize>,
            block.spec_output1() == initial_value,
            block.spec_next_output1() == i32::MIN,
    {
        Self {
            input1_getter: BlockInput::default(),
            curr_output1: initial_value,
            next_output1: i32::MIN,
        }
    }

    pub fn set_input1(&mut self, block_input: BlockInput<i32>)
        ensures
            *final(self) == old(self).spec_set_input(0, block_input),
            final(self).spec_input1() == block_input.spec_source(),
            final(self).spec_output1() == old(self).spec_output1(),
            final(self).spec_next_output1() == old(self).spec_next_output1(),
    {
        self.input1_getter = block_input;
    }

    pub fn get_output1(block: &Self) -> (value: i32)
        ensures
            value == block.spec_output1(),
    {
        block._get_output1()
    }

    fn _get_output1(&self) -> (value: i32)
        ensures
            value == self.spec_output1(),
    {
        self.curr_output1
    }
}

impl Block for ToyBlockType1 {
    type Value = i32;

    open spec fn spec_output(&self) -> i32 {
        self.spec_output1()
    }

    open spec fn spec_inputs(&self) -> Set<usize> {
        match self.spec_input1() {
            Some(id) => set![id],
            None => Set::empty(),
        }
    }

    open spec fn spec_calc(&self, outputs: Seq<i32>) -> i32 {
        match self.spec_input1() {
            Some(id) => if id < outputs.len() {
                outputs[id as int]
            } else {
                0
            },
            None => 0,
        }
    }

    closed spec fn spec_update(&self, next: i32) -> Self {
        ToyBlockType1 {
            input1_getter: self.input1_getter,
            curr_output1: next,
            next_output1: next,
        }
    }

    closed spec fn spec_set_input(&self, slot: usize, input: BlockInput<i32>) -> Self {
        ToyBlockType1 {
            input1_getter: input,
            curr_output1: self.curr_output1,
            next_output1: self.next_output1,
        }
    }

    proof fn lemma_set_input(&self, slot: usize, input: BlockInput<i32>) {
    }

    proof fn lemma_calc_is_local(&self, a: Seq<i32>, b: Seq<i32>) {
        if let Some(id) = self.spec_input1() {
            assert(self.spec_inputs().contains(id));
        }
    }

    proof fn lemma_update_keeps_inputs(&self, next: i32) {
    }

    fn output(&self) -> (value: i32) {
        self._get_output1()
    }

    fn calc(&self, outputs: &Vec<i32>) -> (next: i32) {
        proof {
            if let Some(id) = self.spec_input1() {
                assert(self.spec_inputs().contains(id));
            }
        }
        self.input1_getter.get_value(outputs)
    }

    fn update(&mut self, next: i32)
        ensures
            final(self).spec_output1() == next,
            final(self).spec_next_output1() == next,
            final(self).spec_input1() == old(self).spec_input1(),
    {
        self.next_output1 = next;
        self.curr_output1 = self.next_output1;
    }

    fn set_input(&mut self, slot: usize, input: BlockInput<i32>)
        ensures
            final(self).spec_input1() == input.spec_source(),
            final(self).spec_output1() == old(self).spec_output1(),
            final(self).spec_next_output1() == old(self).spec_next_output1(),
    {
        self.set_input1(input);
    }
}

} // verus!
