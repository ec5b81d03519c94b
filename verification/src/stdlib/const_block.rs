use crate::block::Block;
use crate::block::BlockInput;
use vstd::prelude::*;

verus! {

/// A source: its output is the value it was made with, at every step.
#[derive(Debug)]
pub struct ConstBlock<T> {
    output1: T,
}

impl<T: Copy> ConstBlock<T> {
    /// The constant.
    pub closed spec fn spec_output1(&self) -> T {
        self.output1
    }

    pub fn new(const_val: T) -> (block: Self)
        ensures
            block.spec_output1() == const_val,
    {
        Self { output1: const_val }
    }

    pub fn get_output1(block: &Self) -> (value: T)
        ensures
            value == block.spec_output1(),
    {
        block._get_output1()
    }

    fn _get_output1(&self) -> (value: T)
        ensures
            value == self.spec_output1(),
    {
        self.output1
    }
}

impl<T: Copy> Block for ConstBlock<T> {
    type Value = T;

    open spec fn spec_output(&self) -> T {
        self.spec_output1()
    }

    open spec fn spec_inputs(&self) -> Set<usize> {
        Set::empty()
    }

    open spec fn spec_calc(&self, outputs: Seq<T>) -> T {
        self.spec_output1()
    }

    open spec fn spec_update(&self, next: T) -> Self {
        *self
    }

    open spec fn spec_set_input(&self, slot: usize, input: BlockInput<T>) -> Self {
        *self
    }

    proof fn lemma_set_input(&self, slot: usize, input: BlockInput<T>) {
    }

    proof fn lemma_calc_is_local(&self, a: Seq<T>, b: Seq<T>) {
    }

    proof fn lemma_update_keeps_inputs(&self, next: T) {
    }

    fn output(&self) -> (value: T) {
        self._get_output1()
    }

    fn calc(&self, outputs: &Vec<T>) -> (next: T) {
        self._get_output1()
    }

    fn update(&mut self, next: T) {
    }

    fn set_input(&mut self, slot: usize, input: BlockInput<T>) {
    }
}

} // verus!
