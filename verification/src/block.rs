use std::marker::PhantomData;
use vstd::prelude::*;

verus! {

/// One declared input of a block: the node whose committed output feeds it, if
/// one was bound.
#[derive(Debug)]
pub struct BlockInput<T> {
    block_id: Option<usize>,
    data_type: PhantomData<T>,
}

impl<T> BlockInput<T> {
    /// The producer that the input is bound to.
    pub closed spec fn spec_source(&self) -> Option<usize> {
        self.block_id
    }

    /// The input that is bound to the output of node `id`.
    pub closed spec fn spec_new(id: usize) -> Self {
        BlockInput { block_id: Some(id), data_type: PhantomData }
    }

    /// The input that is bound to `spec_new(id)` is bound to `id`.
    pub proof fn lemma_new_source(id: usize)
        ensures
            Self::spec_new(id).spec_source() == Some(id),
    {
    }

    /// An input bound to the output of node `id`.
    pub fn new(id: usize) -> (input: Self)
        ensures
            input == Self::spec_new(id),
            input.spec_source() == Some(id),
    {
        BlockInput { block_id: Some(id), data_type: PhantomData }
    }

    /// Binds the input to the output of node `id`, whatever it was bound to.
    pub fn set(&mut self, id: usize)
        ensures
            final(self).spec_source() == Some(id),
    {
        self.block_id = Some(id);
    }

    /// The producer that the input is bound to.
    pub fn source(&self) -> (source: Option<usize>)
        ensures
            source == self.spec_source(),
    {
        self.block_id
    }
}

impl<T: Copy + Default> BlockInput<T> {
    /// The value that the input carries: the committed output of its
    /// producer, read from the table of committed outputs, or the default of
    /// `T` where no producer is bound.
    pub fn get_value(&self, outputs: &Vec<T>) -> (value: T)
        requires
            self.spec_source() matches Some(id) ==> id < outputs.len(),
        ensures
            match self.spec_source() {
                Some(id) => value == outputs[id as int],
                None => call_ensures(T::default, (), value),
            },
    {
        match self.block_id {
            Some(id) => outputs[id],
            None => T::default(),
        }
    }
}

impl<T> Default for BlockInput<T> {
    /// An input that no producer is bound to.
    fn default() -> (input: Self)
        ensures
            input.spec_source() == None::<usize>,
    {
        BlockInput { block_id: None, data_type: PhantomData }
    }
}

/// A computational unit of a model. Within a step the engine asks each unit
/// first for its next output, computed from the committed outputs of the
/// units it is bound to, and then to commit that output.
pub trait Block: Sized {
    /// What the units of a model hand to each other.
    type Value;

    /// The committed output.
    spec fn spec_output(&self) -> Self::Value;

    /// The nodes that the inputs are bound to.
    spec fn spec_inputs(&self) -> Set<usize>;

    /// The next output, given the committed outputs of all nodes.
    spec fn spec_calc(&self, outputs: Seq<Self::Value>) -> Self::Value;

    /// The unit after it has committed `next`.
    spec fn spec_update(&self, next: Self::Value) -> Self;

    /// The unit after `input` was handed to it for its input `slot`.
    spec fn spec_set_input(&self, slot: usize, input: BlockInput<Self::Value>) -> Self;

    /// The next output depends on the outputs of the bound nodes only.
    proof fn lemma_calc_is_local(&self, a: Seq<Self::Value>, b: Seq<Self::Value>)
        requires
            a.len() == b.len(),
            forall|id: usize|
                self.spec_inputs().contains(id) && id < a.len() ==> a[id as int] == b[id as int],
        ensures
            self.spec_calc(a) == self.spec_calc(b),
    ;

    /// A commit rebinds no input.
    proof fn lemma_update_keeps_inputs(&self, next: Self::Value)
        ensures
            self.spec_update(next).spec_inputs() == self.spec_inputs(),
    ;

    /// A binding leaves the committed output alone, and binds no input to a
    /// node other than before, but for the producer of `input`.
    proof fn lemma_set_input(&self, slot: usize, input: BlockInput<Self::Value>)
        ensures
            self.spec_set_input(slot, input).spec_output() == self.spec_output(),
            forall|id: usize|
                self.spec_set_input(slot, input).spec_inputs().contains(id)
                    ==> self.spec_inputs().contains(id) || input.spec_source() == Some(id),
    ;

    /// The committed output.
    fn output(&self) -> (value: Self::Value)
        ensures
            value == self.spec_output(),
    ;

    /// Computes the next output from the committed outputs of the model. The
    /// unit itself is left as it is.
    fn calc(&self, outputs: &Vec<Self::Value>) -> (next: Self::Value)
        requires
            forall|id: usize| self.spec_inputs().contains(id) ==> id < outputs.len(),
        ensures
            next == self.spec_calc(outputs@),
    ;

    /// Commits `next`.
    fn update(&mut self, next: Self::Value)
        ensures
            *final(self) == old(self).spec_update(next),
    ;

    /// Hands `input` to the unit for its input `slot`.
    fn set_input(&mut self, slot: usize, input: BlockInput<Self::Value>)
        ensures
            *final(self) == old(self).spec_set_input(slot, input),
    ;
}

} // verus!
