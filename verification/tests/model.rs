use rust_model_core::block::Block;
use rust_model_core::block::BlockInput;
use rust_model_core::dag::DagError;
use rust_model_core::model::Model;
use rust_model_core::stdlib::AnyBlock;
use rust_model_core::stdlib::ConstBlock;
use rust_model_core::stdlib::ToyBlockType1;
use rust_model_core::task::TaskPoll;
use rust_model_core::task::TaskState;

fn toy(initial: i32) -> AnyBlock {
    AnyBlock::Toy(ToyBlockType1::new(initial))
}

fn constant(value: i32) -> AnyBlock {
    AnyBlock::Const(ConstBlock::new(value))
}

fn outputs_after(model: &Model<AnyBlock>) -> Vec<i32> {
    model.outputs()
}

#[test]
fn main() {
    let mut model = Model::new();

    //
    // create system components
    //
    let block1_handle = model.add_block(toy(1));
    let block2_handle = model.add_block(toy(2));
    let const_block_handle = model.add_block(constant(42));

    //
    // hook up system components
    //
    println!("Hooking up system components");
    model.connect(&const_block_handle, &block1_handle, 0);
    model.connect(&block1_handle, &block2_handle, 0);

    //
    // run the system for 3 time steps
    //
    println!("Executing model");
    assert_eq!(model.exec(&3), Ok(()));

    //
    // get the result of the system
    //
    let result = AnyBlock::get_output1(model.get_block(&block2_handle));
    println!("result: {}", result);
    assert_eq!(result, 42);
}

#[test]
fn one_step_carries_a_value_down_the_chain() {
    let mut model = Model::new();
    let source = model.add_block(constant(42));
    let first = model.add_block(toy(1));
    let second = model.add_block(toy(2));
    model.connect(&source, &first, 0);
    model.connect(&first, &second, 0);
    assert_eq!(outputs_after(&model), vec![42, 1, 2]);

    assert_eq!(model.exec_step(), Ok(()));
    assert_eq!(outputs_after(&model), vec![42, 42, 42]);
}

#[test]
fn consumer_reads_what_its_producer_committed_in_the_step() {
    let mut model = Model::new();
    let last = model.add_block(toy(-3));
    let middle = model.add_block(toy(-2));
    let source = model.add_block(constant(7));
    model.connect(&middle, &last, 0);
    model.connect(&source, &middle, 0);

    assert_eq!(model.exec(&1), Ok(()));
    assert_eq!(AnyBlock::get_output1(model.get_block(&middle)), 7);
    assert_eq!(AnyBlock::get_output1(model.get_block(&last)), 7);
}

#[test]
fn no_step_changes_nothing() {
    let mut model = Model::new();
    let source = model.add_block(constant(5));
    let sink = model.add_block(toy(9));
    model.connect(&source, &sink, 0);
    assert_eq!(model.exec(&0), Ok(()));
    assert_eq!(outputs_after(&model), vec![5, 9]);
}

fn diamond() -> Model<AnyBlock> {
    let mut model = Model::new();
    let source = model.add_block(constant(11));
    let left = model.add_block(toy(1));
    let right = model.add_block(toy(2));
    let lone = model.add_block(toy(3));
    let below = model.add_block(toy(4));
    model.connect(&source, &left, 0);
    model.connect(&source, &right, 0);
    model.connect(&left, &below, 0);
    let _ = lone;
    model
}

#[test]
fn same_start_gives_same_outcome() {
    let mut one = diamond();
    let mut other = diamond();
    assert_eq!(one.exec(&1), Ok(()));
    assert_eq!(other.exec(&1), Ok(()));
    assert_eq!(outputs_after(&one), outputs_after(&other));
    assert_eq!(outputs_after(&one), vec![11, 11, 11, 0, 11]);
}

#[test]
fn unbound_input_carries_the_default() {
    let mut model = Model::new();
    let lone = model.add_block(toy(8));
    assert_eq!(model.exec(&1), Ok(()));
    assert_eq!(AnyBlock::get_output1(model.get_block(&lone)), 0);
    assert_eq!(AnyBlock::get_output1(model.get_block_by_id(lone.id())), 0);
}

#[test]
fn independent_parts_do_not_touch_each_other() {
    let mut joined = Model::new();
    let a_source = joined.add_block(constant(1));
    let a_sink = joined.add_block(toy(10));
    let b_source = joined.add_block(constant(2));
    let b_sink = joined.add_block(toy(20));
    joined.connect(&a_source, &a_sink, 0);
    joined.connect(&b_source, &b_sink, 0);

    let mut apart = Model::new();
    let c_source = apart.add_block(constant(1));
    let c_sink = apart.add_block(toy(10));
    apart.add_block(constant(2));
    apart.add_block(toy(20));
    apart.connect(&c_source, &c_sink, 0);

    assert_eq!(joined.exec(&2), Ok(()));
    assert_eq!(apart.exec(&2), Ok(()));
    assert_eq!(outputs_after(&joined), vec![1, 1, 2, 2]);
    assert_eq!(outputs_after(&apart), vec![1, 1, 2, 0]);
    assert_eq!(
        AnyBlock::get_output1(joined.get_block(&a_sink)),
        AnyBlock::get_output1(apart.get_block(&c_sink))
    );
}

#[test]
fn binding_twice_is_one_dependency() {
    let mut model = Model::new();
    let source = model.add_block(constant(6));
    let sink = model.add_block(toy(0));
    model.connect(&source, &sink, 0);
    model.connect(&source, &sink, 0);
    assert_eq!(model.exec(&1), Ok(()));
    assert_eq!(outputs_after(&model), vec![6, 6]);
}

#[test]
fn cycle_stops_the_run_before_any_block() {
    let mut model = Model::new();
    let source = model.add_block(constant(3));
    let first = model.add_block(toy(1));
    let second = model.add_block(toy(2));
    model.connect(&source, &first, 0);
    model.connect(&first, &second, 0);
    model.connect(&second, &first, 0);
    assert_eq!(model.exec(&2), Err(DagError::CycleDetected));
    assert_eq!(outputs_after(&model), vec![3, 1, 2]);
    assert_eq!(model.exec(&0), Ok(()));
}

#[test]
fn model_without_source_cannot_run() {
    let mut empty: Model<AnyBlock> = Model::new();
    assert_eq!(empty.exec(&1), Err(DagError::NoRoots));
    assert_eq!(empty.exec_step(), Err(DagError::NoRoots));

    let mut ring = Model::new();
    let first = ring.add_block(toy(1));
    let second = ring.add_block(toy(2));
    ring.connect(&first, &second, 0);
    ring.connect(&second, &first, 0);
    assert_eq!(ring.exec(&1), Err(DagError::NoRoots));
    assert_eq!(outputs_after(&ring), vec![1, 2]);
}

#[test]
fn handles_carry_the_node_id() {
    let mut model = Model::new();
    let first = model.add_block(toy(1));
    let second = model.add_block(constant(2));
    assert_eq!(first.id(), 0);
    assert_eq!(second.id(), 1);
    assert_eq!(AnyBlock::get_output1(model.get_block(&second)), 2);
}

#[test]
fn compute_and_commit_by_hand() {
    let mut model = Model::new();
    let source = model.add_block(constant(13));
    let sink = model.add_block(toy(4));
    model.connect(&source, &sink, 0);
    let table = model.outputs();
    let next = model.calc_block(sink.id(), &table);
    assert_eq!(next, 13);
    assert_eq!(AnyBlock::get_output1(model.get_block(&sink)), 4);
    model.update_block(sink.id(), next);
    assert_eq!(AnyBlock::get_output1(model.get_block(&sink)), 13);
}

#[test]
fn block_input_reads_the_table() {
    let table = vec![5, 6, 7];
    let unbound: BlockInput<i32> = BlockInput::default();
    assert_eq!(unbound.source(), None);
    assert_eq!(unbound.get_value(&table), 0);

    let mut input: BlockInput<i32> = BlockInput::new(1);
    assert_eq!(input.source(), Some(1));
    assert_eq!(input.get_value(&table), 6);
    input.set(2);
    assert_eq!(input.source(), Some(2));
    assert_eq!(input.get_value(&table), 7);
}

#[test]
fn const_block_keeps_its_value() {
    let mut block = ConstBlock::new(42);
    assert_eq!(ConstBlock::get_output1(&block), 42);
    assert_eq!(block.calc(&vec![1, 2, 3]), 42);
    block.update(7);
    assert_eq!(block.output(), 42);
    block.set_input(0, BlockInput::new(1));
    assert_eq!(block.calc(&vec![1, 2, 3]), 42);
}

#[test]
fn toy_block_takes_over_its_input() {
    let mut block = ToyBlockType1::new(5);
    assert_eq!(ToyBlockType1::get_output1(&block), 5);
    assert_eq!(block.calc(&vec![1, 2, 3]), 0);
    block.set_input1(BlockInput::new(2));
    let next = block.calc(&vec![1, 2, 3]);
    assert_eq!(next, 3);
    assert_eq!(ToyBlockType1::get_output1(&block), 5);
    block.update(next);
    assert_eq!(ToyBlockType1::get_output1(&block), 3);
    block.set_input(0, BlockInput::new(0));
    assert_eq!(block.calc(&vec![1, 2, 3]), 1);
}

fn chain_model() -> Model<AnyBlock> {
    let mut model = Model::new();
    let last = model.add_block(toy(-3));
    let middle = model.add_block(toy(-2));
    let source = model.add_block(constant(7));
    model.connect(&middle, &last, 0);
    model.connect(&source, &middle, 0);
    model
}

#[test]
fn step_starts_a_task_for_every_block() {
    let model = chain_model();
    let (table, order) = model.start_step().unwrap();
    assert_eq!(order, vec![2, 1, 0]);
    for node in 0..3 {
        assert_eq!(table.state(node), Some(TaskState::Pending));
    }
    assert_eq!(table.first_unfinished(), Some(0));
}

#[test]
fn step_does_not_start_on_a_cycle() {
    let mut model = chain_model();
    let last = model.add_block(toy(0));
    let first = model.add_block(toy(0));
    model.connect(&first, &last, 0);
    model.connect(&last, &first, 0);
    assert_eq!(model.start_step().err(), Some(DagError::CycleDetected));
    let empty: Model<AnyBlock> = Model::new();
    assert_eq!(empty.start_step().err(), Some(DagError::NoRoots));
}

#[test]
fn polled_task_waits_for_its_producer() {
    let mut model = chain_model();
    let (mut table, _) = model.start_step().unwrap();
    let mut outputs = model.outputs();

    assert_eq!(model.poll_task(&mut table, &mut outputs, 0), TaskPoll::Pending(1));
    assert_eq!(table.state(0), Some(TaskState::WaitingOnDependencies));
    assert_eq!(model.poll_task(&mut table, &mut outputs, 1), TaskPoll::Pending(2));
    assert_eq!(outputs, vec![-3, -2, 7]);

    assert_eq!(model.poll_task(&mut table, &mut outputs, 2), TaskPoll::Ready);
    assert_eq!(table.state(2), Some(TaskState::Committed));
    assert_eq!(model.poll_task(&mut table, &mut outputs, 0), TaskPoll::Pending(1));

    assert_eq!(model.poll_task(&mut table, &mut outputs, 1), TaskPoll::Ready);
    assert_eq!(outputs, vec![-3, 7, 7]);
    assert_eq!(model.poll_task(&mut table, &mut outputs, 1), TaskPoll::Idle);

    assert_eq!(model.poll_task(&mut table, &mut outputs, 0), TaskPoll::Ready);
    assert_eq!(outputs, vec![7, 7, 7]);
    assert_eq!(outputs, model.outputs());
    assert_eq!(table.first_unfinished(), None);
}

#[test]
fn turns_of_independent_tasks_do_not_matter() {
    let mut one = diamond();
    let mut other = diamond();
    let (mut one_table, _) = one.start_step().unwrap();
    let (mut other_table, _) = other.start_step().unwrap();
    let mut one_outputs = one.outputs();
    let mut other_outputs = other.outputs();
    for node in [0, 1, 2, 3, 4] {
        assert_eq!(one.poll_task(&mut one_table, &mut one_outputs, node), TaskPoll::Ready);
    }
    for node in [3, 0, 2, 1, 4] {
        assert_eq!(
            other.poll_task(&mut other_table, &mut other_outputs, node),
            TaskPoll::Ready
        );
    }
    assert_eq!(one_outputs, other_outputs);
    assert_eq!(one.outputs(), other.outputs());
    assert_eq!(one_outputs, vec![11, 11, 11, 0, 11]);
}

#[test]
fn task_does_not_wait_for_an_independent_part() {
    let mut model = Model::new();
    let a_source = model.add_block(constant(1));
    let a_sink = model.add_block(toy(10));
    let b_source = model.add_block(constant(2));
    let b_sink = model.add_block(toy(20));
    model.connect(&a_source, &a_sink, 0);
    model.connect(&b_source, &b_sink, 0);

    let (mut table, _) = model.start_step().unwrap();
    let mut outputs = model.outputs();
    assert_eq!(model.poll_task(&mut table, &mut outputs, b_source.id()), TaskPoll::Ready);
    assert_eq!(model.poll_task(&mut table, &mut outputs, b_sink.id()), TaskPoll::Ready);
    assert_eq!(table.state(a_source.id()), Some(TaskState::Pending));
    assert_eq!(table.state(a_sink.id()), Some(TaskState::Pending));
    assert_eq!(outputs, vec![1, 10, 2, 2]);
    assert_eq!(
        model.poll_task(&mut table, &mut outputs, a_sink.id()),
        TaskPoll::Pending(a_source.id())
    );
}

#[test]
fn handles_are_copied() {
    let mut model = Model::new();
    let handle = model.add_block(constant(9));
    let copy = handle;
    assert_eq!(copy.id(), handle.id());
    assert_eq!(AnyBlock::get_output1(model.get_block(&copy.clone())), 9);
}
