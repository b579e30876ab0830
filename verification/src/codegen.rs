//! The code generator: from a tree of instructions to the steps of its
//! routine, and on to the text that the backend prints for it.

use vstd::prelude::*;
use inkwell::builder::BuilderError;
use crate::backend::emit;
use crate::ir::{
    calls_primitive, lemma_scan_append, lemma_scan_push, scan, start_frame, well_formed, BlockRole, Frame, Op,
};
use crate::parser::{nodes, Instruction, Node};

verus! {

/// Number of cells on the tape of a generated routine.
pub const TAPE_LEN: u32 = 65536;

/// Width of the head in bits.
pub const HEAD_BITS: u32 = 16;

/// Width of a cell in bits.
pub const CELL_BITS: u32 = 8;

/// The head has as many values as the tape has cells: whatever the head
/// holds, it selects a cell, and arithmetic on it wraps around the tape.
pub proof fn law_head_covers_tape()
    ensures
        1u32 << HEAD_BITS == TAPE_LEN,
{
    assert(1u32 << 16u32 == 65536u32) by (bit_vector);
}

/// Why no text was generated.
#[derive(PartialEq, Eq, Debug)]
pub enum CompileError {
    /// The backend refused to build an instruction.
    BuilderError(BuilderError),
    /// The generated routine is not valid: the backend's check refuses it,
    /// or what it reads from its own storage is no integer.
    FunctionVerifyError,
    /// A loop of the program is not closed. No program that is built from
    /// `Instruction`s has such a loop.
    UnbalancedLoopError,
    /// An I/O primitive is not declared where it is called, or yields
    /// nothing that can be stored.
    LibraryLinkageError,
}

/// The number of loops in a program, those inside other loops included.
pub open spec fn loops(program: Seq<Node>) -> nat
    decreases program,
{
    if program.len() == 0 {
        0
    } else {
        loops(program.drop_last()) + loops_in(program.last())
    }
}

/// The number of loops that an instruction is or holds.
pub open spec fn loops_in(node: Node) -> nat
    decreases node,
{
    match node {
        Node::Loop(body) => 1 + loops(body),
        _ => 0,
    }
}

/// Whether a program reads or writes: whether an `Input` or an `Output`
/// stands anywhere in it.
pub open spec fn performs_io(program: Seq<Node>) -> bool
    decreases program,
{
    program.len() > 0 && (performs_io(program.drop_last()) || performs_io_in(program.last()))
}

/// Whether an instruction reads or writes, or holds one that does.
pub open spec fn performs_io_in(node: Node) -> bool
    decreases node,
{
    match node {
        Node::Output => true,
        Node::Input => true,
        Node::Loop(body) => performs_io(body),
        _ => false,
    }
}

/// The steps before a loop's content: test the current cell, make the loop's
/// two blocks, skip the content if the cell is zero, and go on in the body.
pub open spec fn loop_entry(first_block: nat) -> Seq<Op> {
    seq![
        Op::LoadHead,
        Op::Locate,
        Op::LoadCell,
        Op::NewBlock(BlockRole::Body),
        Op::NewBlock(BlockRole::After),
        Op::TestZero,
        Op::Branch { on_set: (first_block + 1) as usize, on_clear: first_block as usize },
        Op::Enter(first_block as usize),
    ]
}

/// The steps after a loop's content: test the cell that is now current,
/// run the content again unless it is zero, and go on after the loop.
pub open spec fn loop_exit(first_block: nat) -> Seq<Op> {
    seq![
        Op::LoadHead,
        Op::Locate,
        Op::LoadCell,
        Op::TestNonZero,
        Op::Branch { on_set: first_block as usize, on_clear: (first_block + 1) as usize },
        Op::Enter((first_block + 1) as usize),
    ]
}

/// The steps that one instruction becomes, where `first_block` is the number
/// of the next block to be made.
pub open spec fn emission_of(node: Node, first_block: nat) -> Seq<Op>
    decreases node,
{
    match node {
        Node::MoveLeft => seq![Op::LoadHead, Op::HeadDown, Op::StoreHead],
        Node::MoveRight => seq![Op::LoadHead, Op::HeadUp, Op::StoreHead],
        Node::Increment => seq![Op::LoadHead, Op::Locate, Op::LoadCell, Op::CellUp, Op::StoreCell],
        Node::Decrement => seq![Op::LoadHead, Op::Locate, Op::LoadCell, Op::CellDown, Op::StoreCell],
        Node::Output => seq![Op::LoadHead, Op::Locate, Op::LoadCell, Op::Put],
        Node::Input => seq![Op::LoadHead, Op::Locate, Op::Get, Op::StoreCell],
        Node::Loop(body) => loop_entry(first_block) + emission(body, first_block + 2) + loop_exit(
            first_block,
        ),
    }
}

/// The steps that a program becomes: those of its instructions, one after
/// the other, each loop with two blocks of its own.
pub open spec fn emission(program: Seq<Node>, first_block: nat) -> Seq<Op>
    decreases program,
{
    if program.len() == 0 {
        Seq::empty()
    } else {
        emission(program.drop_last(), first_block) + emission_of(
            program.last(),
            first_block + 2 * loops(program.drop_last()),
        )
    }
}

/// The loops of a program with one more instruction.
pub proof fn lemma_loops_push(program: Seq<Node>, node: Node)
    ensures
        loops(program.push(node)) == loops(program) + loops_in(node),
{
    assert(program.push(node).drop_last() =~= program);
}

/// The steps of a program with one more instruction.
pub proof fn lemma_emission_push(program: Seq<Node>, node: Node, first_block: nat)
    ensures
        emission(program.push(node), first_block) == emission(program, first_block) + emission_of(
            node,
            first_block + 2 * loops(program),
        ),
{
    assert(program.push(node).drop_last() =~= program);
}

/// Whether the steps of a program with `count` loops, written from `from`
/// on, lead to `to`: the block is open, the loops' blocks have been made, and
/// each of them has been written to.
pub open spec fn extends(from: Frame, to: Frame, count: nat) -> bool {
    &&& to.open
    &&& to.blocks == from.blocks + 2 * count
    &&& forall|block: nat|
        to.entered.contains(block) <==> from.entered.contains(block) || from.blocks <= block < to.blocks
}

/// Whether the steps of a program may be written in a frame: its block is
/// open, only blocks that exist have been written to, and the numbers of
/// the blocks that `count` more loops need fit.
pub open spec fn ready(frame: Frame, count: nat) -> bool {
    &&& frame.open
    &&& forall|block: nat| frame.entered.contains(block) ==> block < frame.blocks
    &&& frame.blocks + 2 * count <= usize::MAX
}

/// The steps of an instruction that is no loop may follow in any open
/// block, and leave it open.
proof fn lemma_simple_scan(node: Node, frame: Frame)
    requires
        !(node is Loop),
        frame.open,
    ensures
        scan(frame, emission_of(node, frame.blocks)) matches Some(reached) && extends(frame, reached, 0),
{
    let ops = emission_of(node, frame.blocks);
    let none = Seq::<Op>::empty();
    lemma_scan_push(frame, none, ops[0]);
    lemma_scan_push(frame, none.push(ops[0]), ops[1]);
    lemma_scan_push(frame, none.push(ops[0]).push(ops[1]), ops[2]);
    if ops.len() == 3 {
        assert(ops =~= none.push(ops[0]).push(ops[1]).push(ops[2]));
    } else {
        lemma_scan_push(frame, none.push(ops[0]).push(ops[1]).push(ops[2]), ops[3]);
        if ops.len() == 4 {
            assert(ops =~= none.push(ops[0]).push(ops[1]).push(ops[2]).push(ops[3]));
        } else {
            lemma_scan_push(frame, none.push(ops[0]).push(ops[1]).push(ops[2]).push(ops[3]), ops[4]);
            assert(ops =~= none.push(ops[0]).push(ops[1]).push(ops[2]).push(ops[3]).push(ops[4]));
        }
    }
}

/// The steps before a loop's content make the loop's two blocks and lead
/// into the first of them.
proof fn lemma_loop_entry_scan(frame: Frame)
    requires
        ready(frame, 1),
    ensures
        scan(frame, loop_entry(frame.blocks)) matches Some(reached) && reached.open && reached.blocks
            == frame.blocks + 2 && reached.entered == frame.entered.insert(frame.blocks),
{
    let ops = loop_entry(frame.blocks);
    let none = Seq::<Op>::empty();
    let s1 = none.push(ops[0]);
    let s2 = s1.push(ops[1]);
    let s3 = s2.push(ops[2]);
    let s4 = s3.push(ops[3]);
    let s5 = s4.push(ops[4]);
    let s6 = s5.push(ops[5]);
    let s7 = s6.push(ops[6]);
    let s8 = s7.push(ops[7]);
    lemma_scan_push(frame, none, ops[0]);
    lemma_scan_push(frame, s1, ops[1]);
    lemma_scan_push(frame, s2, ops[2]);
    lemma_scan_push(frame, s3, ops[3]);
    lemma_scan_push(frame, s4, ops[4]);
    lemma_scan_push(frame, s5, ops[5]);
    lemma_scan_push(frame, s6, ops[6]);
    lemma_scan_push(frame, s7, ops[7]);
    assert(ops =~= s8);
}

/// The steps after a loop's content end the body and lead into the block
/// after the loop.
proof fn lemma_loop_exit_scan(frame: Frame, first_block: nat)
    requires
        frame.open,
        first_block + 1 < frame.blocks,
        frame.blocks <= usize::MAX,
        !frame.entered.contains(first_block + 1),
    ensures
        scan(frame, loop_exit(first_block)) matches Some(reached) && reached.open && reached.blocks
            == frame.blocks && reached.entered == frame.entered.insert(first_block + 1),
{
    let ops = loop_exit(first_block);
    let none = Seq::<Op>::empty();
    let s1 = none.push(ops[0]);
    let s2 = s1.push(ops[1]);
    let s3 = s2.push(ops[2]);
    let s4 = s3.push(ops[3]);
    let s5 = s4.push(ops[4]);
    let s6 = s5.push(ops[5]);
    lemma_scan_push(frame, none, ops[0]);
    lemma_scan_push(frame, s1, ops[1]);
    lemma_scan_push(frame, s2, ops[2]);
    lemma_scan_push(frame, s3, ops[3]);
    lemma_scan_push(frame, s4, ops[4]);
    lemma_scan_push(frame, s5, ops[5]);
    assert(ops =~= s6);
}

/// The steps of an instruction may follow wherever a block is open, and
/// lead to where its loops' blocks are made and written.
pub proof fn lemma_emission_of_scan(node: Node, frame: Frame)
    requires
        ready(frame, loops_in(node)),
    ensures
        scan(frame, emission_of(node, frame.blocks)) matches Some(reached) && extends(
            frame,
            reached,
            loops_in(node),
        ),
    decreases node,
{
    match node {
        Node::Loop(body) => {
            let first = frame.blocks;
            lemma_loop_entry_scan(frame);
            let inside = scan(frame, loop_entry(first))->Some_0;
            lemma_emission_scan(body, inside);
            let done = scan(inside, emission(body, first + 2))->Some_0;
            lemma_loop_exit_scan(done, first);
            let reached = scan(done, loop_exit(first))->Some_0;
            lemma_scan_append(frame, loop_entry(first), emission(body, first + 2));
            lemma_scan_append(frame, loop_entry(first) + emission(body, first + 2), loop_exit(first));
            assert(extends(frame, reached, loops_in(node)));
        },
        _ => {
            lemma_simple_scan(node, frame);
        },
    }
}

/// The steps of a program may follow wherever a block is open, and lead to
/// where its loops' blocks are made and written.
pub proof fn lemma_emission_scan(program: Seq<Node>, frame: Frame)
    requires
        ready(frame, loops(program)),
    ensures
        scan(frame, emission(program, frame.blocks)) matches Some(reached) && extends(
            frame,
            reached,
            loops(program),
        ),
    decreases program,
{
    if program.len() > 0 {
        let front = program.drop_last();
        lemma_emission_scan(front, frame);
        let middle = scan(frame, emission(front, frame.blocks))->Some_0;
        lemma_emission_of_scan(program.last(), middle);
        lemma_scan_append(
            frame,
            emission(front, frame.blocks),
            emission_of(program.last(), frame.blocks + 2 * loops(front)),
        );
    }
}

/// The routine of a program is well formed, provided the numbers of its
/// blocks fit.
pub proof fn lemma_emission_well_formed(program: Seq<Node>)
    requires
        1 + 2 * loops(program) <= usize::MAX,
    ensures
        well_formed(emission(program, 1)),
{
    lemma_emission_scan(program, start_frame());
}

/// Every loop of a program gets two blocks of its own, whatever its
/// content: beside its entry block, the routine has twice as many blocks as
/// the program has loops.
pub proof fn law_two_blocks_per_loop(program: Seq<Node>)
    requires
        1 + 2 * loops(program) <= usize::MAX,
    ensures
        scan(start_frame(), emission(program, 1)) matches Some(frame) && frame.blocks == 1 + 2 * loops(program),
{
    lemma_emission_scan(program, start_frame());
}

/// The steps of a routine depend on nothing but the program: two programs
/// of one shape have the same steps.
pub proof fn law_same_program_same_steps(first: Vec<Instruction>, second: Vec<Instruction>)
    requires
        nodes(first@) == nodes(second@),
    ensures
        emission(nodes(first@), 1) == emission(nodes(second@), 1),
{
}

/// Only an instruction that reads or writes becomes a step that calls a
/// primitive.
pub proof fn lemma_emission_of_io(node: Node, first_block: nat, i: int)
    requires
        0 <= i < emission_of(node, first_block).len(),
        calls_primitive(emission_of(node, first_block)[i]),
    ensures
        performs_io_in(node),
    decreases node,
{
    match node {
        Node::Loop(body) => {
            let before = loop_entry(first_block);
            let content = emission(body, first_block + 2);
            if before.len() <= i < before.len() + content.len() {
                assert(emission_of(node, first_block)[i] == content[i - before.len()]);
                lemma_emission_io(body, first_block + 2, i - before.len());
            }
        },
        _ => {},
    }
}

/// Only a program that reads or writes becomes a routine that calls a
/// primitive.
pub proof fn lemma_emission_io(program: Seq<Node>, first_block: nat, i: int)
    requires
        0 <= i < emission(program, first_block).len(),
        calls_primitive(emission(program, first_block)[i]),
    ensures
        performs_io(program),
    decreases program,
{
    let front = emission(program.drop_last(), first_block);
    if i < front.len() {
        lemma_emission_io(program.drop_last(), first_block, i);
    } else {
        lemma_emission_of_io(program.last(), first_block + 2 * loops(program.drop_last()), i - front.len());
    }
}

/// Appends the steps of an instruction that is no loop.
fn emit_simple(plan: &mut Vec<Op>, instruction: &Instruction)
    requires
        !(instruction is Loop),
    ensures
        forall|first_block: nat|
            final(plan)@ == old(plan)@ + #[trigger] emission_of(instruction@, first_block),
{
    match instruction {
        Instruction::MoveLeft => {
            plan.push(Op::LoadHead);
            plan.push(Op::HeadDown);
            plan.push(Op::StoreHead);
        },
        Instruction::MoveRight => {
            plan.push(Op::LoadHead);
            plan.push(Op::HeadUp);
            plan.push(Op::StoreHead);
        },
        Instruction::Increment => {
            plan.push(Op::LoadHead);
            plan.push(Op::Locate);
            plan.push(Op::LoadCell);
            plan.push(Op::CellUp);
            plan.push(Op::StoreCell);
        },
        Instruction::Decrement => {
            plan.push(Op::LoadHead);
            plan.push(Op::Locate);
            plan.push(Op::LoadCell);
            plan.push(Op::CellDown);
            plan.push(Op::StoreCell);
        },
        Instruction::Output => {
            plan.push(Op::LoadHead);
            plan.push(Op::Locate);
            plan.push(Op::LoadCell);
            plan.push(Op::Put);
        },
        Instruction::Input => {
            plan.push(Op::LoadHead);
            plan.push(Op::Locate);
            plan.push(Op::Get);
            plan.push(Op::StoreCell);
        },
        Instruction::Loop(_) => {},
    }
    assert forall|first_block: nat|
        plan@ == old(plan)@ + #[trigger] emission_of(instruction@, first_block) by {
        assert(plan@ =~= old(plan)@ + emission_of(instruction@, first_block));
    }
}

/// Appends the steps that stand before the content of a loop whose blocks
/// are `block` and `block + 1`.
fn emit_loop_entry(plan: &mut Vec<Op>, block: usize)
    requires
        block < usize::MAX,
    ensures
        final(plan)@ == old(plan)@ + loop_entry(block as nat),
{
    plan.push(Op::LoadHead);
    plan.push(Op::Locate);
    plan.push(Op::LoadCell);
    plan.push(Op::NewBlock(BlockRole::Body));
    plan.push(Op::NewBlock(BlockRole::After));
    plan.push(Op::TestZero);
    plan.push(Op::Branch { on_set: block + 1, on_clear: block });
    plan.push(Op::Enter(block));
    assert(plan@ =~= old(plan)@ + loop_entry(block as nat));
}

/// Appends the steps that stand after the content of a loop whose blocks
/// are `block` and `block + 1`.
fn emit_loop_exit(plan: &mut Vec<Op>, block: usize)
    requires
        block < usize::MAX,
    ensures
        final(plan)@ == old(plan)@ + loop_exit(block as nat),
{
    plan.push(Op::LoadHead);
    plan.push(Op::Locate);
    plan.push(Op::LoadCell);
    plan.push(Op::TestNonZero);
    plan.push(Op::Branch { on_set: block, on_clear: block + 1 });
    plan.push(Op::Enter(block + 1));
    assert(plan@ =~= old(plan)@ + loop_exit(block as nat));
}

/// Appends the steps of `instructions` to `plan`, numbering the blocks of
/// their loops from `next_block` on, and returns the number of the next
/// block after them.
fn compile_instructions(plan: &mut Vec<Op>, next_block: usize, instructions: &Vec<Instruction>) -> (after: usize)
    requires
        2 * next_block <= old(plan)@.len() + 2,
    ensures
        final(plan)@ == old(plan)@ + emission(nodes(instructions@), next_block as nat),
        after == next_block + 2 * loops(nodes(instructions@)),
        2 * after <= final(plan)@.len() + 2,
    decreases instructions,
{
    let ghost start = plan@;
    let mut block = next_block;
    let mut i: usize = 0;
    assert(nodes(instructions@).take(0) =~= Seq::<Node>::empty());
    while i < instructions.len()
        invariant
            i <= instructions.len(),
            plan@ == start + emission(nodes(instructions@).take(i as int), next_block as nat),
            block == next_block + 2 * loops(nodes(instructions@).take(i as int)),
            2 * block <= plan@.len() + 2,
        decreases instructions.len() - i,
    {
        let ghost before = plan@;
        let ghost done = nodes(instructions@).take(i as int);
        proof {
            assert(nodes(instructions@).take(i + 1) =~= done.push(instructions@[i as int]@));
            lemma_loops_push(done, instructions@[i as int]@);
            lemma_emission_push(done, instructions@[i as int]@, next_block as nat);
        }
        match &instructions[i] {
            Instruction::Loop(content) => {
                // There are at most half as many blocks as steps, and one
                // more; the number of steps fits, so the numbers of two more
                // blocks do.
                let steps = plan.len();
                assert(block + 2 <= steps / 2 + 3);
                emit_loop_entry(plan, block);
                proof {
                    assert(decreases_to!(*instructions => instructions[i as int]));
                    assert(decreases_to!(instructions[i as int] => instructions[i as int]->Loop_0));
                    crate::parser::lemma_loop_view(*content);
                }
                let inner = compile_instructions(plan, block + 2, content);
                emit_loop_exit(plan, block);
                assert(plan@ =~= before + emission_of(instructions@[i as int]@, block as nat));
                block = inner;
            },
            simple => {
                emit_simple(plan, simple);
                assert(plan@ == before + emission_of(instructions@[i as int]@, block as nat));
            },
        }
        assert(plan@ =~= start + emission(nodes(instructions@).take(i + 1), next_block as nat));
        i += 1;
    }
    assert(nodes(instructions@).take(instructions@.len() as int) =~= nodes(instructions@));
    block
}

/// Turns a program into the steps of its routine.
///
/// The routine starts in block 0 with the head at cell 0; the loops of the
/// program get the blocks from 1 on, two each, in the order in which the
/// loops begin.
pub fn lower(program: &Vec<Instruction>) -> (plan: Vec<Op>)
    ensures
        plan@ == emission(nodes(program@), 1),
        well_formed(plan@),
        1 + 2 * loops(nodes(program@)) <= usize::MAX,
{
    let mut plan: Vec<Op> = Vec::new();
    let _ = compile_instructions(&mut plan, 1, program);
    proof {
        assert(plan@ =~= Seq::<Op>::empty() + emission(nodes(program@), 1));
        lemma_emission_well_formed(nodes(program@));
    }
    plan
}

/// Compiles a program to the backend's textual form: one module with the
/// declarations of the two I/O primitives and the entry routine.
///
/// The backend is handed the steps of `lower(program)`, in order, between
/// the routine's setup and its return. Whether text comes back is for the
/// backend to say: it may refuse an instruction or the finished routine.
pub fn compile(program: &Vec<Instruction>) -> (r: Result<String, CompileError>)
    ensures
        r matches Err(e) ==> !(e is UnbalancedLoopError),
        r matches Err(e) ==> e is LibraryLinkageError ==> performs_io(nodes(program@)),
{
    let plan = lower(program);
    let r = emit(&plan);
    proof {
        if r is Err && r->Err_0 is LibraryLinkageError {
            let i = choose|i: int| 0 <= i < plan@.len() && calls_primitive(#[trigger] plan@[i]);
            lemma_emission_io(nodes(program@), 1, i);
        }
    }
    r
}

} // verus!
