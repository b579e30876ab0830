//! The steps that a routine is made of, and what makes a run of steps a
//! well-formed routine.

use vstd::prelude::*;

verus! {

/// What a block of a loop is for.
#[derive(Debug, PartialEq, Eq, Clone, Copy)]
pub enum BlockRole {
    /// The block that holds the loop's content and its closing test.
    Body,
    /// The block where control goes on once the loop is over.
    After,
}

/// One step of a generated routine.
///
/// A routine works on a head index, a tape of cells, and four registers: an
/// index, a cell address, a cell value and a flag. Its blocks are numbered in
/// the order in which they are made; block 0 is the routine's entry.
#[derive(Debug, PartialEq, Eq, Clone, Copy)]
pub enum Op {
    /// Read the head into the index register.
    LoadHead,
    /// Add one to the index register, wrapping at 16 bits.
    HeadUp,
    /// Take one from the index register, wrapping at 16 bits.
    HeadDown,
    /// Write the index register to the head.
    StoreHead,
    /// Put the address of the cell that the index register selects into the
    /// address register.
    Locate,
    /// Read the cell at the address register into the value register.
    LoadCell,
    /// Add one to the value register, wrapping at 8 bits.
    CellUp,
    /// Take one from the value register, wrapping at 8 bits.
    CellDown,
    /// Write the value register to the cell at the address register.
    StoreCell,
    /// Hand the value register to the output primitive.
    Put,
    /// Put what the input primitive returns into the value register.
    Get,
    /// Set the flag if the value register is zero.
    TestZero,
    /// Set the flag if the value register is not zero.
    TestNonZero,
    /// Make the next block of the routine.
    NewBlock(BlockRole),
    /// End the current block: go to `on_set` if the flag is set, else to
    /// `on_clear`.
    Branch { on_set: usize, on_clear: usize },
    /// Go on writing at the end of a block.
    Enter(usize),
}

/// Whether a step calls one of the two I/O primitives.
pub open spec fn calls_primitive(op: Op) -> bool {
    op is Put || op is Get
}

/// What has been set up at some point while a routine is written.
pub struct Frame {
    /// The number of blocks made so far.
    pub blocks: nat,
    /// The blocks that have been written to.
    pub entered: Set<nat>,
    /// Whether the block being written has not been ended yet.
    pub open: bool,
    /// Whether the index register has been set in this block.
    pub index: bool,
    /// Whether the address register has been set in this block.
    pub address: bool,
    /// Whether the value register has been set in this block.
    pub value: bool,
    /// Whether the flag has been set in this block.
    pub flag: bool,
}

/// The frame in which a routine starts: inside its entry block, with no
/// register set.
pub open spec fn start_frame() -> Frame {
    Frame {
        blocks: 1,
        entered: set![0nat],
        open: true,
        index: false,
        address: false,
        value: false,
        flag: false,
    }
}

/// Whether a step may follow in a frame: it stands in a block that is not
/// ended, the registers it reads are set, the blocks it names have been
/// made, and it enters a block only after the one before is ended, and no
/// block twice.
pub open spec fn admits(frame: Frame, op: Op) -> bool {
    match op {
        Op::LoadHead => frame.open,
        Op::HeadUp => frame.open && frame.index,
        Op::HeadDown => frame.open && frame.index,
        Op::StoreHead => frame.open && frame.index,
        Op::Locate => frame.open && frame.index,
        Op::LoadCell => frame.open && frame.address,
        Op::CellUp => frame.open && frame.value,
        Op::CellDown => frame.open && frame.value,
        Op::StoreCell => frame.open && frame.address && frame.value,
        Op::Put => frame.open && frame.value,
        Op::Get => frame.open,
        Op::TestZero => frame.open && frame.value,
        Op::TestNonZero => frame.open && frame.value,
        Op::NewBlock(_) => true,
        Op::Branch { on_set, on_clear } => frame.open && frame.flag && on_set < frame.blocks && on_clear
            < frame.blocks,
        Op::Enter(block) => !frame.open && block < frame.blocks && !frame.entered.contains(block as nat),
    }
}

/// The frame after a step.
pub open spec fn advance(frame: Frame, op: Op) -> Frame {
    match op {
        Op::LoadHead => Frame { index: true, ..frame },
        Op::Locate => Frame { address: true, ..frame },
        Op::LoadCell => Frame { value: true, ..frame },
        Op::Get => Frame { value: true, ..frame },
        Op::TestZero => Frame { flag: true, ..frame },
        Op::TestNonZero => Frame { flag: true, ..frame },
        Op::NewBlock(_) => Frame { blocks: frame.blocks + 1, ..frame },
        Op::Branch { on_set, on_clear } => Frame { open: false, ..frame },
        Op::Enter(block) => Frame {
            blocks: frame.blocks,
            entered: frame.entered.insert(block as nat),
            open: true,
            index: false,
            address: false,
            value: false,
            flag: false,
        },
        _ => frame,
    }
}

/// The frame after a run of steps that starts in `frame`, if every step of
/// the run may follow where it stands.
pub open spec fn scan(frame: Frame, ops: Seq<Op>) -> Option<Frame>
    decreases ops.len(),
{
    if ops.len() == 0 {
        Some(frame)
    } else {
        match scan(frame, ops.drop_last()) {
            Some(reached) => if admits(reached, ops.last()) {
                Some(advance(reached, ops.last()))
            } else {
                None
            },
            None => None,
        }
    }
}

/// A routine is well formed when every step may follow where it stands,
/// every block that was made has been written to, and the last block is
/// still open for the return that ends the routine. Each block then ends in
/// exactly one branch or in the return, and no register is read in a block
/// that did not set it.
pub open spec fn well_formed(ops: Seq<Op>) -> bool {
    match scan(start_frame(), ops) {
        Some(frame) => frame.open && forall|block: nat| block < frame.blocks ==> frame.entered.contains(block),
        None => false,
    }
}

/// Scanning one more step.
pub proof fn lemma_scan_push(frame: Frame, ops: Seq<Op>, op: Op)
    ensures
        scan(frame, ops.push(op)) == match scan(frame, ops) {
            Some(reached) => if admits(reached, op) {
                Some(advance(reached, op))
            } else {
                None
            },
            None => None,
        },
{
    assert(ops.push(op).drop_last() =~= ops);
}

/// Scanning two runs, one after the other.
pub proof fn lemma_scan_append(frame: Frame, first: Seq<Op>, second: Seq<Op>)
    ensures
        scan(frame, first + second) == match scan(frame, first) {
            Some(reached) => scan(reached, second),
            None => None,
        },
    decreases second.len(),
{
    if second.len() == 0 {
        assert(first + second =~= first);
    } else {
        lemma_scan_append(frame, first, second.drop_last());
        assert((first + second).drop_last() =~= first + second.drop_last());
        assert((first + second).last() == second.last());
    }
}

/// Where a run of steps can be scanned, so can each of its beginnings.
pub proof fn lemma_scan_prefix(frame: Frame, ops: Seq<Op>, n: int)
    requires
        scan(frame, ops) is Some,
        0 <= n <= ops.len(),
    ensures
        scan(frame, ops.take(n)) is Some,
    decreases ops.len(),
{
    if n < ops.len() {
        lemma_scan_prefix(frame, ops.drop_last(), n);
        assert(ops.drop_last().take(n) =~= ops.take(n));
    } else {
        assert(ops.take(n) =~= ops);
    }
}

} // verus!
