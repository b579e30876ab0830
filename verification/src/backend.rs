//! Writing a routine with the backend, step by step.

use vstd::prelude::*;
use inkwell::basic_block::BasicBlock;
use inkwell::builder::{Builder, BuilderError};
use inkwell::context::Context;
use inkwell::module::Module;
use inkwell::values::{FunctionValue, IntValue, PointerValue};
use crate::ir::{
    admits, advance, calls_primitive, lemma_scan_prefix, scan, start_frame, well_formed, BlockRole, Frame, Op,
};
use crate::codegen::{CompileError, CELL_BITS, HEAD_BITS, TAPE_LEN};
use crate::llvm;

verus! {

/// Width in bits of what the output primitive returns.
pub const OUTPUT_BITS: u32 = 16;

/// Width in bits of the integers that addresses are computed in.
pub const ADDRESS_BITS: u32 = 64;

/// What the builder built, or the builder's refusal as a `CompileError`.
pub fn built<T>(outcome: Result<T, BuilderError>) -> (r: Result<T, CompileError>)
    ensures
        outcome matches Ok(value) ==> r == Ok::<T, CompileError>(value),
        outcome matches Err(cause) ==> r == Err::<T, CompileError>(CompileError::BuilderError(cause)),
{
    match outcome {
        Ok(value) => Ok(value),
        Err(cause) => Err(CompileError::BuilderError(cause)),
    }
}

/// The primitive that was looked up, or the failure to find it.
pub fn linked<T>(found: Option<T>) -> (r: Result<T, CompileError>)
    ensures
        found matches Some(value) ==> r == Ok::<T, CompileError>(value),
        found is None ==> r == Err::<T, CompileError>(CompileError::LibraryLinkageError),
{
    match found {
        Some(value) => Ok(value),
        None => Err(CompileError::LibraryLinkageError),
    }
}

/// The integer that was read from the routine's storage. Where the backend
/// yields something else there, the routine is not valid.
pub fn integer<T>(read: Option<T>) -> (r: Result<T, CompileError>)
    ensures
        read matches Some(value) ==> r == Ok::<T, CompileError>(value),
        read is None ==> r == Err::<T, CompileError>(CompileError::FunctionVerifyError),
{
    match read {
        Some(value) => Ok(value),
        None => Err(CompileError::FunctionVerifyError),
    }
}

/// The backend's verdict on the finished routine as a result.
pub fn accepted(valid: bool) -> (r: Result<(), CompileError>)
    ensures
        valid ==> r == Ok::<(), CompileError>(()),
        !valid ==> r == Err::<(), CompileError>(CompileError::FunctionVerifyError),
{
    if valid {
        Ok(())
    } else {
        Err(CompileError::FunctionVerifyError)
    }
}

/// A routine while it is written: the backend's handles for its module,
/// its storage and its blocks, and the registers of the block being written.
struct Routine<'ctx> {
    context: &'ctx Context,
    module: Module<'ctx>,
    builder: Builder<'ctx>,
    entry: FunctionValue<'ctx>,
    head: PointerValue<'ctx>,
    tape: PointerValue<'ctx>,
    blocks: Vec<BasicBlock<'ctx>>,
    index: Option<IntValue<'ctx>>,
    address: Option<PointerValue<'ctx>>,
    value: Option<IntValue<'ctx>>,
    flag: Option<IntValue<'ctx>>,
}

impl<'ctx> Routine<'ctx> {
    /// The routine holds a handle for each block and each register that
    /// `frame` says is there.
    spec fn fits(&self, frame: Frame) -> bool {
        &&& self.blocks@.len() == frame.blocks
        &&& frame.index ==> self.index is Some
        &&& frame.address ==> self.address is Some
        &&& frame.value ==> self.value is Some
        &&& frame.flag ==> self.flag is Some
    }

    /// Declares the two I/O primitives and the entry routine, and writes the
    /// start of the entry block: the head, set to 0, and the tape, with
    /// every cell set to 0.
    fn begin(context: &'ctx Context) -> (r: Result<Routine<'ctx>, CompileError>)
        ensures
            r matches Ok(routine) ==> routine.fits(start_frame()),
            r matches Err(e) ==> e is BuilderError,
    {
        let module = llvm::create_module(context, "bf");
        let builder = llvm::create_builder(context);

        llvm::add_function(&module, "putchar", llvm::sink_type(context, OUTPUT_BITS, CELL_BITS));
        llvm::add_function(&module, "getchar", llvm::source_type(context, CELL_BITS));
        let entry = llvm::add_function(&module, "main", llvm::procedure_type(context));

        let first = llvm::append_block(context, entry, "entry");
        llvm::position_at_end(&builder, first);

        let head = built(llvm::alloca_int(context, &builder, HEAD_BITS, "head"))?;
        let tape = built(llvm::alloca_array(context, &builder, CELL_BITS, TAPE_LEN, "tape"))?;
        built(llvm::store_int(&builder, head, llvm::const_int(context, HEAD_BITS, 0)))?;
        built(llvm::store_zeros(context, &builder, tape, CELL_BITS, TAPE_LEN))?;

        let mut blocks: Vec<BasicBlock<'ctx>> = Vec::new();
        blocks.push(first);
        Ok(
            Routine {
                context,
                module,
                builder,
                entry,
                head,
                tape,
                blocks,
                index: None,
                address: None,
                value: None,
                flag: None,
            },
        )
    }

    /// Writes one step: the instruction of the backend that does what
    /// `machine::perform` says of the step, with the widths of the head and
    /// of a cell. `Locate` takes four instructions, see `locate`; the steps
    /// that make and enter blocks write none.
    fn step(&mut self, op: Op, frame: Ghost<Frame>) -> (r: Result<(), CompileError>)
        requires
            old(self).fits(frame@),
            admits(frame@, op),
        ensures
            r is Ok ==> final(self).fits(advance(frame@, op)),
            r matches Err(e) ==> !(e is UnbalancedLoopError),
            r matches Err(e) ==> e is LibraryLinkageError ==> calls_primitive(op),
    {
        match op {
            Op::LoadHead => {
                let index = integer(built(llvm::load_int(&self.builder, self.head, "load_head"))?)?;
                self.index = Some(index);
            },
            Op::HeadUp => {
                let one = llvm::const_int(self.context, HEAD_BITS, 1);
                let index = built(llvm::int_add(&self.builder, self.index.unwrap(), one, "new_head"))?;
                self.index = Some(index);
            },
            Op::HeadDown => {
                let one = llvm::const_int(self.context, HEAD_BITS, 1);
                let index = built(llvm::int_sub(&self.builder, self.index.unwrap(), one, "new_head"))?;
                self.index = Some(index);
            },
            Op::StoreHead => {
                built(llvm::store_int(&self.builder, self.head, self.index.unwrap()))?;
            },
            Op::Locate => {
                self.locate()?;
            },
            Op::LoadCell => {
                let value = integer(built(llvm::load_int(&self.builder, self.address.unwrap(), "cell"))?)?;
                self.value = Some(value);
            },
            Op::CellUp => {
                let one = llvm::const_int(self.context, CELL_BITS, 1);
                let value = built(llvm::int_add(&self.builder, self.value.unwrap(), one, "cell_inc"))?;
                self.value = Some(value);
            },
            Op::CellDown => {
                let one = llvm::const_int(self.context, CELL_BITS, 1);
                let value = built(llvm::int_sub(&self.builder, self.value.unwrap(), one, "cell_dec"))?;
                self.value = Some(value);
            },
            Op::StoreCell => {
                built(llvm::store_int(&self.builder, self.address.unwrap(), self.value.unwrap()))?;
            },
            Op::Put => {
                let output = linked(llvm::get_function(&self.module, "putchar"))?;
                built(llvm::call_with(&self.builder, output, self.value.unwrap(), "putchar"))?;
            },
            Op::Get => {
                let input = linked(llvm::get_function(&self.module, "getchar"))?;
                let value = linked(built(llvm::call_for_int(&self.builder, input, "getchar"))?)?;
                self.value = Some(value);
            },
            Op::TestZero => {
                let zero = llvm::const_int(self.context, CELL_BITS, 0);
                let flag = built(llvm::int_equal(&self.builder, self.value.unwrap(), zero, "cell_eq_zero"))?;
                self.flag = Some(flag);
            },
            Op::TestNonZero => {
                let zero = llvm::const_int(self.context, CELL_BITS, 0);
                let flag = built(llvm::int_unequal(&self.builder, self.value.unwrap(), zero, "cell_eq_zero"))?;
                self.flag = Some(flag);
            },
            Op::NewBlock(role) => {
                let block = match role {
                    BlockRole::Body => llvm::append_block(self.context, self.entry, "loop"),
                    BlockRole::After => llvm::append_block(self.context, self.entry, "loop_remain"),
                };
                self.blocks.push(block);
            },
            Op::Branch { on_set, on_clear } => {
                built(
                    llvm::conditional_branch(
                        &self.builder,
                        self.flag.unwrap(),
                        self.blocks[on_set],
                        self.blocks[on_clear],
                    ),
                )?;
            },
            Op::Enter(block) => {
                llvm::position_at_end(&self.builder, self.blocks[block]);
                self.index = None;
                self.address = None;
                self.value = None;
                self.flag = None;
            },
        }
        Ok(())
    }

    /// Puts the address of the cell that the index register selects into
    /// the address register, and leaves the rest of the routine as it is.
    /// The address is that of the tape plus the index, taken as unsigned. The
    /// sum is formed in integers, since the builder offers its element
    /// addressing only to callers that vouch for the indices themselves.
    /// Where the builder refuses one of the four instructions, the address
    /// register stays as it was.
    fn locate(&mut self) -> (r: Result<(), CompileError>)
        requires
            old(self).index is Some,
        ensures
            r is Ok ==> final(self).address is Some,
            r is Err ==> final(self).address == old(self).address,
            r matches Err(e) ==> e is BuilderError,
            final(self).blocks == old(self).blocks,
            final(self).index == old(self).index,
            final(self).value == old(self).value,
            final(self).flag == old(self).flag,
    {
        let index = self.index.unwrap();
        let offset = built(llvm::zero_extend(self.context, &self.builder, index, ADDRESS_BITS, "cell_index"))?;
        let base = built(llvm::pointer_to_int(self.context, &self.builder, self.tape, ADDRESS_BITS, "tape_base"))?;
        let sum = built(llvm::int_add(&self.builder, base, offset, "cell_addr"))?;
        let address = built(llvm::int_to_pointer(self.context, &self.builder, sum, CELL_BITS, "cell_ptr"))?;
        self.address = Some(address);
        Ok(())
    }

    /// Finishes a routine that has been ended with its return, given the
    /// backend's verdict on it. A routine that the backend takes for valid
    /// goes through the backend's pass pipeline, which holds no pass, and
    /// its module is returned as text; one that it refuses is a
    /// `FunctionVerifyError`, and nothing more is done with it.
    fn finish(self, valid: bool) -> (r: Result<String, CompileError>)
        ensures
            valid ==> r is Ok,
            !valid ==> r == Err::<String, CompileError>(CompileError::FunctionVerifyError),
    {
        accepted(valid)?;
        let passes = llvm::create_pass_manager(&self.module);
        llvm::initialize_passes(&passes);
        llvm::run_passes(&passes, &self.entry);
        Ok(llvm::print_module(&self.module))
    }
}

/// Has the backend write the routine that `plan` describes, end it with a
/// return and check it, and returns the module that holds it as text.
///
/// Whether text comes back is for the backend to say, call by call: what
/// becomes of each of its answers is stated by `built`, `linked`, `integer`
/// and `Routine::finish`.
pub(crate) fn emit(plan: &Vec<Op>) -> (r: Result<String, CompileError>)
    requires
        well_formed(plan@),
    ensures
        r matches Err(e) ==> !(e is UnbalancedLoopError),
        r matches Err(e) ==> e is LibraryLinkageError ==> exists|i: int|
            0 <= i < plan@.len() && calls_primitive(#[trigger] plan@[i]),
{
    let context = llvm::create_context();
    let mut routine = Routine::begin(&context)?;
    let mut i: usize = 0;
    let ghost mut frame = start_frame();
    assert(plan@.take(0) =~= Seq::<Op>::empty());
    while i < plan.len()
        invariant
            i <= plan.len(),
            well_formed(plan@),
            scan(start_frame(), plan@.take(i as int)) == Some(frame),
            routine.fits(frame),
        decreases plan.len() - i,
    {
        proof {
            lemma_scan_prefix(start_frame(), plan@, i + 1);
            assert(plan@.take(i + 1).drop_last() =~= plan@.take(i as int));
        }
        routine.step(plan[i], Ghost(frame))?;
        proof {
            frame = advance(frame, plan@[i as int]);
        }
        i += 1;
    }
    built(llvm::return_void(&routine.builder))?;
    let valid = llvm::verify_function(routine.entry);
    routine.finish(valid)
}

} // verus!
