//! The backend, as far as the library calls it. Every item here stands for
//! one function or type of `inkwell` and is taken on trust. None promises
//! anything of what it returns; a `requires` keeps an integer's width inside
//! what the backend takes.

use vstd::prelude::*;
use inkwell::basic_block::BasicBlock;
use inkwell::builder::{Builder, BuilderError};
use inkwell::context::Context;
use inkwell::module::Module;
use inkwell::passes::PassManager;
use inkwell::types::FunctionType;
use inkwell::values::{FunctionValue, IntValue, PointerValue};

verus! {

/// `inkwell::context::Context`: the owner of everything that is built.
#[verifier::external_type_specification]
#[verifier::external_body]
pub struct ExContext(Context);

/// `inkwell::module::Module`: the unit that holds functions and is printed.
#[verifier::external_type_specification]
#[verifier::external_body]
pub struct ExModule<'ctx>(Module<'ctx>);

/// `inkwell::builder::Builder`: writes instructions at the end of a block.
#[verifier::external_type_specification]
#[verifier::external_body]
pub struct ExBuilder<'ctx>(Builder<'ctx>);

/// `inkwell::builder::BuilderError`: why the builder refused an instruction.
#[verifier::external_type_specification]
#[verifier::external_body]
pub struct ExBuilderError(BuilderError);

/// `inkwell::passes::PassManager`: a pipeline of passes.
#[verifier::external_type_specification]
#[verifier::external_body]
#[verifier::reject_recursive_types(T)]
pub struct ExPassManager<T>(PassManager<T>);

/// `inkwell::types::FunctionType`: the signature of a function.
#[verifier::external_type_specification]
#[verifier::external_body]
pub struct ExFunctionType<'ctx>(FunctionType<'ctx>);

/// `inkwell::values::FunctionValue`: a function of a module.
#[verifier::external_type_specification]
#[verifier::external_body]
pub struct ExFunctionValue<'ctx>(FunctionValue<'ctx>);

/// `inkwell::values::IntValue`: an integer that an instruction yields.
#[verifier::external_type_specification]
#[verifier::external_body]
pub struct ExIntValue<'ctx>(IntValue<'ctx>);

/// `inkwell::values::PointerValue`: an address that an instruction yields.
#[verifier::external_type_specification]
#[verifier::external_body]
pub struct ExPointerValue<'ctx>(PointerValue<'ctx>);

/// `inkwell::basic_block::BasicBlock`: a block of a function.
#[verifier::external_type_specification]
#[verifier::external_body]
pub struct ExBasicBlock<'ctx>(BasicBlock<'ctx>);

/// `Context::create`: a fresh context. Nothing is claimed of it.
#[verifier::external_body]
pub(crate) fn create_context() -> (context: Context) {
    Context::create()
}

/// `Context::create_module`: an empty module of that name.
#[verifier::external_body]
pub(crate) fn create_module<'ctx>(context: &'ctx Context, name: &str) -> (module: Module<'ctx>) {
    context.create_module(name)
}

/// `Context::create_builder`: a builder that stands nowhere yet.
#[verifier::external_body]
pub(crate) fn create_builder<'ctx>(context: &'ctx Context) -> (builder: Builder<'ctx>) {
    context.create_builder()
}

/// `VoidType::fn_type`: the signature without parameters or result.
#[verifier::external_body]
pub(crate) fn procedure_type<'ctx>(context: &'ctx Context) -> (signature: FunctionType<'ctx>) {
    context.void_type().fn_type(&[], false)
}

/// `IntType::fn_type` without parameters: the signature that yields an
/// integer of `result_bits` bits.
#[verifier::external_body]
pub(crate) fn source_type<'ctx>(context: &'ctx Context, result_bits: u32) -> (signature: FunctionType<'ctx>)
    requires
        0 < result_bits <= 64,
{
    context.custom_width_int_type(result_bits).fn_type(&[], false)
}

/// `IntType::fn_type` with one parameter: the signature that takes an
/// integer of `taken_bits` bits and yields one of `result_bits` bits.
#[verifier::external_body]
pub(crate) fn sink_type<'ctx>(
    context: &'ctx Context,
    result_bits: u32,
    taken_bits: u32,
) -> (signature: FunctionType<'ctx>)
    requires
        0 < result_bits <= 64,
        0 < taken_bits <= 64,
{
    context.custom_width_int_type(result_bits).fn_type(
        &[context.custom_width_int_type(taken_bits).into()],
        false,
    )
}

/// `Module::add_function`: declares a function of that name and signature.
#[verifier::external_body]
pub(crate) fn add_function<'ctx>(
    module: &Module<'ctx>,
    name: &str,
    signature: FunctionType<'ctx>,
) -> (function: FunctionValue<'ctx>) {
    module.add_function(name, signature, None)
}

/// `Module::get_function`: the function of that name, if the module has one.
#[verifier::external_body]
pub(crate) fn get_function<'ctx>(module: &Module<'ctx>, name: &str) -> (function: Option<FunctionValue<'ctx>>) {
    module.get_function(name)
}

/// `Context::append_basic_block`: a new last block of the function.
#[verifier::external_body]
pub(crate) fn append_block<'ctx>(
    context: &'ctx Context,
    function: FunctionValue<'ctx>,
    name: &str,
) -> (block: BasicBlock<'ctx>) {
    context.append_basic_block(function, name)
}

/// `Builder::position_at_end`: the builder goes on at the end of the block.
#[verifier::external_body]
pub(crate) fn position_at_end<'ctx>(builder: &Builder<'ctx>, block: BasicBlock<'ctx>) {
    builder.position_at_end(block)
}

/// `Builder::build_alloca` of one integer of `bits` bits.
#[verifier::external_body]
pub(crate) fn alloca_int<'ctx>(
    context: &'ctx Context,
    builder: &Builder<'ctx>,
    bits: u32,
    name: &str,
) -> (slot: Result<PointerValue<'ctx>, BuilderError>)
    requires
        0 < bits <= 64,
{
    builder.build_alloca(context.custom_width_int_type(bits), name)
}

/// `Builder::build_alloca` of an array of `len` integers of `bits` bits.
#[verifier::external_body]
pub(crate) fn alloca_array<'ctx>(
    context: &'ctx Context,
    builder: &Builder<'ctx>,
    bits: u32,
    len: u32,
    name: &str,
) -> (slot: Result<PointerValue<'ctx>, BuilderError>)
    requires
        0 < bits <= 64,
{
    builder.build_alloca(context.custom_width_int_type(bits).array_type(len), name)
}

/// `IntType::const_int`: the constant `value` of `bits` bits, not
/// sign-extended.
#[verifier::external_body]
pub(crate) fn const_int<'ctx>(context: &'ctx Context, bits: u32, value: u64) -> (constant: IntValue<'ctx>)
    requires
        0 < bits <= 64,
{
    context.custom_width_int_type(bits).const_int(value, false)
}

/// `Builder::build_store` of an integer.
#[verifier::external_body]
pub(crate) fn store_int<'ctx>(
    builder: &Builder<'ctx>,
    slot: PointerValue<'ctx>,
    value: IntValue<'ctx>,
) -> (done: Result<(), BuilderError>) {
    builder.build_store(slot, value).map(|_| ())
}

/// `Builder::build_store` of `ArrayType::const_zero`: every element of the
/// array of `len` integers of `bits` bits becomes zero.
#[verifier::external_body]
pub(crate) fn store_zeros<'ctx>(
    context: &'ctx Context,
    builder: &Builder<'ctx>,
    slot: PointerValue<'ctx>,
    bits: u32,
    len: u32,
) -> (done: Result<(), BuilderError>)
    requires
        0 < bits <= 64,
{
    builder.build_store(slot, context.custom_width_int_type(bits).array_type(len).const_zero()).map(|_| ())
}

/// `Builder::build_load`: the value at the address, where it is an integer.
#[verifier::external_body]
pub(crate) fn load_int<'ctx>(
    builder: &Builder<'ctx>,
    slot: PointerValue<'ctx>,
    name: &str,
) -> (value: Result<Option<IntValue<'ctx>>, BuilderError>) {
    builder.build_load(slot, name).map(|loaded| IntValue::try_from(loaded).ok())
}

/// `Builder::build_int_add`.
#[verifier::external_body]
pub(crate) fn int_add<'ctx>(
    builder: &Builder<'ctx>,
    left: IntValue<'ctx>,
    right: IntValue<'ctx>,
    name: &str,
) -> (sum: Result<IntValue<'ctx>, BuilderError>) {
    builder.build_int_add(left, right, name)
}

/// `Builder::build_int_sub`.
#[verifier::external_body]
pub(crate) fn int_sub<'ctx>(
    builder: &Builder<'ctx>,
    left: IntValue<'ctx>,
    right: IntValue<'ctx>,
    name: &str,
) -> (difference: Result<IntValue<'ctx>, BuilderError>) {
    builder.build_int_sub(left, right, name)
}

/// `Builder::build_int_z_extend` to `bits` bits.
#[verifier::external_body]
pub(crate) fn zero_extend<'ctx>(
    context: &'ctx Context,
    builder: &Builder<'ctx>,
    value: IntValue<'ctx>,
    bits: u32,
    name: &str,
) -> (wide: Result<IntValue<'ctx>, BuilderError>)
    requires
        0 < bits <= 64,
{
    builder.build_int_z_extend(value, context.custom_width_int_type(bits), name)
}

/// `Builder::build_ptr_to_int`: the address as an integer of `bits` bits.
#[verifier::external_body]
pub(crate) fn pointer_to_int<'ctx>(
    context: &'ctx Context,
    builder: &Builder<'ctx>,
    pointer: PointerValue<'ctx>,
    bits: u32,
    name: &str,
) -> (address: Result<IntValue<'ctx>, BuilderError>)
    requires
        0 < bits <= 64,
{
    builder.build_ptr_to_int(pointer, context.custom_width_int_type(bits), name)
}

/// `Builder::build_int_to_ptr`: the integer as the address of an integer of
/// `bits` bits.
#[verifier::external_body]
pub(crate) fn int_to_pointer<'ctx>(
    context: &'ctx Context,
    builder: &Builder<'ctx>,
    address: IntValue<'ctx>,
    bits: u32,
    name: &str,
) -> (pointer: Result<PointerValue<'ctx>, BuilderError>)
    requires
        0 < bits <= 64,
{
    let target = context.custom_width_int_type(bits).ptr_type(inkwell::AddressSpace::default());
    builder.build_int_to_ptr(address, target, name)
}

/// `Builder::build_int_compare` with `IntPredicate::EQ`.
#[verifier::external_body]
pub(crate) fn int_equal<'ctx>(
    builder: &Builder<'ctx>,
    left: IntValue<'ctx>,
    right: IntValue<'ctx>,
    name: &str,
) -> (flag: Result<IntValue<'ctx>, BuilderError>) {
    builder.build_int_compare(inkwell::IntPredicate::EQ, left, right, name)
}

/// `Builder::build_int_compare` with `IntPredicate::NE`.
#[verifier::external_body]
pub(crate) fn int_unequal<'ctx>(
    builder: &Builder<'ctx>,
    left: IntValue<'ctx>,
    right: IntValue<'ctx>,
    name: &str,
) -> (flag: Result<IntValue<'ctx>, BuilderError>) {
    builder.build_int_compare(inkwell::IntPredicate::NE, left, right, name)
}

/// `Builder::build_conditional_branch`.
#[verifier::external_body]
pub(crate) fn conditional_branch<'ctx>(
    builder: &Builder<'ctx>,
    flag: IntValue<'ctx>,
    on_set: BasicBlock<'ctx>,
    on_clear: BasicBlock<'ctx>,
) -> (done: Result<(), BuilderError>) {
    builder.build_conditional_branch(flag, on_set, on_clear).map(|_| ())
}

/// `Builder::build_call` with one integer argument; what the call yields is
/// dropped.
#[verifier::external_body]
pub(crate) fn call_with<'ctx>(
    builder: &Builder<'ctx>,
    function: FunctionValue<'ctx>,
    argument: IntValue<'ctx>,
    name: &str,
) -> (done: Result<(), BuilderError>) {
    builder.build_call(function, &[argument.into()], name).map(|_| ())
}

/// `Builder::build_call` without arguments, then
/// `CallSiteValue::try_as_basic_value`: what the call yields, where it is an
/// integer.
#[verifier::external_body]
pub(crate) fn call_for_int<'ctx>(
    builder: &Builder<'ctx>,
    function: FunctionValue<'ctx>,
    name: &str,
) -> (value: Result<Option<IntValue<'ctx>>, BuilderError>) {
    builder.build_call(function, &[], name).map(
        |call| call.try_as_basic_value().left().and_then(|yielded| IntValue::try_from(yielded).ok()),
    )
}

/// `Builder::build_return` without a value.
#[verifier::external_body]
pub(crate) fn return_void<'ctx>(builder: &Builder<'ctx>) -> (done: Result<(), BuilderError>) {
    builder.build_return(None).map(|_| ())
}

/// `FunctionValue::verify`, silent: whether the backend takes the function
/// for valid.
#[verifier::external_body]
pub(crate) fn verify_function<'ctx>(function: FunctionValue<'ctx>) -> (valid: bool) {
    function.verify(false)
}

/// `PassManager::create`: an empty pipeline for the functions of a module.
#[verifier::external_body]
pub(crate) fn create_pass_manager<'ctx>(module: &Module<'ctx>) -> (passes: PassManager<FunctionValue<'ctx>>) {
    PassManager::create(module)
}

/// `PassManager::initialize`.
#[verifier::external_body]
pub(crate) fn initialize_passes<'ctx>(passes: &PassManager<FunctionValue<'ctx>>) -> (changed: bool) {
    passes.initialize()
}

/// `PassManager::run_on`: runs the pipeline on a function.
#[verifier::external_body]
pub(crate) fn run_passes<'ctx>(
    passes: &PassManager<FunctionValue<'ctx>>,
    function: &FunctionValue<'ctx>,
) -> (changed: bool) {
    passes.run_on(function)
}

/// `Module::print_to_string`: the module in the backend's textual form.
#[verifier::external_body]
pub(crate) fn print_module<'ctx>(module: &Module<'ctx>) -> (text: String) {
    module.print_to_string().to_string()
}

} // verus!
