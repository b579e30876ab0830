//! What a program means, and what the steps of a routine do when they run.

use vstd::prelude::*;
use crate::codegen::TAPE_LEN;
use crate::ir::Op;
use crate::parser::Node;

verus! {

/// What a running program can see and change.
pub struct Store {
    /// The index of the current cell.
    pub head: int,
    /// The cells.
    pub tape: Seq<int>,
    /// What the input primitive returns on each of its calls, the first
    /// being call 0.
    pub input: spec_fn(int) -> int,
    /// The number of calls of the input primitive so far.
    pub consumed: int,
    /// What was handed to the output primitive so far.
    pub output: Seq<int>,
}

/// The number of values of the head, and of cells on the tape.
pub open spec fn head_values() -> int {
    TAPE_LEN as int
}

/// The number of values of a cell: it holds eight bits.
pub open spec fn cell_values() -> int {
    256
}

/// The head selects a cell, and every cell holds eight bits.
pub open spec fn valid(store: Store) -> bool {
    &&& 0 <= store.head < head_values()
    &&& store.tape.len() == head_values()
    &&& forall|i: int| 0 <= i < store.tape.len() ==> 0 <= #[trigger] store.tape[i] < cell_values()
}

/// The store in which a routine starts: the head at cell 0, every cell 0,
/// nothing read and nothing written.
pub open spec fn initial(input: spec_fn(int) -> int) -> Store {
    Store {
        head: 0,
        tape: Seq::new(head_values() as nat, |i: int| 0int),
        input,
        consumed: 0,
        output: Seq::empty(),
    }
}

/// What an instruction that is no loop does to the store. The head wraps
/// around the tape and a cell wraps around its eight bits.
pub open spec fn effect(node: Node, store: Store) -> Store {
    match node {
        Node::MoveLeft => Store { head: (store.head - 1) % head_values(), ..store },
        Node::MoveRight => Store { head: (store.head + 1) % head_values(), ..store },
        Node::Increment => Store {
            tape: store.tape.update(store.head, (store.tape[store.head] + 1) % cell_values()),
            ..store
        },
        Node::Decrement => Store {
            tape: store.tape.update(store.head, (store.tape[store.head] - 1) % cell_values()),
            ..store
        },
        Node::Output => Store { output: store.output.push(store.tape[store.head]), ..store },
        Node::Input => Store {
            tape: store.tape.update(store.head, (store.input)(store.consumed) % cell_values()),
            consumed: store.consumed + 1,
            ..store
        },
        Node::Loop(_) => store,
    }
}

/// The store after a program has run, if it comes to its end with at most
/// `fuel` rounds of loops inside one another or one after the other.
pub open spec fn outcome(program: Seq<Node>, store: Store, fuel: nat) -> Option<Store>
    decreases fuel, program,
{
    if program.len() == 0 {
        Some(store)
    } else {
        match outcome(program.drop_last(), store, fuel) {
            Some(reached) => outcome_of(program.last(), reached, fuel),
            None => None,
        }
    }
}

/// The store after an instruction has run. A loop whose cell is zero does
/// nothing; any other loop runs its content once and then starts over.
pub open spec fn outcome_of(node: Node, store: Store, fuel: nat) -> Option<Store>
    decreases fuel, node,
{
    match node {
        Node::Loop(body) => if store.tape[store.head] == 0 {
            Some(store)
        } else if fuel == 0 {
            None
        } else {
            match outcome(body, store, (fuel - 1) as nat) {
                Some(reached) => outcome_of(node, reached, (fuel - 1) as nat),
                None => None,
            }
        },
        _ => Some(effect(node, store)),
    }
}

/// A routine's store and its four registers.
pub struct Machine {
    pub store: Store,
    pub index: int,
    pub address: int,
    pub value: int,
    pub flag: bool,
}

/// What a step does to the machine. The steps that make, end and enter
/// blocks leave it as it is.
pub open spec fn perform(op: Op, machine: Machine) -> Machine {
    let store = machine.store;
    match op {
        Op::LoadHead => Machine { index: store.head, ..machine },
        Op::HeadUp => Machine { index: (machine.index + 1) % head_values(), ..machine },
        Op::HeadDown => Machine { index: (machine.index - 1) % head_values(), ..machine },
        Op::StoreHead => Machine { store: Store { head: machine.index, ..store }, ..machine },
        Op::Locate => Machine { address: machine.index, ..machine },
        Op::LoadCell => Machine { value: store.tape[machine.address], ..machine },
        Op::CellUp => Machine { value: (machine.value + 1) % cell_values(), ..machine },
        Op::CellDown => Machine { value: (machine.value - 1) % cell_values(), ..machine },
        Op::StoreCell => Machine {
            store: Store { tape: store.tape.update(machine.address, machine.value), ..store },
            ..machine
        },
        Op::Put => Machine { store: Store { output: store.output.push(machine.value), ..store }, ..machine },
        Op::Get => Machine {
            store: Store { consumed: store.consumed + 1, ..store },
            value: (store.input)(store.consumed) % cell_values(),
            ..machine
        },
        Op::TestZero => Machine { flag: machine.value == 0, ..machine },
        Op::TestNonZero => Machine { flag: machine.value != 0, ..machine },
        Op::NewBlock(_) => machine,
        Op::Branch { on_set, on_clear } => machine,
        Op::Enter(_) => machine,
    }
}

/// A machine and the position in the routine of the step that is next.
pub struct State {
    pub at: int,
    pub machine: Machine,
}

/// Where the steps of a block begin: behind the step that enters it.
pub open spec fn entry_of(plan: Seq<Op>, block: usize) -> int {
    (choose|i: int| 0 <= i < plan.len() && plan[i] == Op::Enter(block)) + 1
}

/// The state after the next step. A branch goes on in the block that the
/// flag selects, every other step with the step behind it; a routine that
/// has run off its end has returned and stays where it is.
pub open spec fn step(plan: Seq<Op>, state: State) -> State {
    if 0 <= state.at < plan.len() {
        match plan[state.at] {
            Op::Branch { on_set, on_clear } => State {
                at: entry_of(plan, if state.machine.flag { on_set } else { on_clear }),
                machine: state.machine,
            },
            op => State { at: state.at + 1, machine: perform(op, state.machine) },
        }
    } else {
        state
    }
}

/// The state after `n` steps.
pub open spec fn run(plan: Seq<Op>, state: State, n: nat) -> State
    decreases n,
{
    if n == 0 {
        state
    } else {
        run(plan, step(plan, state), (n - 1) as nat)
    }
}

/// Running `a` steps and then `b` more is running `a + b` steps.
pub proof fn lemma_run_add(plan: Seq<Op>, state: State, a: nat, b: nat)
    ensures
        run(plan, state, a + b) == run(plan, run(plan, state, a), b),
    decreases a,
{
    if a > 0 {
        lemma_run_add(plan, step(plan, state), (a - 1) as nat, b);
    }
}

} // verus!
