//! The routine of a program does what the program means.

use vstd::prelude::*;
use crate::codegen::{emission, emission_of, lemma_emission_well_formed, loop_entry, loop_exit, loops};
use crate::ir::{admits, scan, well_formed, Frame, Op};
use crate::machine::{
    effect, entry_of, initial, lemma_run_add, outcome, outcome_of, run, valid, Machine, State, Store,
};
use crate::parser::Node;

verus! {

/// The steps of `code` stand in `plan` from position `at` on.
pub open spec fn holds(plan: Seq<Op>, at: int, code: Seq<Op>) -> bool {
    &&& 0 <= at
    &&& at + code.len() <= plan.len()
    &&& forall|i: int| 0 <= i < code.len() ==> plan[at + i] == #[trigger] code[i]
}

/// No block is entered at two places of the routine.
pub open spec fn enters_once(plan: Seq<Op>) -> bool {
    forall|i: int, j: int|
        0 <= i < plan.len() && 0 <= j < plan.len() && #[trigger] plan[i] is Enter && plan[i] == #[trigger] plan[j]
            ==> i == j
}

/// Where the steps of a run can be scanned, no block is entered twice, and
/// every block that is entered counts as written afterwards.
proof fn lemma_scan_enters(frame: Frame, ops: Seq<Op>)
    requires
        scan(frame, ops) is Some,
    ensures
        enters_once(ops),
        forall|i: int| 0 <= i < ops.len() && #[trigger] ops[i] is Enter ==> scan(frame, ops)->Some_0.entered.contains(
            ops[i]->Enter_0 as nat,
        ),
    decreases ops.len(),
{
    if ops.len() > 0 {
        let front = ops.drop_last();
        lemma_scan_enters(frame, front);
        let reached = scan(frame, front)->Some_0;
        assert(admits(reached, ops.last()));
        assert forall|i: int, j: int|
            0 <= i < ops.len() && 0 <= j < ops.len() && #[trigger] ops[i] is Enter && ops[i] == #[trigger] ops[j]
            implies i == j by {
            if i < front.len() && j < front.len() {
                assert(front[i] == ops[i] && front[j] == ops[j]);
            } else if i < front.len() {
                assert(front[i] == ops[i]);
            } else if j < front.len() {
                assert(front[j] == ops[j]);
                assert(front[j] is Enter);
            }
        }
        assert forall|i: int| 0 <= i < ops.len() && #[trigger] ops[i] is Enter implies scan(
            frame,
            ops,
        )->Some_0.entered.contains(ops[i]->Enter_0 as nat) by {
            if i < front.len() {
                assert(front[i] == ops[i]);
            }
        }
    }
}

/// In a well-formed routine no block is entered at two places.
pub proof fn lemma_well_formed_enters_once(plan: Seq<Op>)
    requires
        well_formed(plan),
    ensures
        enters_once(plan),
{
    lemma_scan_enters(crate::ir::start_frame(), plan);
}

/// Where a block is entered at one place only, its steps begin behind it.
proof fn lemma_entry(plan: Seq<Op>, i: int, block: usize)
    requires
        enters_once(plan),
        0 <= i < plan.len(),
        plan[i] == Op::Enter(block),
    ensures
        entry_of(plan, block) == i + 1,
{
    let j = choose|j: int| 0 <= j < plan.len() && plan[j] == Op::Enter(block);
    assert(plan[i] is Enter && plan[i] == plan[j]);
}

/// Where two runs of steps stand one behind the other, each of them stands
/// where it begins.
proof fn lemma_holds_split(plan: Seq<Op>, at: int, first: Seq<Op>, second: Seq<Op>)
    requires
        holds(plan, at, first + second),
    ensures
        holds(plan, at, first),
        holds(plan, at + first.len(), second),
{
    let code = first + second;
    assert forall|i: int| 0 <= i < first.len() implies plan[at + i] == #[trigger] first[i] by {
        assert(code[i] == first[i]);
    }
    assert forall|i: int| 0 <= i < second.len() implies plan[at + first.len() + i] == #[trigger] second[i] by {
        assert(code[first.len() + i] == second[i]);
    }
}

/// The steps of an instruction that is no loop do to the store what the
/// instruction means, and control goes on behind them.
pub proof fn law_simple_instruction(plan: Seq<Op>, at: int, node: Node, first_block: nat, machine: Machine)
    requires
        !(node is Loop),
        holds(plan, at, emission_of(node, first_block)),
    ensures
        ({
            let code = emission_of(node, first_block);
            let end = run(plan, State { at, machine }, code.len());
            &&& end.at == at + code.len()
            &&& end.machine.store == effect(node, machine.store)
        }),
{
    reveal_with_fuel(run, 6);
    let code = emission_of(node, first_block);
    assert(plan[at + 0] == code[0]);
    assert(plan[at + 1] == code[1]);
    assert(plan[at + 2] == code[2]);
    if code.len() > 3 {
        assert(plan[at + 3] == code[3]);
    }
    if code.len() > 4 {
        assert(plan[at + 4] == code[4]);
    }
}

/// A loop that is entered on a cell that is zero is over after the seven
/// steps before its content: control goes on behind the loop, no step of
/// the content has run, and the store is as it was.
pub proof fn law_loop_skipped(plan: Seq<Op>, at: int, body: Seq<Node>, first_block: nat, machine: Machine)
    requires
        enters_once(plan),
        holds(plan, at, emission_of(Node::Loop(body), first_block)),
        first_block + 1 <= usize::MAX,
        valid(machine.store),
        machine.store.tape[machine.store.head] == 0,
    ensures
        ({
            let code = emission_of(Node::Loop(body), first_block);
            let end = run(plan, State { at, machine }, 7);
            &&& end.at == at + code.len()
            &&& end.machine.store == machine.store
        }),
{
    reveal_with_fuel(run, 8);
    let code = emission_of(Node::Loop(body), first_block);
    let before = loop_entry(first_block);
    let content = emission(body, first_block + 2);
    let after = loop_exit(first_block);
    lemma_holds_split(plan, at, before + content, after);
    lemma_holds_split(plan, at, before, content);
    assert(plan[at + 0] == before[0]);
    assert(plan[at + 1] == before[1]);
    assert(plan[at + 2] == before[2]);
    assert(plan[at + 3] == before[3]);
    assert(plan[at + 4] == before[4]);
    assert(plan[at + 5] == before[5]);
    assert(plan[at + 6] == before[6]);
    let last = at + before.len() + content.len() + 5;
    assert(plan[last] == after[5]);
    lemma_entry(plan, last, (first_block + 1) as usize);
}

/// From `from`, the routine comes to position `at` with the store `store`.
pub open spec fn arrives(plan: Seq<Op>, from: State, at: int, store: Store) -> bool {
    exists|n: nat| (#[trigger] run(plan, from, n)).at == at && run(plan, from, n).machine.store == store
}

/// Where the routine arrives from a state that it reaches, it arrives from
/// the state it started in.
proof fn lemma_arrives_later(plan: Seq<Op>, from: State, n: nat, at: int, store: Store)
    requires
        arrives(plan, run(plan, from, n), at, store),
    ensures
        arrives(plan, from, at, store),
{
    let more = choose|more: nat|
        (#[trigger] run(plan, run(plan, from, n), more)).at == at && run(
            plan,
            run(plan, from, n),
            more,
        ).machine.store == store;
    lemma_run_add(plan, from, n, more);
    assert(run(plan, from, n + more).at == at);
}

/// What an instruction means keeps the store valid.
pub proof fn lemma_effect_valid(node: Node, store: Store)
    requires
        valid(store),
    ensures
        valid(effect(node, store)),
{
}

/// A program that comes to its end leaves the store valid.
pub proof fn lemma_outcome_valid(program: Seq<Node>, store: Store, fuel: nat)
    requires
        valid(store),
        outcome(program, store, fuel) is Some,
    ensures
        valid(outcome(program, store, fuel)->Some_0),
    decreases fuel, program,
{
    if program.len() > 0 {
        lemma_outcome_valid(program.drop_last(), store, fuel);
        lemma_outcome_of_valid(program.last(), outcome(program.drop_last(), store, fuel)->Some_0, fuel);
    }
}

/// An instruction that comes to its end leaves the store valid.
pub proof fn lemma_outcome_of_valid(node: Node, store: Store, fuel: nat)
    requires
        valid(store),
        outcome_of(node, store, fuel) is Some,
    ensures
        valid(outcome_of(node, store, fuel)->Some_0),
    decreases fuel, node,
{
    match node {
        Node::Loop(body) => {
            if store.tape[store.head] != 0 {
                lemma_outcome_valid(body, store, (fuel - 1) as nat);
                lemma_outcome_of_valid(node, outcome(body, store, (fuel - 1) as nat)->Some_0, (fuel - 1) as nat);
            }
        },
        _ => {
            lemma_effect_valid(node, store);
        },
    }
}

/// The routine does what the program means: where the steps of a program
/// stand in a routine and the program comes to its end, the routine comes
/// to the end of those steps with the store that the program leaves.
pub proof fn law_program_runs(
    plan: Seq<Op>,
    at: int,
    program: Seq<Node>,
    first_block: nat,
    machine: Machine,
    fuel: nat,
)
    requires
        enters_once(plan),
        holds(plan, at, emission(program, first_block)),
        first_block + 2 * loops(program) <= usize::MAX,
        valid(machine.store),
        outcome(program, machine.store, fuel) is Some,
    ensures
        arrives(
            plan,
            State { at, machine },
            at + emission(program, first_block).len(),
            outcome(program, machine.store, fuel)->Some_0,
        ),
    decreases fuel, program,
{
    let from = State { at, machine };
    if program.len() == 0 {
        assert(run(plan, from, 0) == from);
    } else {
        let front = program.drop_last();
        let code = emission(front, first_block);
        let next_block = first_block + 2 * loops(front);
        lemma_holds_split(plan, at, code, emission_of(program.last(), next_block));
        law_program_runs(plan, at, front, first_block, machine, fuel);
        let middle = outcome(front, machine.store, fuel)->Some_0;
        lemma_outcome_valid(front, machine.store, fuel);
        let n = choose|n: nat|
            (#[trigger] run(plan, from, n)).at == at + code.len() && run(plan, from, n).machine.store == middle;
        let reached = run(plan, from, n);
        law_instruction_runs(plan, reached.at, program.last(), next_block, reached.machine, fuel);
        lemma_arrives_later(
            plan,
            from,
            n,
            at + emission(program, first_block).len(),
            outcome(program, machine.store, fuel)->Some_0,
        );
    }
}

/// The routine does what an instruction means: where the steps of an
/// instruction stand in a routine and the instruction comes to its end, the
/// routine comes to the end of those steps with the store that the
/// instruction leaves.
pub proof fn law_instruction_runs(
    plan: Seq<Op>,
    at: int,
    node: Node,
    first_block: nat,
    machine: Machine,
    fuel: nat,
)
    requires
        enters_once(plan),
        holds(plan, at, emission_of(node, first_block)),
        first_block + 2 * crate::codegen::loops_in(node) <= usize::MAX,
        valid(machine.store),
        outcome_of(node, machine.store, fuel) is Some,
    ensures
        arrives(
            plan,
            State { at, machine },
            at + emission_of(node, first_block).len(),
            outcome_of(node, machine.store, fuel)->Some_0,
        ),
    decreases fuel, node,
{
    let from = State { at, machine };
    let code = emission_of(node, first_block);
    match node {
        Node::Loop(body) => {
            if machine.store.tape[machine.store.head] == 0 {
                law_loop_skipped(plan, at, body, first_block, machine);
                assert(run(plan, from, 7).at == at + code.len());
            } else {
                lemma_loop_entered(plan, at, body, first_block, machine);
                let inside = run(plan, from, 7);
                lemma_loop_runs(plan, at, body, first_block, inside.machine, fuel);
                lemma_arrives_later(plan, from, 7, at + code.len(), outcome_of(node, machine.store, fuel)->Some_0);
            }
        },
        _ => {
            law_simple_instruction(plan, at, node, first_block, machine);
            assert(run(plan, from, code.len()).at == at + code.len());
        },
    }
}

/// A loop that is entered on a cell that is not zero goes on with its
/// content after the seven steps before it, with the store as it was.
proof fn lemma_loop_entered(plan: Seq<Op>, at: int, body: Seq<Node>, first_block: nat, machine: Machine)
    requires
        enters_once(plan),
        holds(plan, at, emission_of(Node::Loop(body), first_block)),
        first_block + 1 <= usize::MAX,
        valid(machine.store),
        machine.store.tape[machine.store.head] != 0,
    ensures
        ({
            let end = run(plan, State { at, machine }, 7);
            &&& end.at == at + 8
            &&& end.machine.store == machine.store
        }),
{
    reveal_with_fuel(run, 8);
    let before = loop_entry(first_block);
    let content = emission(body, first_block + 2);
    let after = loop_exit(first_block);
    lemma_holds_split(plan, at, before + content, after);
    lemma_holds_split(plan, at, before, content);
    assert(plan[at + 0] == before[0]);
    assert(plan[at + 1] == before[1]);
    assert(plan[at + 2] == before[2]);
    assert(plan[at + 3] == before[3]);
    assert(plan[at + 4] == before[4]);
    assert(plan[at + 5] == before[5]);
    assert(plan[at + 6] == before[6]);
    assert(plan[at + 7] == before[7]);
    lemma_entry(plan, at + 7, first_block as usize);
}

/// The steps after a loop's content go back to the content while the
/// current cell is not zero, and behind the loop once it is.
proof fn lemma_loop_tested(plan: Seq<Op>, at: int, body: Seq<Node>, first_block: nat, machine: Machine)
    requires
        enters_once(plan),
        holds(plan, at, emission_of(Node::Loop(body), first_block)),
        first_block + 1 <= usize::MAX,
        valid(machine.store),
    ensures
        ({
            let code = emission_of(Node::Loop(body), first_block);
            let end = run(plan, State { at: at + code.len() - 6, machine }, 5);
            &&& end.at == if machine.store.tape[machine.store.head] != 0 {
                at + 8
            } else {
                at + code.len()
            }
            &&& end.machine.store == machine.store
        }),
{
    reveal_with_fuel(run, 6);
    let before = loop_entry(first_block);
    let content = emission(body, first_block + 2);
    let after = loop_exit(first_block);
    lemma_holds_split(plan, at, before + content, after);
    lemma_holds_split(plan, at, before, content);
    let test = at + before.len() + content.len();
    assert(plan[at + 7] == before[7]);
    assert(plan[test + 0] == after[0]);
    assert(plan[test + 1] == after[1]);
    assert(plan[test + 2] == after[2]);
    assert(plan[test + 3] == after[3]);
    assert(plan[test + 4] == after[4]);
    assert(plan[test + 5] == after[5]);
    lemma_entry(plan, at + 7, first_block as usize);
    lemma_entry(plan, test + 5, (first_block + 1) as usize);
}

/// From the start of a loop's content, on a cell that is not zero, the
/// routine comes to the end of the loop with the store that the loop leaves.
proof fn lemma_loop_runs(plan: Seq<Op>, at: int, body: Seq<Node>, first_block: nat, machine: Machine, fuel: nat)
    requires
        enters_once(plan),
        holds(plan, at, emission_of(Node::Loop(body), first_block)),
        first_block + 2 + 2 * loops(body) <= usize::MAX,
        valid(machine.store),
        machine.store.tape[machine.store.head] != 0,
        outcome_of(Node::Loop(body), machine.store, fuel) is Some,
    ensures
        arrives(
            plan,
            State { at: at + 8, machine },
            at + emission_of(Node::Loop(body), first_block).len(),
            outcome_of(Node::Loop(body), machine.store, fuel)->Some_0,
        ),
    decreases fuel, body,
{
    let node = Node::Loop(body);
    let code = emission_of(node, first_block);
    let before = loop_entry(first_block);
    let content = emission(body, first_block + 2);
    let after = loop_exit(first_block);
    let from = State { at: at + 8, machine };
    let target = outcome_of(node, machine.store, fuel)->Some_0;
    lemma_holds_split(plan, at, before + content, after);
    lemma_holds_split(plan, at, before, content);

    let less = (fuel - 1) as nat;
    let once = outcome(body, machine.store, less)->Some_0;
    law_program_runs(plan, at + 8, body, first_block + 2, machine, less);
    lemma_outcome_valid(body, machine.store, less);
    let n = choose|n: nat|
        (#[trigger] run(plan, from, n)).at == at + 8 + content.len() && run(plan, from, n).machine.store == once;
    let tested = run(plan, from, n);
    lemma_loop_tested(plan, at, body, first_block, tested.machine);
    let again = run(plan, tested, 5);
    if once.tape[once.head] != 0 {
        lemma_loop_runs(plan, at, body, first_block, again.machine, less);
        lemma_arrives_later(plan, tested, 5, at + code.len(), target);
    } else {
        assert(arrives(plan, tested, at + code.len(), target));
    }
    lemma_arrives_later(plan, from, n, at + code.len(), target);
}

/// The routine of a program does what the program means: started with the
/// head at cell 0 and every cell 0, it comes to its return with the store
/// that the program leaves, whenever the program comes to its end.
pub proof fn law_routine_runs(program: Seq<Node>, machine: Machine, fuel: nat)
    requires
        1 + 2 * loops(program) <= usize::MAX,
        machine.store == initial(machine.store.input),
        outcome(program, machine.store, fuel) is Some,
    ensures
        arrives(
            emission(program, 1),
            State { at: 0, machine },
            emission(program, 1).len() as int,
            outcome(program, machine.store, fuel)->Some_0,
        ),
{
    let plan = emission(program, 1);
    lemma_emission_well_formed(program);
    lemma_well_formed_enters_once(plan);
    law_program_runs(plan, 0, program, 1, machine, fuel);
}

/// Moving left from cell 0 leaves the head at the last cell, 65535, and
/// nothing else changed.
pub proof fn law_head_wraps(plan: Seq<Op>, at: int, first_block: nat, machine: Machine)
    requires
        holds(plan, at, emission_of(Node::MoveLeft, first_block)),
        machine.store.head == 0,
    ensures
        run(plan, State { at, machine }, 3).machine.store == (Store { head: 65535, ..machine.store }),
{
    law_simple_instruction(plan, at, Node::MoveLeft, first_block, machine);
}

/// Incrementing a cell that holds 255 leaves 0 in it, and nothing else
/// changed.
pub proof fn law_cell_wraps(plan: Seq<Op>, at: int, first_block: nat, machine: Machine)
    requires
        holds(plan, at, emission_of(Node::Increment, first_block)),
        valid(machine.store),
        machine.store.tape[machine.store.head] == 255,
    ensures
        run(plan, State { at, machine }, 5).machine.store == (Store {
            tape: machine.store.tape.update(machine.store.head, 0),
            ..machine.store
        }),
{
    law_simple_instruction(plan, at, Node::Increment, first_block, machine);
}

/// Running two programs one after the other is running the one made of
/// both.
pub proof fn lemma_outcome_append(first: Seq<Node>, second: Seq<Node>, store: Store, fuel: nat)
    ensures
        outcome(first + second, store, fuel) == match outcome(first, store, fuel) {
            Some(reached) => outcome(second, reached, fuel),
            None => None,
        },
    decreases second.len(),
{
    if second.len() == 0 {
        assert(first + second =~= first);
    } else {
        lemma_outcome_append(first, second.drop_last(), store, fuel);
        assert((first + second).drop_last() =~= first + second.drop_last());
        assert((first + second).last() == second.last());
    }
}

/// A loop that is reached on a cell that is zero might as well not be
/// there: the program with it and the program without it leave the same
/// store, and so do their routines.
pub proof fn law_skipped_loop_omitted(
    before: Seq<Node>,
    body: Seq<Node>,
    after: Seq<Node>,
    store: Store,
    fuel: nat,
)
    requires
        valid(store),
        outcome(before, store, fuel) matches Some(reached) && reached.tape[reached.head] == 0,
    ensures
        outcome(before.push(Node::Loop(body)) + after, store, fuel) == outcome(before + after, store, fuel),
{
    let with_loop = before.push(Node::Loop(body));
    let reached = outcome(before, store, fuel)->Some_0;
    lemma_outcome_valid(before, store, fuel);
    assert(with_loop.drop_last() =~= before);
    assert(with_loop.last() == Node::Loop(body));
    assert(outcome_of(Node::Loop(body), reached, fuel) == Some(reached));
    assert(outcome(with_loop, store, fuel) == Some(reached));
    lemma_outcome_append(with_loop, after, store, fuel);
    lemma_outcome_append(before, after, store, fuel);
}

/// A loop that is reached on a cell that is zero makes no difference to
/// what the routine does: the routine of the program with the loop and the
/// routine of the program without it come to their returns with the same
/// store.
pub proof fn law_skipped_loop_routines(
    before: Seq<Node>,
    body: Seq<Node>,
    after: Seq<Node>,
    machine: Machine,
    fuel: nat,
)
    requires
        1 + 2 * loops(before.push(Node::Loop(body)) + after) <= usize::MAX,
        1 + 2 * loops(before + after) <= usize::MAX,
        machine.store == initial(machine.store.input),
        outcome(before, machine.store, fuel) matches Some(reached) && reached.tape[reached.head] == 0,
        outcome(before + after, machine.store, fuel) is Some,
    ensures
        ({
            let with_loop = emission(before.push(Node::Loop(body)) + after, 1);
            let without = emission(before + after, 1);
            let left = outcome(before + after, machine.store, fuel)->Some_0;
            &&& arrives(with_loop, State { at: 0, machine }, with_loop.len() as int, left)
            &&& arrives(without, State { at: 0, machine }, without.len() as int, left)
        }),
{
    law_skipped_loop_omitted(before, body, after, machine.store, fuel);
    law_routine_runs(before.push(Node::Loop(body)) + after, machine, fuel);
    law_routine_runs(before + after, machine, fuel);
}

} // verus!
