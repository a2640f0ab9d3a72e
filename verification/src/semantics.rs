//! Mathematical model of execution: machine states and a step-indexed
//! interpreter for opcode sequences.
//!
//! The executable engine is specified exactly against `run_ops`: a
//! deterministic spec-level interpreter over a machine state that carries
//! the tape, the pointer, the instruction counter, the remaining input, the
//! output so far, and the profiling events emitted so far. Loop iterations
//! draw on an explicit iteration budget (`fuel`); running out of budget is
//! the resource-exhaustion outcome.

use vstd::prelude::*;
use crate::interpreter::{GOp, Step};

verus! {

/// The state of one execution: tape cells, pointer, instruction counter,
/// remaining input bytes, output bytes emitted, and profiling events
/// emitted, in order.
#[verifier::ext_equal]
pub ghost struct MState {
    pub tape: Seq<u8>,
    pub sp: nat,
    pub ic: nat,
    pub input: Seq<u8>,
    pub output: Seq<u8>,
    pub events: Seq<Step>,
}

/// The result of running an opcode sequence: completion, a pointer moved
/// left past the first cell, or a machine resource exhausted (instruction
/// counter range, pointer range, or the iteration budget).
pub ghost enum Outcome {
    Done(MState),
    Underflow(MState),
    Exhausted(MState),
}

impl Outcome {
    /// The machine state carried by any outcome.
    pub open spec fn state(self) -> MState {
        match self {
            Outcome::Done(st) => st,
            Outcome::Underflow(st) => st,
            Outcome::Exhausted(st) => st,
        }
    }
}

/// Cell increment, closed under modulo 256.
pub open spec fn cell_add(c: u8, n: u8) -> u8 {
    (((c + n) % 256) as u8)
}

/// Cell decrement, closed under modulo 256.
pub open spec fn cell_sub(c: u8, n: u8) -> u8 {
    (((c - n + 256) % 256) as u8)
}

/// The cell under the pointer (zero if the pointer were out of range,
/// which well-formed states rule out).
pub open spec fn cur_cell(st: MState) -> u8 {
    if st.sp < st.tape.len() {
        st.tape[st.sp as int]
    } else {
        0
    }
}

/// A well-formed state: the pointer indexes a live cell and the counter
/// fits the machine word.
pub open spec fn st_wf(st: MState) -> bool {
    &&& st.sp < st.tape.len()
    &&& st.ic <= u64::MAX
}

/// The state with the instruction counter advanced by one.
pub open spec fn st_bump(st: MState) -> MState {
    MState { ic: st.ic + 1, ..st }
}

/// The state with the cell under the pointer replaced.
pub open spec fn st_set_cell(st: MState, v: u8) -> MState {
    if st.sp < st.tape.len() {
        MState { tape: st.tape.update(st.sp as int, v), ..st }
    } else {
        st
    }
}

/// The state with one more profiling event.
pub open spec fn st_push_event(st: MState, e: Step) -> MState {
    MState { events: st.events.push(e), ..st }
}

/// The state after one byte of input is consumed: the cell under the
/// pointer takes the next input byte, or zero once input is exhausted.
pub open spec fn st_read(st: MState) -> MState {
    if st.input.len() > 0 {
        MState { input: st.input.skip(1), ..st_set_cell(st, st.input[0]) }
    } else {
        st_set_cell(st, 0)
    }
}

/// The state with the cell under the pointer emitted as output.
pub open spec fn st_write(st: MState) -> MState {
    MState { output: st.output.push(cur_cell(st)), ..st }
}

/// The state after moving right: the pointer advances and the tape grows
/// with zero cells as needed so the pointer indexes a live cell.
pub open spec fn st_right(st: MState, n: usize) -> MState {
    let new_sp = (st.sp + n) as nat;
    let tape = if new_sp < st.tape.len() {
        st.tape
    } else {
        st.tape + Seq::new((new_sp + 1 - st.tape.len()) as nat, |j: int| 0u8)
    };
    MState { sp: new_sp, tape, ..st }
}

/// Run `ops[i..]` against `st` with the given iteration budget.
///
/// Each opcode encounter advances the instruction counter once — a loop
/// header counts once per encounter, not once per iteration. A loop emits
/// one `EnterLoop` event when its iterations begin and one `LeaveLoop`
/// event when they end, carrying the number of instructions executed
/// across all its iterations. Each loop runs at most `fuel` iterations,
/// its body drawing on a budget one smaller; exceeding the budget, the
/// counter range, or the pointer range exhausts the machine.
pub open spec fn run_ops(ops: Seq<GOp>, i: int, st: MState, fuel: nat) -> Outcome
    decreases fuel, ops, ops.len() - i, 1nat,
{
    if i < 0 || i >= ops.len() {
        Outcome::Done(st)
    } else if st.ic >= u64::MAX {
        Outcome::Exhausted(st)
    } else {
        let st1 = st_bump(st);
        match ops[i] {
            GOp::Add(n) => run_ops(ops, i + 1, st_set_cell(st1, cell_add(cur_cell(st), n)), fuel),
            GOp::Sub(n) => run_ops(ops, i + 1, st_set_cell(st1, cell_sub(cur_cell(st), n)), fuel),
            GOp::Left(n) => if n > st.sp {
                Outcome::Underflow(st1)
            } else {
                run_ops(ops, i + 1, MState { sp: (st.sp - n) as nat, ..st1 }, fuel)
            },
            GOp::Right(n) => if st.sp + n > usize::MAX {
                Outcome::Exhausted(st1)
            } else {
                run_ops(ops, i + 1, st_right(st1, n), fuel)
            },
            GOp::In => run_ops(ops, i + 1, st_read(st1), fuel),
            GOp::Out => run_ops(ops, i + 1, st_write(st1), fuel),
            GOp::Loop(body) => {
                let ste = st_push_event(st1, Step::EnterLoop);
                match loop_iters(body, ste, fuel) {
                    Outcome::Done(st2) => {
                        let stl = st_push_event(
                            st2,
                            Step::LeaveLoop((st2.ic - ste.ic) as u64),
                        );
                        run_ops(ops, i + 1, stl, fuel)
                    },
                    o => o,
                }
            },
        }
    }
}

/// Run the iterations of one loop: while the cell under the pointer is
/// nonzero, run the body, each iteration spending one unit of budget.
pub open spec fn loop_iters(body: Seq<GOp>, st: MState, fuel: nat) -> Outcome
    decreases fuel, body, 0nat, 0nat,
{
    if cur_cell(st) == 0 {
        Outcome::Done(st)
    } else if fuel == 0 {
        Outcome::Exhausted(st)
    } else {
        match run_ops(body, 0, st, (fuel - 1) as nat) {
            Outcome::Done(st2) => loop_iters(body, st2, (fuel - 1) as nat),
            o => o,
        }
    }
}

} // verus!
