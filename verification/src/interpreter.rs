//! Program tree, parser, peephole optimizer, and execution engine.

use vstd::prelude::*;
use crate::semantics::{
    cell_add, cell_sub, cur_cell, loop_iters, run_ops, st_bump, st_push_event, st_read,
    st_right, st_set_cell, st_write, MState, Outcome,
};

verus! {

/// One primitive instruction of the language.
///
/// `Add`/`Sub` change the cell under the pointer modulo 256, `Left`/`Right`
/// move the pointer, `Loop` repeats its body while the cell under the
/// pointer is nonzero, `In` reads one byte (zero once input is exhausted)
/// and `Out` emits the cell under the pointer. The amounts start at 1 when
/// parsed and grow when the optimizer fuses adjacent opcodes.
#[derive(Debug, PartialEq)]
pub enum Opcode {
    Add(u8),
    Sub(u8),
    Left(usize),
    Right(usize),
    Loop(Program),
    In,
    Out,
}

/// One profiling event emitted by the execution engine around a loop's
/// dynamic execution: `EnterLoop` once when its iterations begin,
/// `LeaveLoop` once when they end, carrying the number of instructions
/// executed across all its iterations (not the iteration count).
#[derive(Debug, Clone, Copy, PartialEq, Eq, Structural)]
pub enum Step {
    EnterLoop,
    LeaveLoop(u64),
}

/// An ordered sequence of opcodes; order is execution order.
#[derive(Debug, PartialEq)]
pub struct Program {
    pub opcodes: Vec<Opcode>,
}

/// The mathematical mirror of `Opcode`: the same tree with loop bodies as
/// sequences. Contracts speak of programs through this view, which carries
/// every detail of the tree.
pub ghost enum GOp {
    Add(u8),
    Sub(u8),
    Left(usize),
    Right(usize),
    Loop(Seq<GOp>),
    In,
    Out,
}

/// The view of one opcode.
pub open spec fn op_view(op: Opcode) -> GOp
    decreases op,
{
    match op {
        Opcode::Add(n) => GOp::Add(n),
        Opcode::Sub(n) => GOp::Sub(n),
        Opcode::Left(n) => GOp::Left(n),
        Opcode::Right(n) => GOp::Right(n),
        Opcode::Loop(p) => GOp::Loop(ops_view(p.opcodes@)),
        Opcode::In => GOp::In,
        Opcode::Out => GOp::Out,
    }
}

/// The view of an opcode sequence, element by element.
pub open spec fn ops_view(ops: Seq<Opcode>) -> Seq<GOp>
    decreases ops,
{
    if ops.len() == 0 {
        Seq::empty()
    } else {
        seq![op_view(ops[0])] + ops_view(ops.subrange(1, ops.len() as int))
    }
}

/// The view keeps length and maps elements pointwise.
pub proof fn lemma_ops_view_index(ops: Seq<Opcode>)
    ensures
        ops_view(ops).len() == ops.len(),
        forall|i: int| 0 <= i < ops.len() ==> ops_view(ops)[i] == op_view(ops[i]),
    decreases ops.len(),
{
    if ops.len() > 0 {
        lemma_ops_view_index(ops.subrange(1, ops.len() as int));
    }
}

/// Viewing after a push appends the pushed element's view.
pub proof fn lemma_ops_view_push(ops: Seq<Opcode>, op: Opcode)
    ensures
        ops_view(ops.push(op)) =~= ops_view(ops) + seq![op_view(op)],
    decreases ops.len(),
{
    lemma_ops_view_index(ops);
    lemma_ops_view_index(ops.push(op));
    assert forall|i: int| 0 <= i < ops.len() + 1 implies ops_view(ops.push(op))[i] == (
    ops_view(ops) + seq![op_view(op)])[i] by {
        if i < ops.len() {
            assert(ops.push(op)[i] == ops[i]);
        } else {
            assert(ops.push(op)[i] == op);
        }
    }
}

/// Static size of one opcode: a `Loop` counts itself plus its whole body,
/// every other opcode counts 1.
pub open spec fn op_size(op: Opcode) -> nat
    decreases op,
{
    match op {
        Opcode::Loop(p) => 1 + ops_size(p.opcodes@),
        _ => 1,
    }
}

/// Static size of an opcode sequence: the sum of the sizes of its elements.
pub open spec fn ops_size(ops: Seq<Opcode>) -> nat
    decreases ops,
{
    if ops.len() == 0 {
        0
    } else {
        op_size(ops[0]) + ops_size(ops.subrange(1, ops.len() as int))
    }
}

impl Opcode {
    /// Count this opcode and, for a loop, all opcodes of its body.
    pub fn size(&self) -> (n: usize)
        requires
            op_size(*self) <= usize::MAX,
        ensures
            n == op_size(*self),
        decreases *self,
    {
        match self {
            Opcode::Loop(p) => {
                let inner = p.size();
                1 + inner
            },
            _ => 1,
        }
    }
}

impl Program {
    /// Count the opcodes of the program, recursively through loop bodies.
    pub fn size(&self) -> (n: usize)
        requires
            ops_size(self.opcodes@) <= usize::MAX,
        ensures
            n == ops_size(self.opcodes@),
        decreases *self,
    {
        let mut total: usize = 0;
        let mut k: usize = 0;
        proof {
            assert(self.opcodes@.subrange(0, 0) =~= Seq::<Opcode>::empty());
            assert(self.opcodes@.subrange(0, self.opcodes@.len() as int) =~= self.opcodes@);
        }
        while k < self.opcodes.len()
            invariant
                k <= self.opcodes.len(),
                ops_size(self.opcodes@) <= usize::MAX,
                total == ops_size(self.opcodes@.subrange(0, k as int)),
                total + ops_size(self.opcodes@.subrange(k as int, self.opcodes@.len() as int))
                    == ops_size(self.opcodes@),
            decreases self.opcodes.len() - k,
        {
            proof {
                lemma_ops_size_split(self.opcodes@, k as int);
            }
            let piece = self.opcodes[k].size();
            total = total + piece;
            proof {
                lemma_ops_size_split(self.opcodes@, k as int + 1);
                assert(self.opcodes@.subrange(0, k as int + 1).drop_last()
                    =~= self.opcodes@.subrange(0, k as int));
                lemma_ops_size_last(self.opcodes@.subrange(0, k as int + 1));
            }
            k = k + 1;
        }
        proof {
            assert(self.opcodes@.subrange(0, self.opcodes@.len() as int) =~= self.opcodes@);
        }
        total
    }
}

/// One element weighs no more than the whole sequence it sits in.
pub proof fn lemma_op_size_element(ops: Seq<Opcode>, k: int)
    requires
        0 <= k < ops.len(),
    ensures
        op_size(ops[k]) <= ops_size(ops),
{
    lemma_ops_size_split(ops, k);
    let tail = ops.subrange(k, ops.len() as int);
    assert(tail[0] == ops[k]);
    assert(tail.subrange(1, tail.len() as int) =~= ops.subrange(k + 1, ops.len() as int));
    assert(ops_size(tail) == op_size(ops[k]) + ops_size(
        ops.subrange(k + 1, ops.len() as int),
    ));
}

impl Opcode {
    /// Count this opcode and its body, or report that the count does not
    /// fit the machine word.
    pub fn size_checked(&self) -> (r: Option<usize>)
        ensures
            match r {
                Some(n) => n == op_size(*self),
                None => op_size(*self) > usize::MAX,
            },
        decreases *self,
    {
        match self {
            Opcode::Loop(p) => {
                match p.size_checked() {
                    Some(n) => {
                        if n < usize::MAX {
                            Some(n + 1)
                        } else {
                            None
                        }
                    },
                    None => None,
                }
            },
            _ => Some(1),
        }
    }
}

impl Program {
    /// Count the opcodes of the program, recursively through loop
    /// bodies, or report that the count does not fit the machine word.
    #[verifier::loop_isolation(false)]
    pub fn size_checked(&self) -> (r: Option<usize>)
        ensures
            match r {
                Some(n) => n == ops_size(self.opcodes@),
                None => ops_size(self.opcodes@) > usize::MAX,
            },
        decreases *self,
    {
        let mut total: usize = 0;
        let mut k: usize = 0;
        proof {
            assert(self.opcodes@.subrange(0, 0) =~= Seq::<Opcode>::empty());
        }
        while k < self.opcodes.len()
            invariant
                k <= self.opcodes.len(),
                total == ops_size(self.opcodes@.subrange(0, k as int)),
            decreases self.opcodes.len() - k,
        {
            let piece = match self.opcodes[k].size_checked() {
                Some(n) => n,
                None => {
                    proof {
                        lemma_op_size_element(self.opcodes@, k as int);
                    }
                    return None;
                },
            };
            if piece > usize::MAX - total {
                proof {
                    lemma_ops_size_split(self.opcodes@, k as int + 1);
                    lemma_ops_size_last(self.opcodes@.subrange(0, k as int + 1));
                    assert(self.opcodes@.subrange(0, k as int + 1).drop_last()
                        =~= self.opcodes@.subrange(0, k as int));
                }
                return None;
            }
            total = total + piece;
            proof {
                lemma_ops_size_last(self.opcodes@.subrange(0, k as int + 1));
                assert(self.opcodes@.subrange(0, k as int + 1).drop_last()
                    =~= self.opcodes@.subrange(0, k as int));
            }
            k = k + 1;
        }
        proof {
            assert(self.opcodes@.subrange(0, self.opcodes@.len() as int) =~= self.opcodes@);
        }
        Some(total)
    }
}

impl Program {
    /// Reduce repeated opcodes: one left-to-right pass fusing each opcode
    /// into a running accumulator when the categories allow it, loop
    /// bodies reduced recursively, exactly as `reduce_g` describes.
    #[verifier::loop_isolation(false)]
    pub fn reduce(&mut self)
        ensures
            ops_view(final(self).opcodes@) == reduce_g(ops_view(old(self).opcodes@)),
        decreases ops_size(old(self).opcodes@),
    {
        let ghost orig = self.opcodes@;
        let ghost g0 = ops_view(orig);
        proof {
            lemma_ops_view_index(orig);
        }
        if self.opcodes.len() == 0 {
            proof {
                assert(ops_view(self.opcodes@) =~= Seq::<GOp>::empty());
            }
            return ;
        }
        let mut curr = self.opcodes.remove(0);
        proof {
            assert(orig.remove(0) =~= orig.subrange(1, orig.len() as int));
            lemma_ops_view_skip(orig);
        }
        curr = match curr {
            Opcode::Loop(mut p) => {
                proof {
                    lemma_op_size_element(orig, 0);
                }
                p.reduce();
                Opcode::Loop(p)
            },
            x => x,
        };
        let ghost mut k: int = 1;
        let mut reduced: Vec<Opcode> = Vec::new();
        proof {
            assert(ops_view(reduced@) =~= Seq::<GOp>::empty());
            assert(ops_view(self.opcodes@) =~= g0.subrange(1, g0.len() as int));
            assert(reduce_g(g0) == reduce_from(
                ops_view(self.opcodes@),
                ops_view(reduced@),
                op_view(curr),
            ));
        }
        while self.opcodes.len() > 0
            invariant
                1 <= k <= orig.len(),
                self.opcodes@ == orig.subrange(k, orig.len() as int),
                reduce_g(g0) == reduce_from(
                    ops_view(self.opcodes@),
                    ops_view(reduced@),
                    op_view(curr),
                ),
            decreases self.opcodes@.len(),
        {
            let ghost rem_pre = self.opcodes@;
            let ghost em_pre = reduced@;
            let ghost curr_pre = curr;
            let next = self.opcodes.remove(0);
            proof {
                assert(rem_pre.remove(0) =~= rem_pre.subrange(1, rem_pre.len() as int));
                lemma_ops_view_skip(rem_pre);
                lemma_ops_view_index(rem_pre);
                assert(next == orig[k]);
                assert(self.opcodes@ =~= orig.subrange(k + 1, orig.len() as int));
                k = k + 1;
            }
            let ghost nv = op_view(next);
            let ghost rv = ops_view(rem_pre);
            proof {
                assert(rv[0] == nv);
                assert(rv.subrange(1, rv.len() as int) =~= ops_view(self.opcodes@));
            }
            match next {
                Opcode::Loop(mut p) => {
                    reduced.push(curr);
                    let ghost pb = p.opcodes@;
                    proof {
                        lemma_op_size_element(orig, k - 1);
                        lemma_ops_size_split(orig, k - 1);
                        assert(ops_size(orig.subrange(0, k - 1)) + ops_size(
                            orig.subrange(k - 1, orig.len() as int),
                        ) == ops_size(orig));
                    }
                    p.reduce();
                    curr = Opcode::Loop(p);
                    proof {
                        assert(nv == GOp::Loop(ops_view(pb)));
                        assert(op_view(curr) == GOp::Loop(reduce_g(ops_view(pb))));
                        lemma_ops_view_push(em_pre, curr_pre);
                        assert(ops_view(reduced@) =~= ops_view(em_pre).push(op_view(curr_pre)));
                        assert(reduce_from(rv, ops_view(em_pre), op_view(curr_pre))
                            == reduce_from(
                            ops_view(self.opcodes@),
                            ops_view(em_pre).push(op_view(curr_pre)),
                            GOp::Loop(reduce_g(ops_view(pb))),
                        ));
                    }
                },
                other => {
                    proof {
                        assert(!(nv is Loop));
                    }
                    let fused = try_fuse(&curr, &other);
                    match fused {
                        Some(f) => {
                            proof {
                                assert(fuse_pair(op_view(curr), nv) == Some(op_view(f)));
                            }
                            curr = f;
                            proof {
                                assert(reduce_from(rv, ops_view(em_pre), op_view(curr_pre))
                                    == reduce_from(
                                    ops_view(self.opcodes@),
                                    ops_view(em_pre),
                                    op_view(curr),
                                ));
                            }
                        },
                        None => {
                            proof {
                                assert(fuse_pair(op_view(curr), nv) is None);
                            }
                            reduced.push(curr);
                            curr = other;
                            proof {
                                lemma_ops_view_push(em_pre, curr_pre);
                                assert(ops_view(reduced@) =~= ops_view(em_pre).push(
                                    op_view(curr_pre),
                                ));
                                assert(reduce_from(rv, ops_view(em_pre), op_view(curr_pre))
                                    == reduce_from(
                                    ops_view(self.opcodes@),
                                    ops_view(em_pre).push(op_view(curr_pre)),
                                    nv,
                                ));
                            }
                        },
                    }
                },
            }
            proof {
                assert(reduce_g(g0) == reduce_from(
                    ops_view(self.opcodes@),
                    ops_view(reduced@),
                    op_view(curr),
                ));
            }
        }
        let ghost em_exit = reduced@;
        let ghost curr_exit = curr;
        proof {
            assert(ops_view(self.opcodes@) =~= Seq::<GOp>::empty());
            assert(reduce_from(ops_view(self.opcodes@), ops_view(em_exit), op_view(curr_exit))
                == ops_view(em_exit).push(op_view(curr_exit)));
        }
        reduced.push(curr);
        proof {
            lemma_ops_view_push(em_exit, curr_exit);
            assert(ops_view(reduced@) =~= ops_view(em_exit).push(op_view(curr_exit)));
        }
        self.opcodes = reduced;
    }
}

/// A structured execution failure: the pointer moved left past the first
/// cell, or a machine resource ran out (instruction counter range, pointer
/// range, or the loop iteration budget).
#[derive(Debug, Clone, Copy, PartialEq, Eq, Structural)]
pub enum ExecError {
    PointerUnderflow,
    ResourceExhausted,
}

/// The byte I/O of one execution: input is consumed from `input[cursor]`
/// onward, one byte per read; output collects every byte written.
#[derive(Debug, PartialEq)]
pub struct IoBuffer {
    pub input: Vec<u8>,
    pub cursor: usize,
    pub output: Vec<u8>,
}

/// The input bytes not yet consumed.
pub open spec fn io_rest(io: IoBuffer) -> Seq<u8> {
    if io.cursor <= io.input@.len() {
        io.input@.skip(io.cursor as int)
    } else {
        Seq::empty()
    }
}

/// The machine state modelled by an interpreter, its I/O buffer, and the
/// events emitted so far.
pub open spec fn m_state(it: Interpreter, io: IoBuffer, events: Seq<Step>) -> MState {
    MState {
        tape: it.stack@,
        sp: it.sp as nat,
        ic: it.ic as nat,
        input: io_rest(io),
        output: io.output@,
        events,
    }
}

/// The outcome an execution result stands for: `Ok` completed in the given
/// state, each error names its outcome.
pub open spec fn outcome_of(r: Result<(), ExecError>, st: MState) -> Outcome {
    match r {
        Ok(_) => Outcome::Done(st),
        Err(ExecError::PointerUnderflow) => Outcome::Underflow(st),
        Err(ExecError::ResourceExhausted) => Outcome::Exhausted(st),
    }
}

/// Increment a cell, wrapping modulo 256.
fn wrap_add(c: u8, n: u8) -> (r: u8)
    ensures
        r == cell_add(c, n),
{
    (((c as u16) + (n as u16)) % 256) as u8
}

/// Decrement a cell, wrapping modulo 256.
fn wrap_sub(c: u8, n: u8) -> (r: u8)
    ensures
        r == cell_sub(c, n),
{
    (((c as u16) + 256 - (n as u16)) % 256) as u8
}

/// The mutable state of one execution: the tape (`stack`), the pointer
/// into it (`sp`), and the instruction counter (`ic`).
#[derive(Debug, PartialEq)]
pub struct Interpreter {
    pub stack: Vec<u8>,
    pub sp: usize,
    pub ic: u64,
}

impl Interpreter {
    /// The pointer always indexes a live cell.
    pub open spec fn wf(self) -> bool {
        self.sp < self.stack@.len()
    }

    /// A fresh machine: a single zeroed cell, pointer and counter at zero.
    pub fn new() -> (it: Interpreter)
        ensures
            it.wf(),
            it.stack@ =~= seq![0u8],
            it.sp == 0,
            it.ic == 0,
    {
        let mut stack: Vec<u8> = Vec::new();
        stack.push(0);
        Interpreter { stack, sp: 0, ic: 0 }
    }

    /// Return the machine to its fresh state.
    pub fn reset(&mut self)
        ensures
            final(self).wf(),
            final(self).stack@ =~= seq![0u8],
            final(self).sp == 0,
            final(self).ic == 0,
    {
        self.sp = 0;
        self.ic = 0;
        self.stack.clear();
        self.stack.push(0);
    }

    /// Run a program against this machine, reading and writing bytes
    /// through `io`, recording profiling events in `events`, with at most
    /// `fuel` iterations per loop (nested loops draw on a budget one
    /// smaller per level).
    ///
    /// The result and the final machine state are exactly those of the
    /// step-indexed semantics `run_ops` on the starting state.
    pub fn exec(
        &mut self,
        program: &Program,
        io: &mut IoBuffer,
        events: &mut Vec<Step>,
        fuel: u64,
    ) -> (r: Result<(), ExecError>)
        requires
            old(self).wf(),
        ensures
            final(self).wf(),
            final(self).ic >= old(self).ic,
            run_ops(
                ops_view(program.opcodes@),
                0,
                m_state(*old(self), *old(io), old(events)@),
                fuel as nat,
            ) == outcome_of(r, m_state(*final(self), *final(io), final(events)@)),
    {
        self.exec_r(program, io, events, fuel)
    }

    /// Depth-first walk of the program tree; loops run their body while
    /// the cell under the pointer is nonzero.
    #[verifier::loop_isolation(false)]
    fn exec_r(
        &mut self,
        program: &Program,
        io: &mut IoBuffer,
        events: &mut Vec<Step>,
        fuel: u64,
    ) -> (r: Result<(), ExecError>)
        requires
            old(self).wf(),
        ensures
            final(self).wf(),
            final(self).ic >= old(self).ic,
            run_ops(
                ops_view(program.opcodes@),
                0,
                m_state(*old(self), *old(io), old(events)@),
                fuel as nat,
            ) == outcome_of(r, m_state(*final(self), *final(io), final(events)@)),
        decreases fuel,
    {
        let ghost st0 = m_state(*self, *io, events@);
        let ghost ops = ops_view(program.opcodes@);
        proof {
            lemma_ops_view_index(program.opcodes@);
        }
        let n = program.opcodes.len();
        let mut k: usize = 0;
        while k < n
            invariant
                self.wf(),
                self.ic >= st0.ic,
                n == program.opcodes.len(),
                k <= n,
                ops == ops_view(program.opcodes@),
                ops.len() == n,
                run_ops(ops, 0, st0, fuel as nat) == run_ops(
                    ops,
                    k as int,
                    m_state(*self, *io, events@),
                    fuel as nat,
                ),
            decreases n - k,
        {
            let ghost stk = m_state(*self, *io, events@);
            if self.ic == u64::MAX {
                proof {
                    assert(run_ops(ops, k as int, stk, fuel as nat) == Outcome::Exhausted(stk));
                }
                return Err(ExecError::ResourceExhausted);
            }
            self.ic = self.ic + 1;
            match &program.opcodes[k] {
                Opcode::Add(amount) => {
                    let c = self.stack[self.sp];
                    let v = wrap_add(c, *amount);
                    self.stack.set(self.sp, v);
                    proof {
                        assert(m_state(*self, *io, events@) == st_set_cell(
                            st_bump(stk),
                            cell_add(cur_cell(stk), amount@),
                        ));
                    }
                },
                Opcode::Sub(amount) => {
                    let c = self.stack[self.sp];
                    let v = wrap_sub(c, *amount);
                    self.stack.set(self.sp, v);
                    proof {
                        assert(m_state(*self, *io, events@) == st_set_cell(
                            st_bump(stk),
                            cell_sub(cur_cell(stk), amount@),
                        ));
                    }
                },
                Opcode::Left(amount) => {
                    if *amount > self.sp {
                        proof {
                            assert(run_ops(ops, k as int, stk, fuel as nat) == Outcome::Underflow(
                                m_state(*self, *io, events@),
                            ));
                        }
                        return Err(ExecError::PointerUnderflow);
                    }
                    self.sp = self.sp - *amount;
                },
                Opcode::Right(amount) => {
                    if *amount > usize::MAX - self.sp {
                        proof {
                            assert(run_ops(ops, k as int, stk, fuel as nat) == Outcome::Exhausted(
                                m_state(*self, *io, events@),
                            ));
                        }
                        return Err(ExecError::ResourceExhausted);
                    }
                    let ghost sp_new = (self.sp + *amount) as nat;
                    self.sp = self.sp + *amount;
                    while self.sp >= self.stack.len()
                        invariant
                            self.sp == sp_new,
                            self.ic == stk.ic + 1,
                            stk.tape.len() <= self.stack@.len(),
                            self.stack@.len() <= stk.tape.len() || self.stack@.len() <= sp_new
                                + 1,
                            self.stack@ == stk.tape + Seq::new(
                                (self.stack@.len() - stk.tape.len()) as nat,
                                |j: int| 0u8,
                            ),
                        decreases self.sp + 1 - self.stack.len(),
                    {
                        self.stack.push(0);
                        proof {
                            assert(self.stack@ =~= stk.tape + Seq::new(
                                (self.stack@.len() - stk.tape.len()) as nat,
                                |j: int| 0u8,
                            ));
                        }
                    }
                    proof {
                        let target = st_right(st_bump(stk), amount@);
                        if sp_new < stk.tape.len() {
                            assert(self.stack@ =~= stk.tape);
                        }
                        assert(m_state(*self, *io, events@).tape =~= target.tape);
                        assert(m_state(*self, *io, events@) =~= target);
                    }
                },
                Opcode::In => {
                    let b: u8 = if io.cursor < io.input.len() {
                        let b = io.input[io.cursor];
                        io.cursor = io.cursor + 1;
                        b
                    } else {
                        0
                    };
                    self.stack.set(self.sp, b);
                    proof {
                        if stk.input.len() > 0 {
                            assert(io_rest(*io) =~= stk.input.skip(1));
                        }
                        assert(m_state(*self, *io, events@) == st_read(st_bump(stk)));
                    }
                },
                Opcode::Out => {
                    let c = self.stack[self.sp];
                    io.output.push(c);
                    proof {
                        assert(m_state(*self, *io, events@) == st_write(st_bump(stk)));
                    }
                },
                Opcode::Loop(body) => {
                    events.push(Step::EnterLoop);
                    let ic0 = self.ic;
                    let ghost ste = m_state(*self, *io, events@);
                    proof {
                        assert(ste == st_push_event(st_bump(stk), Step::EnterLoop));
                    }
                    let mut f = fuel;
                    while self.stack[self.sp] != 0
                        invariant
                            self.wf(),
                            f <= fuel,
                            self.ic >= ic0,
                            ic0 == ste.ic,
                            loop_iters(ops_view(body.opcodes@), ste, fuel as nat) == loop_iters(
                                ops_view(body.opcodes@),
                                m_state(*self, *io, events@),
                                f as nat,
                            ),
                        decreases f,
                    {
                        let ghost pre = m_state(*self, *io, events@);
                        if f == 0 {
                            proof {
                                assert(loop_iters(ops_view(body.opcodes@), pre, 0) == Outcome::Exhausted(
                                    pre,
                                ));
                                assert(run_ops(ops, k as int, stk, fuel as nat)
                                    == Outcome::Exhausted(pre));
                            }
                            return Err(ExecError::ResourceExhausted);
                        }
                        f = f - 1;
                        let res = self.exec_r(body, io, events, f);
                        proof {
                            let post = m_state(*self, *io, events@);
                            assert(run_ops(ops_view(body.opcodes@), 0, pre, f as nat) == outcome_of(
                                res,
                                post,
                            ));
                            assert(loop_iters(ops_view(body.opcodes@), pre, (f + 1) as nat) == match res {
                                Ok(_) => loop_iters(ops_view(body.opcodes@), post, f as nat),
                                _ => outcome_of(res, post),
                            });
                        }
                        if let Err(e) = res {
                            proof {
                                assert(run_ops(ops, k as int, stk, fuel as nat) == outcome_of(
                                    Err(e),
                                    m_state(*self, *io, events@),
                                ));
                            }
                            return Err(e);
                        }
                    }
                    let ghost st2 = m_state(*self, *io, events@);
                    proof {
                        assert(loop_iters(ops_view(body.opcodes@), st2, f as nat) == Outcome::Done(st2));
                    }
                    events.push(Step::LeaveLoop(self.ic - ic0));
                    proof {
                        assert(m_state(*self, *io, events@) == st_push_event(
                            st2,
                            Step::LeaveLoop((st2.ic - ste.ic) as u64),
                        ));
                    }
                },
            }
            proof {
                assert(run_ops(ops, k as int, stk, fuel as nat) == run_ops(
                    ops,
                    k as int + 1,
                    m_state(*self, *io, events@),
                    fuel as nat,
                ));
            }
            k = k + 1;
        }
        Ok(())
    }
}

/// Fuse two adjacent opcodes of one category, `curr` executing before
/// `next`, by signed cancellation: like directions add, opposite
/// directions cancel, the larger amount picking the variant. Cell
/// arithmetic amounts add modulo 256, matching execution-time cell
/// wraparound; pointer movement amounts add exactly, and a pair whose sum
/// would not fit the pointer range is left unfused. Loops and byte I/O
/// never fuse.
pub open spec fn fuse_pair(curr: GOp, next: GOp) -> Option<GOp> {
    match (curr, next) {
        (GOp::Add(a), GOp::Add(b)) => Some(GOp::Add((((a + b) % 256) as u8))),
        (GOp::Add(a), GOp::Sub(b)) => if b <= a {
            Some(GOp::Add((a - b) as u8))
        } else {
            Some(GOp::Sub((b - a) as u8))
        },
        (GOp::Sub(a), GOp::Sub(b)) => Some(GOp::Sub((((a + b) % 256) as u8))),
        (GOp::Sub(a), GOp::Add(b)) => if b <= a {
            Some(GOp::Sub((a - b) as u8))
        } else {
            Some(GOp::Add((b - a) as u8))
        },
        (GOp::Left(a), GOp::Left(b)) => if a + b <= usize::MAX {
            Some(GOp::Left((a + b) as usize))
        } else {
            None
        },
        (GOp::Left(a), GOp::Right(b)) => if b <= a {
            Some(GOp::Left((a - b) as usize))
        } else {
            Some(GOp::Right((b - a) as usize))
        },
        (GOp::Right(a), GOp::Right(b)) => if a + b <= usize::MAX {
            Some(GOp::Right((a + b) as usize))
        } else {
            None
        },
        (GOp::Right(a), GOp::Left(b)) => if b <= a {
            Some(GOp::Right((a - b) as usize))
        } else {
            Some(GOp::Left((b - a) as usize))
        },
        _ => None,
    }
}

/// One left-to-right fusing pass with a single unit of lookback: `curr`
/// is the running accumulator, `emitted` what the pass has settled. A
/// loop never fuses; its body is reduced recursively when it is taken up.
pub open spec fn reduce_from(rem: Seq<GOp>, emitted: Seq<GOp>, curr: GOp) -> Seq<GOp>
    decreases rem, 0nat,
{
    if rem.len() == 0 {
        emitted.push(curr)
    } else {
        let next = rem[0];
        let rest = rem.subrange(1, rem.len() as int);
        match next {
            GOp::Loop(b) => reduce_from(rest, emitted.push(curr), GOp::Loop(reduce_g(b))),
            _ => match fuse_pair(curr, next) {
                Some(f) => reduce_from(rest, emitted, f),
                None => reduce_from(rest, emitted.push(curr), next),
            },
        }
    }
}

/// The reduced form of an opcode sequence: a single fusing pass over the
/// sequence, every loop body reduced recursively.
pub open spec fn reduce_g(ops: Seq<GOp>) -> Seq<GOp>
    decreases ops, 1nat,
{
    if ops.len() == 0 {
        Seq::<GOp>::empty()
    } else {
        let head = match ops[0] {
            GOp::Loop(b) => GOp::Loop(reduce_g(b)),
            x => x,
        };
        reduce_from(ops.subrange(1, ops.len() as int), Seq::empty(), head)
    }
}

/// Viewing commutes with dropping the first opcode.
pub proof fn lemma_ops_view_skip(ops: Seq<Opcode>)
    requires
        ops.len() > 0,
    ensures
        ops_view(ops.subrange(1, ops.len() as int)) =~= ops_view(ops).subrange(
            1,
            ops.len() as int,
        ),
{
    lemma_ops_view_index(ops);
    lemma_ops_view_index(ops.subrange(1, ops.len() as int));
}

/// Fuse two opcodes if their categories allow it, as `fuse_pair` says.
fn try_fuse(curr: &Opcode, next: &Opcode) -> (r: Option<Opcode>)
    ensures
        match r {
            Some(f) => fuse_pair(op_view(*curr), op_view(*next)) == Some(op_view(f)),
            None => fuse_pair(op_view(*curr), op_view(*next)) is None,
        },
{
    match (curr, next) {
        (Opcode::Add(a), Opcode::Add(b)) => Some(
            Opcode::Add((((*a as u16) + (*b as u16)) % 256) as u8),
        ),
        (Opcode::Add(a), Opcode::Sub(b)) => if *b <= *a {
            Some(Opcode::Add(*a - *b))
        } else {
            Some(Opcode::Sub(*b - *a))
        },
        (Opcode::Sub(a), Opcode::Sub(b)) => Some(
            Opcode::Sub((((*a as u16) + (*b as u16)) % 256) as u8),
        ),
        (Opcode::Sub(a), Opcode::Add(b)) => if *b <= *a {
            Some(Opcode::Sub(*a - *b))
        } else {
            Some(Opcode::Add(*b - *a))
        },
        (Opcode::Left(a), Opcode::Left(b)) => if *b <= usize::MAX - *a {
            Some(Opcode::Left(*a + *b))
        } else {
            None
        },
        (Opcode::Left(a), Opcode::Right(b)) => if *b <= *a {
            Some(Opcode::Left(*a - *b))
        } else {
            Some(Opcode::Right(*b - *a))
        },
        (Opcode::Right(a), Opcode::Right(b)) => if *b <= usize::MAX - *a {
            Some(Opcode::Right(*a + *b))
        } else {
            None
        },
        (Opcode::Right(a), Opcode::Left(b)) => if *b <= *a {
            Some(Opcode::Right(*a - *b))
        } else {
            Some(Opcode::Left(*b - *a))
        },
        _ => None,
    }
}

/// The opcode a source byte stands for, if any: `+ - < > , .` map to the
/// six simple opcodes, every other byte (brackets aside) is a comment.
pub open spec fn byte_op(c: u8) -> Option<GOp> {
    if c == 43 {
        Some(GOp::Add(1))
    } else if c == 45 {
        Some(GOp::Sub(1))
    } else if c == 60 {
        Some(GOp::Left(1))
    } else if c == 62 {
        Some(GOp::Right(1))
    } else if c == 44 {
        Some(GOp::In)
    } else if c == 46 {
        Some(GOp::Out)
    } else {
        None
    }
}

/// Keep a parse position inside `i+1 ..= s.len()`; parsing always lands
/// there (`lemma_parse_spec_pos`), so this never changes a reachable value.
pub open spec fn clamp_pos(s: Seq<u8>, i: int, j: int) -> int {
    if j < i + 1 {
        i + 1
    } else if j > s.len() {
        s.len() as int
    } else {
        j
    }
}

/// Parse `s[i..]` into an opcode sequence and the position just past what
/// was consumed. A `]` closes the sequence being parsed and is consumed;
/// end of input closes it silently; `[` parses a nested sequence for a
/// loop body; unrecognized bytes are skipped. No input is ever rejected.
pub open spec fn parse_spec(s: Seq<u8>, i: int) -> (Seq<GOp>, int)
    decreases s.len() - i, s.len() - i,
{
    if i < 0 || i >= s.len() {
        (Seq::<GOp>::empty(), s.len() as int)
    } else {
        let c = s[i];
        if c == 93 {
            (Seq::<GOp>::empty(), i + 1)
        } else if c == 91 {
            let inner = parse_spec(s, i + 1);
            let j = clamp_pos(s, i, inner.1);
            let rest = parse_spec(s, j);
            (seq![GOp::Loop(inner.0)] + rest.0, rest.1)
        } else {
            let rest = parse_spec(s, i + 1);
            match byte_op(c) {
                Some(g) => (seq![g] + rest.0, rest.1),
                None => rest,
            }
        }
    }
}

/// A parse of `s[i..]` always lands between `i` and the end of `s`, and
/// strictly past `i` when anything remains to consume.
pub proof fn lemma_parse_spec_pos(s: Seq<u8>, i: int)
    requires
        0 <= i <= s.len(),
    ensures
        i <= parse_spec(s, i).1 <= s.len(),
        i < s.len() ==> i + 1 <= parse_spec(s, i).1,
    decreases s.len() - i, s.len() - i,
{
    if i < s.len() {
        let c = s[i];
        if c == 91 {
            lemma_parse_spec_pos(s, i + 1);
            let j = clamp_pos(s, i, parse_spec(s, i + 1).1);
            lemma_parse_spec_pos(s, j);
        } else if c != 93 {
            lemma_parse_spec_pos(s, i + 1);
        }
    }
}

/// Scanner that turns source bytes into a program tree.
#[derive(Debug, PartialEq)]
pub struct Builder {
    pub bytes: Vec<u8>,
    pub pos: usize,
}

impl Builder {
    /// A scanner over the given source bytes, starting at the beginning.
    pub fn new(source: Vec<u8>) -> (b: Builder)
        ensures
            b.bytes@ == source@,
            b.pos == 0,
    {
        Builder { bytes: source, pos: 0 }
    }

    /// Parse one opcode sequence starting at the current position, leaving
    /// the position just past what was consumed, exactly as `parse_spec`
    /// describes.
    #[verifier::loop_isolation(false)]
    pub fn parse(&mut self) -> (ops: Vec<Opcode>)
        requires
            old(self).pos <= old(self).bytes@.len(),
        ensures
            final(self).bytes@ == old(self).bytes@,
            old(self).pos <= final(self).pos <= final(self).bytes@.len(),
            ops_view(ops@) == parse_spec(old(self).bytes@, old(self).pos as int).0,
            final(self).pos == parse_spec(old(self).bytes@, old(self).pos as int).1,
        decreases old(self).bytes@.len() - old(self).pos,
    {
        let ghost s = self.bytes@;
        let ghost p0 = self.pos as int;
        let mut ops: Vec<Opcode> = Vec::new();
        proof {
            assert(ops_view(ops@) =~= Seq::<GOp>::empty());
        }
        let mut closed = false;
        while !closed && self.pos < self.bytes.len()
            invariant
                self.bytes@ == s,
                self.pos <= s.len(),
                p0 <= self.pos,
                closed ==> parse_spec(s, p0).0 == ops_view(ops@) && parse_spec(s, p0).1
                    == self.pos,
                !closed ==> parse_spec(s, p0).0 == ops_view(ops@) + parse_spec(
                    s,
                    self.pos as int,
                ).0 && parse_spec(s, p0).1 == parse_spec(s, self.pos as int).1,
            decreases s.len() - self.pos, 1nat,
        {
            let ghost pk = self.pos as int;
            let c = self.bytes[self.pos];
            self.pos = self.pos + 1;
            if c == 93 {
                closed = true;
                proof {
                    assert(parse_spec(s, pk) == (Seq::<GOp>::empty(), pk + 1));
                    assert(ops_view(ops@) + Seq::<GOp>::empty() =~= ops_view(ops@));
                }
            } else if c == 91 {
                let body = self.parse();
                proof {
                    lemma_parse_spec_pos(s, pk + 1);
                    assert(clamp_pos(s, pk, parse_spec(s, pk + 1).1) == parse_spec(
                        s,
                        pk + 1,
                    ).1);
                }
                let op = Opcode::Loop(Program { opcodes: body });
                proof {
                    lemma_ops_view_push(ops@, op);
                    assert(ops_view(ops@.push(op)) =~= ops_view(ops@) + seq![
                        GOp::Loop(parse_spec(s, pk + 1).0),
                    ]);
                    assert(ops_view(ops@) + (seq![GOp::Loop(parse_spec(s, pk + 1).0)]
                        + parse_spec(s, self.pos as int).0) =~= ops_view(ops@.push(op))
                        + parse_spec(s, self.pos as int).0);
                }
                ops.push(op);
            } else {
                let simple: Option<Opcode> = if c == 43 {
                    Some(Opcode::Add(1))
                } else if c == 45 {
                    Some(Opcode::Sub(1))
                } else if c == 60 {
                    Some(Opcode::Left(1))
                } else if c == 62 {
                    Some(Opcode::Right(1))
                } else if c == 44 {
                    Some(Opcode::In)
                } else if c == 46 {
                    Some(Opcode::Out)
                } else {
                    None
                };
                match simple {
                    Some(op) => {
                        proof {
                            lemma_ops_view_push(ops@, op);
                            assert(byte_op(c) == Some(op_view(op)));
                            assert(ops_view(ops@) + (seq![op_view(op)] + parse_spec(
                                s,
                                self.pos as int,
                            ).0) =~= ops_view(ops@.push(op)) + parse_spec(
                                s,
                                self.pos as int,
                            ).0);
                        }
                        ops.push(op);
                    },
                    None => {
                        proof {
                            assert(byte_op(c) is None);
                        }
                    },
                }
            }
        }
        proof {
            if !closed {
                assert(self.pos == s.len());
                assert(parse_spec(s, self.pos as int) == (
                    Seq::<GOp>::empty(),
                    s.len() as int,
                ));
                assert(ops_view(ops@) + Seq::<GOp>::empty() =~= ops_view(ops@));
            }
        }
        ops
    }
}

/// Splitting an opcode sequence at any point splits its size additively.
pub proof fn lemma_ops_size_split(ops: Seq<Opcode>, k: int)
    requires
        0 <= k <= ops.len(),
    ensures
        ops_size(ops) == ops_size(ops.subrange(0, k)) + ops_size(ops.subrange(k, ops.len() as int)),
    decreases k,
{
    if k == 0 {
        assert(ops.subrange(0, 0) =~= Seq::<Opcode>::empty());
        assert(ops.subrange(0, ops.len() as int) =~= ops);
    } else {
        lemma_ops_size_split(ops, k - 1);
        let front = ops.subrange(0, k);
        lemma_ops_size_last(front);
        assert(front.drop_last() =~= ops.subrange(0, k - 1));
        let tail_prev = ops.subrange(k - 1, ops.len() as int);
        assert(tail_prev[0] == ops[k - 1]);
        assert(tail_prev.subrange(1, tail_prev.len() as int) =~= ops.subrange(k, ops.len() as int));
        assert(ops_size(tail_prev) == op_size(ops[k - 1]) + ops_size(
            ops.subrange(k, ops.len() as int),
        ));
        assert(front.last() == ops[k - 1]);
    }
}

/// The size of a nonempty sequence is the size of its front plus its last.
pub proof fn lemma_ops_size_last(ops: Seq<Opcode>)
    requires
        ops.len() > 0,
    ensures
        ops_size(ops) == ops_size(ops.drop_last()) + op_size(ops.last()),
    decreases ops.len(),
{
    if ops.len() == 1 {
        assert(ops.drop_last() =~= Seq::<Opcode>::empty());
        assert(ops.subrange(1, 1) =~= Seq::<Opcode>::empty());
    } else {
        let rest = ops.subrange(1, ops.len() as int);
        lemma_ops_size_last(rest);
        assert(rest.drop_last() =~= ops.drop_last().subrange(1, ops.drop_last().len() as int));
        assert(rest.last() == ops.last());
        assert(ops.drop_last()[0] == ops[0]);
    }
}

} // verus!
