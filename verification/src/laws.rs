//! Laws of the semantics: cell wraparound, pointer and tape safety, and
//! the cross-check between the instruction counter and the profiler's
//! leave events.

use vstd::prelude::*;
use crate::interpreter::{reduce_from, reduce_g, GOp};
use crate::semantics::{
    cell_add, cell_sub, loop_iters, run_ops, st_bump, st_wf, MState, Outcome,
};
use crate::interpreter::Step;
use vstd::arithmetic::div_mod::{
    lemma_add_mod_noop, lemma_add_mod_noop_right, lemma_mod_multiples_vanish, lemma_small_mod,
    lemma_sub_mod_noop, lemma_sub_mod_noop_right,
};

verus! {

/// Cell arithmetic is closed under modulo 256: incrementing always lands
/// in a byte again, incrementing 255 by 1 yields 0, and decrementing 0 by
/// 1 yields 255.
pub proof fn lemma_cell_wraps(c: u8, n: u8)
    ensures
        cell_add(c, n) == (c + n) % 256,
        cell_sub(c, n) == (c - n + 256) % 256,
        cell_add(255, 1) == 0,
        cell_sub(0, 1) == 255,
{
}

/// Running never shrinks the tape, never moves the instruction counter
/// backward, never breaks well-formedness (so the pointer always indexes
/// a live cell), and only appends to the event log — whatever the
/// outcome.
pub proof fn lemma_run_frame(ops: Seq<GOp>, i: int, st: MState, fuel: nat)
    ensures
        ({
            let st2 = run_ops(ops, i, st, fuel).state();
            &&& st2.tape.len() >= st.tape.len()
            &&& st2.ic >= st.ic
            &&& (st_wf(st) ==> st_wf(st2))
            &&& st2.events.len() >= st.events.len()
            &&& st2.events.subrange(0, st.events.len() as int) == st.events
        }),
    decreases fuel, ops, ops.len() - i, 1nat,
{
    let st2 = run_ops(ops, i, st, fuel).state();
    if i < 0 || i >= ops.len() {
        assert(st.events.subrange(0, st.events.len() as int) =~= st.events);
    } else if st.ic >= u64::MAX {
        assert(st.events.subrange(0, st.events.len() as int) =~= st.events);
    } else {
        let st1 = st_bump(st);
        match ops[i] {
            GOp::Loop(body) => {
                let ste = crate::semantics::st_push_event(st1, Step::EnterLoop);
                assert(ste.events.subrange(0, st.events.len() as int) =~= st.events);
                lemma_iters_frame(body, ste, fuel);
                match loop_iters(body, ste, fuel) {
                    Outcome::Done(stl) => {
                        let stp = crate::semantics::st_push_event(
                            stl,
                            Step::LeaveLoop((stl.ic - ste.ic) as u64),
                        );
                        assert(stl.events.subrange(0, st.events.len() as int)
                            =~= ste.events.subrange(0, st.events.len() as int));
                        assert(stp.events.subrange(0, st.events.len() as int)
                            =~= stl.events.subrange(0, st.events.len() as int));
                        lemma_run_frame(ops, i + 1, stp, fuel);
                        assert(st2.events.subrange(0, st.events.len() as int)
                            =~= stp.events.subrange(0, st.events.len() as int));
                    },
                    o => {
                        assert(o.state().events.subrange(0, st.events.len() as int)
                            =~= ste.events.subrange(0, st.events.len() as int));
                    },
                }
            },
            GOp::Left(n) => {
                if n > st.sp {
                    assert(st.events.subrange(0, st.events.len() as int) =~= st.events);
                } else {
                    lemma_run_frame(ops, i + 1, MState { sp: (st.sp - n) as nat, ..st1 }, fuel);
                }
            },
            GOp::Right(n) => {
                if st.sp + n > usize::MAX {
                    assert(st.events.subrange(0, st.events.len() as int) =~= st.events);
                } else {
                    lemma_run_frame(ops, i + 1, crate::semantics::st_right(st1, n), fuel);
                }
            },
            GOp::Add(n) => {
                lemma_run_frame(
                    ops,
                    i + 1,
                    crate::semantics::st_set_cell(st1, cell_add(crate::semantics::cur_cell(st), n)),
                    fuel,
                );
            },
            GOp::Sub(n) => {
                lemma_run_frame(
                    ops,
                    i + 1,
                    crate::semantics::st_set_cell(st1, cell_sub(crate::semantics::cur_cell(st), n)),
                    fuel,
                );
            },
            GOp::In => {
                lemma_run_frame(ops, i + 1, crate::semantics::st_read(st1), fuel);
            },
            GOp::Out => {
                lemma_run_frame(ops, i + 1, crate::semantics::st_write(st1), fuel);
            },
        }
    }
}

/// The frame law for a loop's iterations.
pub proof fn lemma_iters_frame(body: Seq<GOp>, st: MState, fuel: nat)
    ensures
        ({
            let st2 = loop_iters(body, st, fuel).state();
            &&& st2.tape.len() >= st.tape.len()
            &&& st2.ic >= st.ic
            &&& (st_wf(st) ==> st_wf(st2))
            &&& st2.events.len() >= st.events.len()
            &&& st2.events.subrange(0, st.events.len() as int) == st.events
        }),
    decreases fuel, body, 0nat, 0nat,
{
    let st2 = loop_iters(body, st, fuel).state();
    if crate::semantics::cur_cell(st) == 0 || fuel == 0 {
        assert(st.events.subrange(0, st.events.len() as int) =~= st.events);
    } else {
        lemma_run_frame(body, 0, st, (fuel - 1) as nat);
        match run_ops(body, 0, st, (fuel - 1) as nat) {
            Outcome::Done(stb) => {
                lemma_iters_frame(body, stb, (fuel - 1) as nat);
                assert(st2.events.subrange(0, st.events.len() as int)
                    =~= stb.events.subrange(0, st.events.len() as int));
            },
            _ => {},
        }
    }
}

/// How one event moves the loop nesting depth.
pub open spec fn ev_delta(e: Step) -> int {
    match e {
        Step::EnterLoop => 1,
        Step::LeaveLoop(_) => -1,
    }
}

/// The total depth shift of an event sequence.
pub open spec fn depth_shift(evs: Seq<Step>) -> int
    decreases evs.len(),
{
    if evs.len() == 0 {
        0
    } else {
        ev_delta(evs[0]) + depth_shift(evs.subrange(1, evs.len() as int))
    }
}

/// Starting at depth `d`, the events never close a frame that is not
/// open.
pub open spec fn depth_ok(evs: Seq<Step>, d: int) -> bool
    decreases evs.len(),
{
    if evs.len() == 0 {
        true
    } else {
        match evs[0] {
            Step::EnterLoop => depth_ok(evs.subrange(1, evs.len() as int), d + 1),
            Step::LeaveLoop(_) => d >= 1 && depth_ok(evs.subrange(1, evs.len() as int), d - 1),
        }
    }
}

/// The sum of the instruction totals carried by the leave events that
/// close an outermost frame (those leaving depth 1), starting at depth
/// `d`.
pub open spec fn outer_leave_sum(evs: Seq<Step>, d: int) -> int
    decreases evs.len(),
{
    if evs.len() == 0 {
        0
    } else {
        match evs[0] {
            Step::EnterLoop => outer_leave_sum(evs.subrange(1, evs.len() as int), d + 1),
            Step::LeaveLoop(c) => (if d == 1 {
                c as int
            } else {
                0
            }) + outer_leave_sum(evs.subrange(1, evs.len() as int), d - 1),
        }
    }
}

/// Depth shift, depth safety, and the outer-leave sum of one event.
pub proof fn lemma_ev_singleton(e: Step, d: int)
    ensures
        depth_shift(seq![e]) == ev_delta(e),
        depth_ok(seq![e], d) <==> (e is EnterLoop || d >= 1),
        outer_leave_sum(seq![e], d) == (match e {
            Step::EnterLoop => 0int,
            Step::LeaveLoop(c) => if d == 1 {
                c as int
            } else {
                0int
            },
        }),
{
    let s = seq![e];
    assert(s.subrange(1, 1) =~= Seq::<Step>::empty());
    assert(s[0] == e);
    assert(depth_shift(Seq::<Step>::empty()) == 0);
    assert(depth_ok(Seq::<Step>::empty(), d + ev_delta(e)));
    assert(outer_leave_sum(Seq::<Step>::empty(), d + ev_delta(e)) == 0);
}

/// Depth shift, depth safety, and the outer-leave sum all split over
/// concatenation.
pub proof fn lemma_ev_concat(a: Seq<Step>, b: Seq<Step>, d: int)
    ensures
        depth_shift(a + b) == depth_shift(a) + depth_shift(b),
        depth_ok(a + b, d) == (depth_ok(a, d) && depth_ok(b, d + depth_shift(a))),
        outer_leave_sum(a + b, d) == outer_leave_sum(a, d) + outer_leave_sum(
            b,
            d + depth_shift(a),
        ),
    decreases a.len(),
{
    if a.len() == 0 {
        assert(a + b =~= b);
        assert(depth_shift(a) == 0);
    } else {
        let a2 = a.subrange(1, a.len() as int);
        lemma_ev_concat(a2, b, d + ev_delta(a[0]));
        assert((a + b).subrange(1, (a + b).len() as int) =~= a2 + b);
        assert((a + b)[0] == a[0]);
    }
}

/// Depth safety only gets easier at a higher starting depth.
pub proof fn lemma_depth_ok_mono(evs: Seq<Step>, d1: int, d2: int)
    requires
        depth_ok(evs, d1),
        d2 >= d1,
    ensures
        depth_ok(evs, d2),
    decreases evs.len(),
{
    if evs.len() > 0 {
        lemma_depth_ok_mono(evs.subrange(1, evs.len() as int), d1 + ev_delta(evs[0]), d2
            + ev_delta(evs[0]));
    }
}

/// A depth-safe block placed strictly inside an open frame closes no
/// outermost frame.
pub proof fn lemma_deep_no_outer(evs: Seq<Step>, r: int, d: int)
    requires
        depth_ok(evs, r),
        d >= r + 1,
        r >= 0,
    ensures
        outer_leave_sum(evs, d) == 0,
    decreases evs.len(),
{
    if evs.len() > 0 {
        match evs[0] {
            Step::EnterLoop => {
                lemma_deep_no_outer(evs.subrange(1, evs.len() as int), r + 1, d + 1);
            },
            Step::LeaveLoop(_) => {
                lemma_deep_no_outer(evs.subrange(1, evs.len() as int), r - 1, d - 1);
            },
        }
    }
}

/// The events a completed run appends are depth-safe and balanced, and
/// the totals their outermost leave events carry sum to the counter's
/// increase minus the number of opcodes encountered at the top level.
pub proof fn lemma_run_events(ops: Seq<GOp>, i: int, st: MState, fuel: nat)
    requires
        0 <= i <= ops.len(),
        st_wf(st),
    ensures
        match run_ops(ops, i, st, fuel) {
            Outcome::Done(st2) => {
                let delta = st2.events.skip(st.events.len() as int);
                &&& st2.events == st.events + delta
                &&& depth_ok(delta, 0)
                &&& depth_shift(delta) == 0
                &&& outer_leave_sum(delta, 0) == st2.ic - st.ic - (ops.len() - i)
            },
            _ => true,
        },
    decreases fuel, ops, ops.len() - i, 1nat,
{
    if i == ops.len() {
        let delta = st.events.skip(st.events.len() as int);
        assert(delta =~= Seq::<Step>::empty());
        assert(st.events == st.events + delta) by {
            assert(st.events + delta =~= st.events);
        }
    } else if st.ic >= u64::MAX {
    } else {
        let st1 = st_bump(st);
        match ops[i] {
            GOp::Loop(body) => {
                let ste = crate::semantics::st_push_event(st1, Step::EnterLoop);
                lemma_iters_frame(body, ste, fuel);
                lemma_iters_events(body, ste, fuel);
                match loop_iters(body, ste, fuel) {
                    Outcome::Done(stl) => {
                        let c = (stl.ic - ste.ic) as u64;
                        let stp = crate::semantics::st_push_event(stl, Step::LeaveLoop(c));
                        lemma_run_frame(ops, i + 1, stp, fuel);
                        lemma_run_events(ops, i + 1, stp, fuel);
                        match run_ops(ops, i + 1, stp, fuel) {
                            Outcome::Done(st2) => {
                                let d_iters = stl.events.skip(ste.events.len() as int);
                                let d_rest = st2.events.skip(stp.events.len() as int);
                                let delta = st2.events.skip(st.events.len() as int);
                                let enter_ev = seq![Step::EnterLoop];
                                let leave_ev = seq![Step::LeaveLoop(c)];
                                assert(delta =~= enter_ev + d_iters + leave_ev + d_rest);
                                assert(st2.events == st.events + delta) by {
                                    assert(st.events + delta =~= st2.events);
                                }
                                lemma_ev_singleton(Step::EnterLoop, 0);
                                lemma_ev_singleton(Step::LeaveLoop(c), 1);
                                lemma_ev_concat(enter_ev + d_iters + leave_ev, d_rest, 0);
                                lemma_ev_concat(enter_ev + d_iters, leave_ev, 0);
                                lemma_ev_concat(enter_ev, d_iters, 0);
                                lemma_depth_ok_mono(d_iters, 0, 1);
                                lemma_deep_no_outer(d_iters, 0, 1);
                                assert(c == stl.ic - ste.ic);
                                assert(outer_leave_sum(delta, 0) == c + outer_leave_sum(
                                    d_rest,
                                    0,
                                ));
                            },
                            _ => {},
                        }
                    },
                    _ => {},
                }
            },
            GOp::Left(n) => {
                if n <= st.sp {
                    let stn = MState { sp: (st.sp - n) as nat, ..st1 };
                    lemma_run_events(ops, i + 1, stn, fuel);
                }
            },
            GOp::Right(n) => {
                if st.sp + n <= usize::MAX {
                    let stn = crate::semantics::st_right(st1, n);
                    lemma_run_events(ops, i + 1, stn, fuel);
                }
            },
            GOp::Add(n) => {
                let stn = crate::semantics::st_set_cell(
                    st1,
                    cell_add(crate::semantics::cur_cell(st), n),
                );
                lemma_run_events(ops, i + 1, stn, fuel);
            },
            GOp::Sub(n) => {
                let stn = crate::semantics::st_set_cell(
                    st1,
                    cell_sub(crate::semantics::cur_cell(st), n),
                );
                lemma_run_events(ops, i + 1, stn, fuel);
            },
            GOp::In => {
                lemma_run_events(ops, i + 1, crate::semantics::st_read(st1), fuel);
            },
            GOp::Out => {
                lemma_run_events(ops, i + 1, crate::semantics::st_write(st1), fuel);
            },
        }
    }
}

/// The events a loop's completed iterations append are depth-safe and
/// balanced.
pub proof fn lemma_iters_events(body: Seq<GOp>, st: MState, fuel: nat)
    requires
        st_wf(st),
    ensures
        match loop_iters(body, st, fuel) {
            Outcome::Done(st2) => {
                let delta = st2.events.skip(st.events.len() as int);
                &&& st2.events == st.events + delta
                &&& depth_ok(delta, 0)
                &&& depth_shift(delta) == 0
            },
            _ => true,
        },
    decreases fuel, body, 0nat, 0nat,
{
    if crate::semantics::cur_cell(st) == 0 {
        let delta = st.events.skip(st.events.len() as int);
        assert(delta =~= Seq::<Step>::empty());
        assert(st.events == st.events + delta) by {
            assert(st.events + delta =~= st.events);
        }
    } else if fuel == 0 {
    } else {
        lemma_run_frame(body, 0, st, (fuel - 1) as nat);
        lemma_run_events(body, 0, st, (fuel - 1) as nat);
        match run_ops(body, 0, st, (fuel - 1) as nat) {
            Outcome::Done(stb) => {
                lemma_iters_frame(body, stb, (fuel - 1) as nat);
                lemma_iters_events(body, stb, (fuel - 1) as nat);
                match loop_iters(body, stb, (fuel - 1) as nat) {
                    Outcome::Done(st2) => {
                        let d1 = stb.events.skip(st.events.len() as int);
                        let d2 = st2.events.skip(stb.events.len() as int);
                        let delta = st2.events.skip(st.events.len() as int);
                        assert(delta =~= d1 + d2);
                        assert(st2.events == st.events + delta) by {
                            assert(st.events + delta =~= st2.events);
                        }
                        lemma_ev_concat(d1, d2, 0);
                    },
                    _ => {},
                }
            },
            _ => {},
        }
    }
}

/// For a completed run of a whole program, the instruction totals carried
/// by the leave events of the outermost loops sum to the counter's whole
/// increase minus the static opcode count executed at the top level: the
/// cross-check between the engine's counter and the profiler's events.
pub proof fn lemma_outer_leave_totals(ops: Seq<GOp>, st: MState, fuel: nat)
    requires
        st_wf(st),
    ensures
        match run_ops(ops, 0, st, fuel) {
            Outcome::Done(st2) => outer_leave_sum(st2.events.skip(st.events.len() as int), 0)
                == st2.ic - st.ic - ops.len(),
            _ => true,
        },
{
    lemma_run_events(ops, 0, st, fuel);
}

/// The cell at a tape position, reading zero beyond the grown end.
pub open spec fn tape_read(t: Seq<u8>, j: int) -> u8 {
    if 0 <= j < t.len() {
        t[j]
    } else {
        0
    }
}

/// Observational agreement of two states: same pointer, same remaining
/// input, same output bytes, and the same cell at every tape position
/// (the tapes may differ in trailing zero cells). The instruction counter
/// and the event log are not part of the observation.
pub open spec fn st_similar(a: MState, b: MState) -> bool {
    &&& a.sp == b.sp
    &&& a.input == b.input
    &&& a.output == b.output
    &&& forall|j: int| #[trigger] tape_read(a.tape, j) == tape_read(b.tape, j)
}

/// Applying two fused cell operations in sequence equals applying their
/// signed cancellation once, modulo 256.
pub proof fn lemma_cell_fuse(c: u8, a: u8, b: u8)
    ensures
        cell_sub(cell_add(c, a), b) == (if b <= a {
            cell_add(c, (a - b) as u8)
        } else {
            cell_sub(c, (b - a) as u8)
        }),
        cell_add(cell_sub(c, a), b) == (if b <= a {
            cell_sub(c, (a - b) as u8)
        } else {
            cell_add(c, (b - a) as u8)
        }),
        cell_add(cell_add(c, a), b) == cell_add(c, ((a + b) % 256) as u8),
        cell_sub(cell_sub(c, a), b) == cell_sub(c, ((a + b) % 256) as u8),
{
    let ci = c as int;
    let ai = a as int;
    let bi = b as int;
    lemma_small_mod(b as nat, 256);
    lemma_small_mod(a as nat, 256);
    assert((ci + ai - bi + 256) % 256 == (ci + ai - bi) % 256) by {
        lemma_mod_multiples_vanish(1, ci + ai - bi, 256);
    }
    assert((ci - ai + bi + 256) % 256 == (ci - ai + bi) % 256) by {
        lemma_mod_multiples_vanish(1, ci - ai + bi, 256);
    }
    assert((ci - ai - bi + 512) % 256 == (ci - ai - bi + 256) % 256) by {
        lemma_mod_multiples_vanish(1, ci - ai - bi + 256, 256);
    }
    // Add then Sub
    assert(((ci + ai) % 256 - bi + 256) % 256 == (ci + ai - bi) % 256) by {
        lemma_mod_multiples_vanish(1, (ci + ai) % 256 - bi, 256);
        lemma_sub_mod_noop(ci + ai, bi, 256);
    }
    // Sub then Add
    assert(((ci - ai + 256) % 256 + bi) % 256 == (ci - ai + bi + 256) % 256) by {
        lemma_add_mod_noop(ci - ai + 256, bi, 256);
    }
    // Add then Add
    assert(((ci + ai) % 256 + bi) % 256 == (ci + ai + bi) % 256) by {
        lemma_add_mod_noop(ci + ai, bi, 256);
    }
    assert((ci + (ai + bi) % 256) % 256 == (ci + ai + bi) % 256) by {
        lemma_add_mod_noop_right(ci, ai + bi, 256);
    }
    // Sub then Sub
    assert(((ci - ai + 256) % 256 - bi + 256) % 256 == (ci - ai - bi + 512) % 256) by {
        lemma_mod_multiples_vanish(1, (ci - ai + 256) % 256 - bi, 256);
        lemma_sub_mod_noop(ci - ai + 256, bi, 256);
        lemma_mod_multiples_vanish(1, ci - ai - bi + 256, 256);
    }
    assert((ci - (ai + bi) % 256 + 256) % 256 == (ci - ai - bi + 256) % 256) by {
        lemma_sub_mod_noop_right(ci + 256, ai + bi, 256);
    }
}

/// Growing the tape rightward never changes what any position reads: the
/// new cells are zero, exactly what reading past the end yielded before.
pub proof fn lemma_st_right_reads(x: MState, n: usize)
    ensures
        forall|j: int| tape_read(crate::semantics::st_right(x, n).tape, j) == tape_read(
            x.tape,
            j,
        ),
{
    let t2 = crate::semantics::st_right(x, n).tape;
    assert forall|j: int| tape_read(t2, j) == tape_read(x.tape, j) by {
        if x.sp + n >= x.tape.len() {
            if 0 <= j < x.tape.len() {
                assert(t2[j] == x.tape[j]);
            } else if x.tape.len() <= j < t2.len() {
                assert(t2[j] == 0);
            }
        }
    }
}

/// Fusing one adjacent pair of cell operations preserves the observable
/// outcome of a successful run.
#[verifier::rlimit(100)]
pub proof fn lemma_fuse_cells(curr: GOp, next: GOp, f: GOp, st: MState, fuel: nat)
    requires
        st_wf(st),
        curr is Add || curr is Sub,
        crate::interpreter::fuse_pair(curr, next) == Some(f),
        run_ops(seq![curr, next], 0, st, fuel) is Done,
    ensures
        run_ops(seq![f], 0, st, fuel) is Done,
        st_similar(
            run_ops(seq![curr, next], 0, st, fuel).state(),
            run_ops(seq![f], 0, st, fuel).state(),
        ),
        run_ops(seq![f], 0, st, fuel).state().ic <= run_ops(
            seq![curr, next],
            0,
            st,
            fuel,
        ).state().ic,
        st_wf(run_ops(seq![f], 0, st, fuel).state()),
{
    let p2 = seq![curr, next];
    let p1 = seq![f];
    assert(p2.len() == 2 && p2[0] == curr && p2[1] == next);
    assert(p1.len() == 1 && p1[0] == f);
    let st1 = st_bump(st);
    let c0 = crate::semantics::cur_cell(st);
    match (curr, next) {
        (GOp::Add(a), GOp::Add(b)) => {
            lemma_cell_fuse(c0, a, b);
            let stA = crate::semantics::st_set_cell(st1, cell_add(c0, a));
            assert(run_ops(p2, 0, st, fuel) == run_ops(p2, 1, stA, fuel));
            let stB = crate::semantics::st_set_cell(
                st_bump(stA),
                cell_add(crate::semantics::cur_cell(stA), b),
            );
            assert(run_ops(p2, 1, stA, fuel) == run_ops(p2, 2, stB, fuel));
            assert(run_ops(p2, 2, stB, fuel) == Outcome::Done(stB));
            let stF = crate::semantics::st_set_cell(st1, cell_add(c0, ((a + b) % 256) as u8));
            assert(run_ops(p1, 0, st, fuel) == run_ops(p1, 1, stF, fuel));
            assert(run_ops(p1, 1, stF, fuel) == Outcome::Done(stF));
            assert(crate::semantics::cur_cell(stA) == cell_add(c0, a));
            assert(stB.tape =~= stF.tape);
        },
        (GOp::Add(a), GOp::Sub(b)) => {
            lemma_cell_fuse(c0, a, b);
            let stA = crate::semantics::st_set_cell(st1, cell_add(c0, a));
            assert(run_ops(p2, 0, st, fuel) == run_ops(p2, 1, stA, fuel));
            let stB = crate::semantics::st_set_cell(
                st_bump(stA),
                cell_sub(crate::semantics::cur_cell(stA), b),
            );
            assert(run_ops(p2, 1, stA, fuel) == run_ops(p2, 2, stB, fuel));
            assert(run_ops(p2, 2, stB, fuel) == Outcome::Done(stB));
            let v = if b <= a {
                cell_add(c0, (a - b) as u8)
            } else {
                cell_sub(c0, (b - a) as u8)
            };
            let stF = crate::semantics::st_set_cell(st1, v);
            assert(run_ops(p1, 0, st, fuel) == run_ops(p1, 1, stF, fuel));
            assert(run_ops(p1, 1, stF, fuel) == Outcome::Done(stF));
            assert(crate::semantics::cur_cell(stA) == cell_add(c0, a));
            assert(stB.tape =~= stF.tape);
        },
        (GOp::Sub(a), GOp::Add(b)) => {
            lemma_cell_fuse(c0, a, b);
            let stA = crate::semantics::st_set_cell(st1, cell_sub(c0, a));
            assert(run_ops(p2, 0, st, fuel) == run_ops(p2, 1, stA, fuel));
            let stB = crate::semantics::st_set_cell(
                st_bump(stA),
                cell_add(crate::semantics::cur_cell(stA), b),
            );
            assert(run_ops(p2, 1, stA, fuel) == run_ops(p2, 2, stB, fuel));
            assert(run_ops(p2, 2, stB, fuel) == Outcome::Done(stB));
            let v = if b <= a {
                cell_sub(c0, (a - b) as u8)
            } else {
                cell_add(c0, (b - a) as u8)
            };
            let stF = crate::semantics::st_set_cell(st1, v);
            assert(run_ops(p1, 0, st, fuel) == run_ops(p1, 1, stF, fuel));
            assert(run_ops(p1, 1, stF, fuel) == Outcome::Done(stF));
            assert(crate::semantics::cur_cell(stA) == cell_sub(c0, a));
            assert(stB.tape =~= stF.tape);
        },
        (GOp::Sub(a), GOp::Sub(b)) => {
            lemma_cell_fuse(c0, a, b);
            let stA = crate::semantics::st_set_cell(st1, cell_sub(c0, a));
            assert(run_ops(p2, 0, st, fuel) == run_ops(p2, 1, stA, fuel));
            let stB = crate::semantics::st_set_cell(
                st_bump(stA),
                cell_sub(crate::semantics::cur_cell(stA), b),
            );
            assert(run_ops(p2, 1, stA, fuel) == run_ops(p2, 2, stB, fuel));
            assert(run_ops(p2, 2, stB, fuel) == Outcome::Done(stB));
            let stF = crate::semantics::st_set_cell(st1, cell_sub(c0, ((a + b) % 256) as u8));
            assert(run_ops(p1, 0, st, fuel) == run_ops(p1, 1, stF, fuel));
            assert(run_ops(p1, 1, stF, fuel) == Outcome::Done(stF));
            assert(crate::semantics::cur_cell(stA) == cell_sub(c0, a));
            assert(stB.tape =~= stF.tape);
        },
        _ => {
            assert(false);
        },
    }
}

/// Fusing one adjacent pair of pointer moves preserves the observable
/// outcome of a successful run.
#[verifier::rlimit(100)]
pub proof fn lemma_fuse_moves(curr: GOp, next: GOp, f: GOp, st: MState, fuel: nat)
    requires
        st_wf(st),
        curr is Left || curr is Right,
        crate::interpreter::fuse_pair(curr, next) == Some(f),
        run_ops(seq![curr, next], 0, st, fuel) is Done,
    ensures
        run_ops(seq![f], 0, st, fuel) is Done,
        st_similar(
            run_ops(seq![curr, next], 0, st, fuel).state(),
            run_ops(seq![f], 0, st, fuel).state(),
        ),
        run_ops(seq![f], 0, st, fuel).state().ic <= run_ops(
            seq![curr, next],
            0,
            st,
            fuel,
        ).state().ic,
        st_wf(run_ops(seq![f], 0, st, fuel).state()),
{
    let p2 = seq![curr, next];
    let p1 = seq![f];
    assert(p2.len() == 2 && p2[0] == curr && p2[1] == next);
    assert(p1.len() == 1 && p1[0] == f);
    let st1 = st_bump(st);
    let sp = st.sp;
    let t = st.tape;
    match (curr, next) {
        (GOp::Left(a), GOp::Left(b)) => {
            assert(a <= sp);
            let stA = MState { sp: (sp - a) as nat, ..st1 };
            assert(run_ops(p2, 0, st, fuel) == run_ops(p2, 1, stA, fuel));
            assert(b <= stA.sp);
            let stB = MState { sp: (sp - a - b) as nat, ..st_bump(stA) };
            assert(run_ops(p2, 1, stA, fuel) == run_ops(p2, 2, stB, fuel));
            assert(run_ops(p2, 2, stB, fuel) == Outcome::Done(stB));
            let stF = MState { sp: (sp - (a + b)) as nat, ..st1 };
            assert(run_ops(p1, 0, st, fuel) == run_ops(p1, 1, stF, fuel));
            assert(run_ops(p1, 1, stF, fuel) == Outcome::Done(stF));
        },
        (GOp::Left(a), GOp::Right(b)) => {
            assert(a <= sp);
            let stA = MState { sp: (sp - a) as nat, ..st1 };
            assert(run_ops(p2, 0, st, fuel) == run_ops(p2, 1, stA, fuel));
            assert(stA.sp + b <= usize::MAX);
            let stB = crate::semantics::st_right(st_bump(stA), b);
            assert(run_ops(p2, 1, stA, fuel) == run_ops(p2, 2, stB, fuel));
            assert(run_ops(p2, 2, stB, fuel) == Outcome::Done(stB));
            lemma_st_right_reads(st_bump(stA), b);
            if b <= a {
                let stF = MState { sp: (sp - (a - b)) as nat, ..st1 };
                assert(run_ops(p1, 0, st, fuel) == run_ops(p1, 1, stF, fuel));
                assert(run_ops(p1, 1, stF, fuel) == Outcome::Done(stF));
                assert(stB.sp == stF.sp);
            } else {
                let stF = crate::semantics::st_right(st1, (b - a) as usize);
                lemma_st_right_reads(st1, (b - a) as usize);
                assert(run_ops(p1, 0, st, fuel) == run_ops(p1, 1, stF, fuel));
                assert(run_ops(p1, 1, stF, fuel) == Outcome::Done(stF));
                assert(stB.sp == stF.sp);
            }
        },
        (GOp::Right(a), GOp::Left(b)) => {
            assert(sp + a <= usize::MAX);
            let stA = crate::semantics::st_right(st1, a);
            lemma_st_right_reads(st1, a);
            assert(run_ops(p2, 0, st, fuel) == run_ops(p2, 1, stA, fuel));
            assert(b <= stA.sp);
            let stB = MState { sp: (sp + a - b) as nat, ..st_bump(stA) };
            assert(run_ops(p2, 1, stA, fuel) == run_ops(p2, 2, stB, fuel));
            assert(run_ops(p2, 2, stB, fuel) == Outcome::Done(stB));
            if b <= a {
                let stF = crate::semantics::st_right(st1, (a - b) as usize);
                lemma_st_right_reads(st1, (a - b) as usize);
                assert(run_ops(p1, 0, st, fuel) == run_ops(p1, 1, stF, fuel));
                assert(run_ops(p1, 1, stF, fuel) == Outcome::Done(stF));
                assert(stB.sp == stF.sp);
            } else {
                assert((b - a) as usize <= sp);
                let stF = MState { sp: (sp - (b - a)) as nat, ..st1 };
                assert(run_ops(p1, 0, st, fuel) == run_ops(p1, 1, stF, fuel));
                assert(run_ops(p1, 1, stF, fuel) == Outcome::Done(stF));
                assert(stB.sp == stF.sp);
            }
        },
        (GOp::Right(a), GOp::Right(b)) => {
            assert(sp + a <= usize::MAX);
            let stA = crate::semantics::st_right(st1, a);
            lemma_st_right_reads(st1, a);
            assert(run_ops(p2, 0, st, fuel) == run_ops(p2, 1, stA, fuel));
            assert(stA.sp + b <= usize::MAX);
            let stB = crate::semantics::st_right(st_bump(stA), b);
            lemma_st_right_reads(st_bump(stA), b);
            assert(run_ops(p2, 1, stA, fuel) == run_ops(p2, 2, stB, fuel));
            assert(run_ops(p2, 2, stB, fuel) == Outcome::Done(stB));
            let stF = crate::semantics::st_right(st1, (a + b) as usize);
            lemma_st_right_reads(st1, (a + b) as usize);
            assert(run_ops(p1, 0, st, fuel) == run_ops(p1, 1, stF, fuel));
            assert(run_ops(p1, 1, stF, fuel) == Outcome::Done(stF));
            assert(stB.sp == stF.sp);
        },
        _ => {
            assert(false);
        },
    }
}

/// Fusing one adjacent pair of opcodes preserves the observable outcome
/// of a successful run: running the pair and running its fusion from the
/// same well-formed state both complete, agreeing on the pointer, the
/// remaining input, the output, and every tape cell. This is the heart of
/// the optimizer's correctness: fusion never changes what a program
/// computes.
pub proof fn lemma_fuse_pair_preserves(curr: GOp, next: GOp, f: GOp, st: MState, fuel: nat)
    requires
        st_wf(st),
        crate::interpreter::fuse_pair(curr, next) == Some(f),
        run_ops(seq![curr, next], 0, st, fuel) is Done,
    ensures
        run_ops(seq![f], 0, st, fuel) is Done,
        st_similar(
            run_ops(seq![curr, next], 0, st, fuel).state(),
            run_ops(seq![f], 0, st, fuel).state(),
        ),
        run_ops(seq![f], 0, st, fuel).state().ic <= run_ops(
            seq![curr, next],
            0,
            st,
            fuel,
        ).state().ic,
        st_wf(run_ops(seq![f], 0, st, fuel).state()),
{
    match curr {
        GOp::Add(_) => lemma_fuse_cells(curr, next, f, st, fuel),
        GOp::Sub(_) => lemma_fuse_cells(curr, next, f, st, fuel),
        GOp::Left(_) => lemma_fuse_moves(curr, next, f, st, fuel),
        GOp::Right(_) => lemma_fuse_moves(curr, next, f, st, fuel),
        _ => assert(false),
    }
}

/// Moving the pointer left past the first cell underflows: it is a
/// surfaced error, never a silent clamp.
pub proof fn lemma_left_from_zero(n: usize, st: MState, fuel: nat)
    requires
        st.sp == 0,
        n >= 1,
        st.ic < u64::MAX,
    ensures
        run_ops(seq![GOp::Left(n)], 0, st, fuel) == Outcome::Underflow(st_bump(st)),
{
}

/// Observational agreement with the counter of the second run no further
/// along: the relation an optimized run keeps to the original run.
pub open spec fn sim_le(a: MState, b: MState) -> bool {
    &&& st_similar(a, b)
    &&& b.ic <= a.ic
}

/// Running a concatenation is running the first part, then the second.
pub proof fn lemma_run_append(a: Seq<GOp>, b: Seq<GOp>, i: int, st: MState, fuel: nat)
    requires
        0 <= i <= a.len(),
    ensures
        run_ops(a + b, i, st, fuel) == (match run_ops(a, i, st, fuel) {
            Outcome::Done(sa) => run_ops(a + b, a.len() as int, sa, fuel),
            o => o,
        }),
    decreases a.len() - i,
{
    if i < a.len() {
        assert((a + b)[i] == a[i]);
        if st.ic < u64::MAX {
            let st1 = st_bump(st);
            match a[i] {
                GOp::Loop(body) => {
                    let ste = crate::semantics::st_push_event(st1, Step::EnterLoop);
                    match loop_iters(body, ste, fuel) {
                        Outcome::Done(stl) => {
                            let stp = crate::semantics::st_push_event(
                                stl,
                                Step::LeaveLoop((stl.ic - ste.ic) as u64),
                            );
                            lemma_run_append(a, b, i + 1, stp, fuel);
                        },
                        _ => {},
                    }
                },
                GOp::Left(n) => {
                    if n <= st.sp {
                        lemma_run_append(a, b, i + 1, MState { sp: (st.sp - n) as nat, ..st1 }, fuel);
                    }
                },
                GOp::Right(n) => {
                    if st.sp + n <= usize::MAX {
                        lemma_run_append(a, b, i + 1, crate::semantics::st_right(st1, n), fuel);
                    }
                },
                GOp::Add(n) => {
                    lemma_run_append(
                        a,
                        b,
                        i + 1,
                        crate::semantics::st_set_cell(
                            st1,
                            cell_add(crate::semantics::cur_cell(st), n),
                        ),
                        fuel,
                    );
                },
                GOp::Sub(n) => {
                    lemma_run_append(
                        a,
                        b,
                        i + 1,
                        crate::semantics::st_set_cell(
                            st1,
                            cell_sub(crate::semantics::cur_cell(st), n),
                        ),
                        fuel,
                    );
                },
                GOp::In => {
                    lemma_run_append(a, b, i + 1, crate::semantics::st_read(st1), fuel);
                },
                GOp::Out => {
                    lemma_run_append(a, b, i + 1, crate::semantics::st_write(st1), fuel);
                },
            }
        }
    }
}

/// Running the tail of a concatenation is running the second part.
pub proof fn lemma_run_shift(a: Seq<GOp>, b: Seq<GOp>, j: int, st: MState, fuel: nat)
    requires
        0 <= j <= b.len(),
    ensures
        run_ops(a + b, a.len() + j, st, fuel) == run_ops(b, j, st, fuel),
    decreases b.len() - j,
{
    if j < b.len() {
        assert((a + b)[a.len() + j] == b[j]);
        if st.ic < u64::MAX {
            let st1 = st_bump(st);
            match b[j] {
                GOp::Loop(body) => {
                    let ste = crate::semantics::st_push_event(st1, Step::EnterLoop);
                    match loop_iters(body, ste, fuel) {
                        Outcome::Done(stl) => {
                            let stp = crate::semantics::st_push_event(
                                stl,
                                Step::LeaveLoop((stl.ic - ste.ic) as u64),
                            );
                            lemma_run_shift(a, b, j + 1, stp, fuel);
                        },
                        _ => {},
                    }
                },
                GOp::Left(n) => {
                    if n <= st.sp {
                        lemma_run_shift(a, b, j + 1, MState { sp: (st.sp - n) as nat, ..st1 }, fuel);
                    }
                },
                GOp::Right(n) => {
                    if st.sp + n <= usize::MAX {
                        lemma_run_shift(a, b, j + 1, crate::semantics::st_right(st1, n), fuel);
                    }
                },
                GOp::Add(n) => {
                    lemma_run_shift(
                        a,
                        b,
                        j + 1,
                        crate::semantics::st_set_cell(
                            st1,
                            cell_add(crate::semantics::cur_cell(st), n),
                        ),
                        fuel,
                    );
                },
                GOp::Sub(n) => {
                    lemma_run_shift(
                        a,
                        b,
                        j + 1,
                        crate::semantics::st_set_cell(
                            st1,
                            cell_sub(crate::semantics::cur_cell(st), n),
                        ),
                        fuel,
                    );
                },
                GOp::In => {
                    lemma_run_shift(a, b, j + 1, crate::semantics::st_read(st1), fuel);
                },
                GOp::Out => {
                    lemma_run_shift(a, b, j + 1, crate::semantics::st_write(st1), fuel);
                },
            }
        }
    }
}

/// From two observationally agreeing well-formed states, a run that
/// completes from the first also completes from the second, and the
/// final states agree observationally; the second counter stays no
/// further along.
pub proof fn lemma_run_congruence(ops: Seq<GOp>, i: int, s1: MState, s2: MState, fuel: nat)
    requires
        0 <= i <= ops.len(),
        st_wf(s1),
        st_wf(s2),
        sim_le(s1, s2),
    ensures
        match run_ops(ops, i, s1, fuel) {
            Outcome::Done(t1) => {
                &&& run_ops(ops, i, s2, fuel) is Done
                &&& sim_le(t1, run_ops(ops, i, s2, fuel).state())
                &&& st_wf(run_ops(ops, i, s2, fuel).state())
            },
            _ => true,
        },
    decreases fuel, ops, ops.len() - i, 1nat,
{
    if i < ops.len() && run_ops(ops, i, s1, fuel) is Done {
        assert(s1.ic < u64::MAX);
        let a1 = st_bump(s1);
        let a2 = st_bump(s2);
        let c = crate::semantics::cur_cell(s1);
        assert(crate::semantics::cur_cell(s2) == c) by {
            assert(tape_read(s1.tape, s1.sp as int) == tape_read(s2.tape, s2.sp as int));
        }
        match ops[i] {
            GOp::Loop(body) => {
                let e1 = crate::semantics::st_push_event(a1, Step::EnterLoop);
                let e2 = crate::semantics::st_push_event(a2, Step::EnterLoop);
                lemma_iters_frame(body, e1, fuel);
                lemma_iters_frame(body, e2, fuel);
                lemma_iters_congruence(body, e1, e2, fuel);
                match loop_iters(body, e1, fuel) {
                    Outcome::Done(l1) => {
                        let l2 = loop_iters(body, e2, fuel).state();
                        let p1 = crate::semantics::st_push_event(
                            l1,
                            Step::LeaveLoop((l1.ic - e1.ic) as u64),
                        );
                        let p2 = crate::semantics::st_push_event(
                            l2,
                            Step::LeaveLoop((l2.ic - e2.ic) as u64),
                        );
                        lemma_run_congruence(ops, i + 1, p1, p2, fuel);
                    },
                    _ => {},
                }
            },
            GOp::Left(n) => {
                if n <= s1.sp {
                    lemma_run_congruence(
                        ops,
                        i + 1,
                        MState { sp: (s1.sp - n) as nat, ..a1 },
                        MState { sp: (s2.sp - n) as nat, ..a2 },
                        fuel,
                    );
                }
            },
            GOp::Right(n) => {
                if s1.sp + n <= usize::MAX {
                    let r1 = crate::semantics::st_right(a1, n);
                    let r2 = crate::semantics::st_right(a2, n);
                    lemma_st_right_reads(a1, n);
                    lemma_st_right_reads(a2, n);
                    assert forall|j: int| tape_read(r1.tape, j) == tape_read(r2.tape, j) by {
                        assert(tape_read(s1.tape, j) == tape_read(s2.tape, j));
                    }
                    assert(sim_le(r1, r2));
                    lemma_run_congruence(ops, i + 1, r1, r2, fuel);
                }
            },
            GOp::Add(n) => {
                let u1 = crate::semantics::st_set_cell(a1, cell_add(c, n));
                let u2 = crate::semantics::st_set_cell(a2, cell_add(c, n));
                assert(sim_le(u1, u2)) by {
                    assert forall|j: int| tape_read(u1.tape, j) == tape_read(u2.tape, j) by {
                        assert(tape_read(s1.tape, j) == tape_read(s2.tape, j));
                    }
                }
                lemma_run_congruence(ops, i + 1, u1, u2, fuel);
            },
            GOp::Sub(n) => {
                let u1 = crate::semantics::st_set_cell(a1, cell_sub(c, n));
                let u2 = crate::semantics::st_set_cell(a2, cell_sub(c, n));
                assert(sim_le(u1, u2)) by {
                    assert forall|j: int| tape_read(u1.tape, j) == tape_read(u2.tape, j) by {
                        assert(tape_read(s1.tape, j) == tape_read(s2.tape, j));
                    }
                }
                lemma_run_congruence(ops, i + 1, u1, u2, fuel);
            },
            GOp::In => {
                let u1 = crate::semantics::st_read(a1);
                let u2 = crate::semantics::st_read(a2);
                assert(sim_le(u1, u2)) by {
                    assert forall|j: int| tape_read(u1.tape, j) == tape_read(u2.tape, j) by {
                        assert(tape_read(s1.tape, j) == tape_read(s2.tape, j));
                    }
                }
                lemma_run_congruence(ops, i + 1, u1, u2, fuel);
            },
            GOp::Out => {
                lemma_run_congruence(
                    ops,
                    i + 1,
                    crate::semantics::st_write(a1),
                    crate::semantics::st_write(a2),
                    fuel,
                );
            },
        }
    }
}

/// The congruence law for a loop's iterations.
pub proof fn lemma_iters_congruence(body: Seq<GOp>, s1: MState, s2: MState, fuel: nat)
    requires
        st_wf(s1),
        st_wf(s2),
        sim_le(s1, s2),
    ensures
        match loop_iters(body, s1, fuel) {
            Outcome::Done(t1) => {
                &&& loop_iters(body, s2, fuel) is Done
                &&& sim_le(t1, loop_iters(body, s2, fuel).state())
                &&& st_wf(loop_iters(body, s2, fuel).state())
            },
            _ => true,
        },
    decreases fuel, body, 0nat, 0nat,
{
    if loop_iters(body, s1, fuel) is Done {
        assert(crate::semantics::cur_cell(s2) == crate::semantics::cur_cell(s1)) by {
            assert(tape_read(s1.tape, s1.sp as int) == tape_read(s2.tape, s2.sp as int));
        }
        if crate::semantics::cur_cell(s1) != 0 && fuel > 0 {
            lemma_run_frame(body, 0, s1, (fuel - 1) as nat);
            lemma_run_frame(body, 0, s2, (fuel - 1) as nat);
            lemma_run_congruence(body, 0, s1, s2, (fuel - 1) as nat);
            match run_ops(body, 0, s1, (fuel - 1) as nat) {
                Outcome::Done(u1) => {
                    let u2 = run_ops(body, 0, s2, (fuel - 1) as nat).state();
                    lemma_iters_congruence(body, u1, u2, (fuel - 1) as nat);
                },
                _ => {},
            }
        }
    }
}

/// Observational agreement is reflexive.
pub proof fn lemma_sim_le_refl(a: MState)
    ensures
        sim_le(a, a),
{
}

/// Observational agreement chains.
pub proof fn lemma_sim_le_trans(a: MState, b: MState, c: MState)
    requires
        sim_le(a, b),
        sim_le(b, c),
    ensures
        sim_le(a, c),
{
    assert forall|j: int| tape_read(a.tape, j) == tape_read(c.tape, j) by {
        assert(tape_read(a.tape, j) == tape_read(b.tape, j));
        assert(tape_read(b.tape, j) == tape_read(c.tape, j));
    }
}

/// The fold's settled prefix factors out of its result.
pub proof fn lemma_reduce_from_factor(rem: Seq<GOp>, emitted: Seq<GOp>, curr: GOp)
    ensures
        reduce_from(rem, emitted, curr) == emitted + reduce_from(rem, Seq::empty(), curr),
    decreases rem.len(),
{
    if rem.len() == 0 {
        assert(emitted.push(curr) =~= emitted + Seq::<GOp>::empty().push(curr));
    } else {
        let next = rem[0];
        let rest = rem.subrange(1, rem.len() as int);
        match next {
            GOp::Loop(b) => {
                let nc = GOp::Loop(reduce_g(b));
                lemma_reduce_from_factor(rest, emitted.push(curr), nc);
                lemma_reduce_from_factor(rest, Seq::<GOp>::empty().push(curr), nc);
                assert(emitted.push(curr) + reduce_from(rest, Seq::empty(), nc) =~= emitted + (
                Seq::<GOp>::empty().push(curr) + reduce_from(rest, Seq::empty(), nc)));
            },
            _ => {
                match crate::interpreter::fuse_pair(curr, next) {
                    Some(f) => {
                        lemma_reduce_from_factor(rest, emitted, f);
                    },
                    None => {
                        lemma_reduce_from_factor(rest, emitted.push(curr), next);
                        lemma_reduce_from_factor(rest, Seq::<GOp>::empty().push(curr), next);
                        assert(emitted.push(curr) + reduce_from(rest, Seq::empty(), next)
                            =~= emitted + (Seq::<GOp>::empty().push(curr) + reduce_from(
                            rest,
                            Seq::empty(),
                            next,
                        )));
                    },
                }
            },
        }
    }
}

/// Iterating a loop with its body reduced, from an observationally
/// agreeing state, completes whenever iterating the original did, and the
/// final states agree observationally.
pub proof fn lemma_iters_reduce(body: Seq<GOp>, s1: MState, s2: MState, fuel: nat)
    requires
        st_wf(s1),
        st_wf(s2),
        sim_le(s1, s2),
    ensures
        match loop_iters(body, s1, fuel) {
            Outcome::Done(t1) => {
                &&& loop_iters(reduce_g(body), s2, fuel) is Done
                &&& sim_le(t1, loop_iters(reduce_g(body), s2, fuel).state())
                &&& st_wf(loop_iters(reduce_g(body), s2, fuel).state())
            },
            _ => true,
        },
    decreases fuel, body, 3nat, 0nat,
{
    if loop_iters(body, s1, fuel) is Done {
        assert(crate::semantics::cur_cell(s2) == crate::semantics::cur_cell(s1)) by {
            assert(tape_read(s1.tape, s1.sp as int) == tape_read(s2.tape, s2.sp as int));
        }
        if crate::semantics::cur_cell(s1) != 0 && fuel > 0 {
            lemma_run_frame(body, 0, s1, (fuel - 1) as nat);
            match run_ops(body, 0, s1, (fuel - 1) as nat) {
                Outcome::Done(u1) => {
                    lemma_reduce_g_preserves(body, s1, (fuel - 1) as nat);
                    let v1 = run_ops(reduce_g(body), 0, s1, (fuel - 1) as nat).state();
                    lemma_run_congruence(reduce_g(body), 0, s1, s2, (fuel - 1) as nat);
                    let v2 = run_ops(reduce_g(body), 0, s2, (fuel - 1) as nat).state();
                    lemma_sim_le_trans(u1, v1, v2);
                    lemma_iters_reduce(body, u1, v2, (fuel - 1) as nat);
                },
                _ => {},
            }
        }
    }
}

/// One fusing pass over `[curr] ++ rem` preserves the observable outcome
/// of a successful run.
#[verifier::rlimit(100)]
#[verifier::spinoff_prover]
pub proof fn lemma_fold_preserves(rem: Seq<GOp>, curr: GOp, st: MState, fuel: nat)
    requires
        st_wf(st),
    ensures
        match run_ops(seq![curr] + rem, 0, st, fuel) {
            Outcome::Done(t1) => {
                let red = reduce_from(rem, Seq::empty(), curr);
                &&& run_ops(red, 0, st, fuel) is Done
                &&& sim_le(t1, run_ops(red, 0, st, fuel).state())
                &&& st_wf(run_ops(red, 0, st, fuel).state())
            },
            _ => true,
        },
    decreases fuel, rem, 2nat, 0nat,
{
    let one = seq![curr];
    if run_ops(one + rem, 0, st, fuel) is Done {
        let t1 = run_ops(one + rem, 0, st, fuel).state();
        if rem.len() == 0 {
            assert(one + rem =~= one);
            lemma_run_frame(one, 0, st, fuel);
            lemma_sim_le_refl(t1);
        } else {
            let next = rem[0];
            let rest = rem.subrange(1, rem.len() as int);
            match next {
                GOp::Loop(b) => {
                    // split the original run: curr, then the loop, then the rest
                    lemma_run_append(one, rem, 0, st, fuel);
                    lemma_run_shift(one, rem, 0, run_ops(one, 0, st, fuel).state(), fuel);
                    let s1 = run_ops(one, 0, st, fuel).state();
                    assert(run_ops(one, 0, st, fuel) == Outcome::Done(s1));
                    assert(run_ops(rem, 0, s1, fuel) == Outcome::Done(t1));
                    lemma_run_frame(one, 0, st, fuel);
                    let lb = seq![GOp::Loop(b)];
                    assert(rem =~= lb + rest);
                    lemma_run_append(lb, rest, 0, s1, fuel);
                    let s2 = run_ops(lb, 0, s1, fuel).state();
                    assert(run_ops(lb, 0, s1, fuel) == Outcome::Done(s2));
                    lemma_run_shift(lb, rest, 0, s2, fuel);
                    assert(run_ops(rest, 0, s2, fuel) == Outcome::Done(t1));
                    lemma_run_frame(lb, 0, s1, fuel);
                    // the reduced loop from the same state
                    assert(s1.ic < u64::MAX);
                    let e1 = crate::semantics::st_push_event(st_bump(s1), Step::EnterLoop);
                    lemma_iters_frame(b, e1, fuel);
                    let l1 = loop_iters(b, e1, fuel).state();
                    assert(loop_iters(b, e1, fuel) == Outcome::Done(l1));
                    lemma_sim_le_refl(e1);
                    lemma_iters_reduce(b, e1, e1, fuel);
                    let l2 = loop_iters(reduce_g(b), e1, fuel).state();
                    let p1 = crate::semantics::st_push_event(
                        l1,
                        Step::LeaveLoop((l1.ic - e1.ic) as u64),
                    );
                    let p2 = crate::semantics::st_push_event(
                        l2,
                        Step::LeaveLoop((l2.ic - e1.ic) as u64),
                    );
                    assert(run_ops(lb, 0, s1, fuel) == run_ops(lb, 1, p1, fuel));
                    assert(run_ops(lb, 1, p1, fuel) == Outcome::Done(p1));
                    assert(s2 == p1);
                    let rl = seq![GOp::Loop(reduce_g(b))];
                    assert(loop_iters(reduce_g(b), e1, fuel) == Outcome::Done(l2));
                    assert(run_ops(rl, 0, s1, fuel) == run_ops(rl, 1, p2, fuel));
                    assert(run_ops(rl, 1, p2, fuel) == Outcome::Done(p2));
                    assert(sim_le(p1, p2));
                    // run the rest from the reduced loop's state
                    lemma_iters_frame(reduce_g(b), e1, fuel);
                    lemma_run_congruence(rest, 0, p1, p2, fuel);
                    let w = run_ops(rest, 0, p2, fuel).state();
                    assert(run_ops(rest, 0, p2, fuel) == Outcome::Done(w));
                    // compose into a run of the reduced-headed sequence
                    lemma_run_append(rl, rest, 0, s1, fuel);
                    lemma_run_shift(rl, rest, 0, p2, fuel);
                    assert(run_ops(rl + rest, 0, s1, fuel) == Outcome::Done(w));
                    // fold the tail
                    lemma_fold_preserves(rest, GOp::Loop(reduce_g(b)), s1, fuel);
                    let z = run_ops(
                        reduce_from(rest, Seq::empty(), GOp::Loop(reduce_g(b))),
                        0,
                        s1,
                        fuel,
                    ).state();
                    lemma_sim_le_trans(t1, w, z);
                    // assemble the reduced whole
                    lemma_reduce_from_factor(rem, Seq::empty(), curr);
                    lemma_reduce_from_factor(rest, Seq::<GOp>::empty().push(curr), GOp::Loop(reduce_g(b)));
                    let red_tail = reduce_from(rest, Seq::empty(), GOp::Loop(reduce_g(b)));
                    assert(reduce_from(rem, Seq::empty(), curr) =~= one + red_tail);
                    lemma_run_append(one, red_tail, 0, st, fuel);
                    lemma_run_shift(one, red_tail, 0, s1, fuel);
                    assert(run_ops(one + red_tail, 0, st, fuel) == Outcome::Done(z));
                },
                _ => {
                    match crate::interpreter::fuse_pair(curr, next) {
                        Some(f) => {
                            let cn = seq![curr, next];
                            assert(one + rem =~= cn + rest);
                            lemma_run_append(cn, rest, 0, st, fuel);
                            let sa = run_ops(cn, 0, st, fuel).state();
                            assert(run_ops(cn, 0, st, fuel) == Outcome::Done(sa));
                            lemma_run_shift(cn, rest, 0, sa, fuel);
                            assert(run_ops(rest, 0, sa, fuel) == Outcome::Done(t1));
                            lemma_run_frame(cn, 0, st, fuel);
                            lemma_fuse_pair_preserves(curr, next, f, st, fuel);
                            let fs = seq![f];
                            let sf = run_ops(fs, 0, st, fuel).state();
                            lemma_run_congruence(rest, 0, sa, sf, fuel);
                            let w = run_ops(rest, 0, sf, fuel).state();
                            assert(run_ops(rest, 0, sf, fuel) == Outcome::Done(w));
                            lemma_run_append(fs, rest, 0, st, fuel);
                            lemma_run_shift(fs, rest, 0, sf, fuel);
                            assert(run_ops(fs + rest, 0, st, fuel) == Outcome::Done(w));
                            lemma_fold_preserves(rest, f, st, fuel);
                            let z = run_ops(reduce_from(rest, Seq::empty(), f), 0, st, fuel).state();
                            lemma_sim_le_trans(t1, w, z);
                        },
                        None => {
                            lemma_run_append(one, rem, 0, st, fuel);
                            let s1 = run_ops(one, 0, st, fuel).state();
                            assert(run_ops(one, 0, st, fuel) == Outcome::Done(s1));
                            lemma_run_shift(one, rem, 0, s1, fuel);
                            assert(run_ops(rem, 0, s1, fuel) == Outcome::Done(t1));
                            lemma_run_frame(one, 0, st, fuel);
                            let ns = seq![next];
                            assert(rem =~= ns + rest);
                            lemma_fold_preserves(rest, next, s1, fuel);
                            let z = run_ops(reduce_from(rest, Seq::empty(), next), 0, s1, fuel).state();
                            lemma_reduce_from_factor(rem, Seq::empty(), curr);
                            lemma_reduce_from_factor(rest, Seq::<GOp>::empty().push(curr), next);
                            let red_tail = reduce_from(rest, Seq::empty(), next);
                            assert(reduce_from(rem, Seq::empty(), curr) =~= one + red_tail);
                            lemma_run_append(one, red_tail, 0, st, fuel);
                            lemma_run_shift(one, red_tail, 0, s1, fuel);
                            assert(run_ops(one + red_tail, 0, st, fuel) == Outcome::Done(z));
                        },
                    }
                },
            }
        }
    }
}

/// The optimizer preserves observable execution: whenever a program's
/// run completes, the reduced program's run from the same well-formed
/// state completes too, writing the same output, consuming the same
/// input, and leaving the same pointer and the same cell at every tape
/// position, after no more instructions than the original.
#[verifier::rlimit(100)]
#[verifier::spinoff_prover]
pub proof fn lemma_reduce_g_preserves(ops: Seq<GOp>, st: MState, fuel: nat)
    requires
        st_wf(st),
    ensures
        match run_ops(ops, 0, st, fuel) {
            Outcome::Done(t1) => {
                &&& run_ops(reduce_g(ops), 0, st, fuel) is Done
                &&& sim_le(t1, run_ops(reduce_g(ops), 0, st, fuel).state())
                &&& st_wf(run_ops(reduce_g(ops), 0, st, fuel).state())
            },
            _ => true,
        },
    decreases fuel, ops, 4nat, 0nat,
{
    if run_ops(ops, 0, st, fuel) is Done {
        let t1 = run_ops(ops, 0, st, fuel).state();
        if ops.len() == 0 {
            lemma_sim_le_refl(st);
        } else {
            let o0 = ops[0];
            let tail = ops.subrange(1, ops.len() as int);
            assert(ops =~= seq![o0] + tail);
            match o0 {
                GOp::Loop(b0) => {
                    let head = GOp::Loop(reduce_g(b0));
                    let lb = seq![o0];
                    lemma_run_append(lb, tail, 0, st, fuel);
                    let s2 = run_ops(lb, 0, st, fuel).state();
                    assert(run_ops(lb, 0, st, fuel) == Outcome::Done(s2));
                    lemma_run_shift(lb, tail, 0, s2, fuel);
                    assert(run_ops(tail, 0, s2, fuel) == Outcome::Done(t1));
                    lemma_run_frame(lb, 0, st, fuel);
                    assert(st.ic < u64::MAX);
                    let e1 = crate::semantics::st_push_event(st_bump(st), Step::EnterLoop);
                    lemma_iters_frame(b0, e1, fuel);
                    let l1 = loop_iters(b0, e1, fuel).state();
                    assert(loop_iters(b0, e1, fuel) == Outcome::Done(l1));
                    lemma_sim_le_refl(e1);
                    lemma_iters_reduce(b0, e1, e1, fuel);
                    let l2 = loop_iters(reduce_g(b0), e1, fuel).state();
                    let p1 = crate::semantics::st_push_event(
                        l1,
                        Step::LeaveLoop((l1.ic - e1.ic) as u64),
                    );
                    let p2 = crate::semantics::st_push_event(
                        l2,
                        Step::LeaveLoop((l2.ic - e1.ic) as u64),
                    );
                    assert(run_ops(lb, 0, st, fuel) == run_ops(lb, 1, p1, fuel));
                    assert(run_ops(lb, 1, p1, fuel) == Outcome::Done(p1));
                    assert(s2 == p1);
                    let rl = seq![head];
                    assert(loop_iters(reduce_g(b0), e1, fuel) == Outcome::Done(l2));
                    assert(run_ops(rl, 0, st, fuel) == run_ops(rl, 1, p2, fuel));
                    assert(run_ops(rl, 1, p2, fuel) == Outcome::Done(p2));
                    assert(sim_le(p1, p2));
                    lemma_iters_frame(reduce_g(b0), e1, fuel);
                    lemma_run_congruence(tail, 0, p1, p2, fuel);
                    let w = run_ops(tail, 0, p2, fuel).state();
                    assert(run_ops(tail, 0, p2, fuel) == Outcome::Done(w));
                    lemma_run_append(rl, tail, 0, st, fuel);
                    lemma_run_shift(rl, tail, 0, p2, fuel);
                    assert(run_ops(rl + tail, 0, st, fuel) == Outcome::Done(w));
                    lemma_fold_preserves(tail, head, st, fuel);
                    let z = run_ops(reduce_from(tail, Seq::empty(), head), 0, st, fuel).state();
                    lemma_sim_le_trans(t1, w, z);
                    assert(reduce_g(ops) == reduce_from(tail, Seq::empty(), head));
                },
                _ => {
                    lemma_fold_preserves(tail, o0, st, fuel);
                    assert(reduce_g(ops) == reduce_from(tail, Seq::empty(), o0));
                },
            }
        }
    }
}

} // verus!
