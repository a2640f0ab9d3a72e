//! Loop profiler: reconstructs per-loop statistics from the engine's flat
//! stream of enter/leave events.
//!
//! One `Record` per `Loop` opcode mirrors the program's loop nesting; an
//! implicit cursor (the chain of `state` fields) marks the record whose
//! loop is currently executing. Enter events advance the cursor one step
//! deeper, leave events add the carried instruction total to the record
//! under the cursor and retract one step. A leave event with no open
//! frame is a synchronization fault, surfaced as an error and never
//! patched over.

use vstd::prelude::*;
use crate::interpreter::{GOp, Opcode, Program, Step, ops_view};

verus! {

/// The mathematical mirror of a `Record`: accumulated count, cursor
/// state, and children in source order.
#[verifier::ext_equal]
pub ghost struct RecV {
    pub count: nat,
    pub state: Option<int>,
    pub kids: Seq<RecV>,
}

/// A record for one loop: `count` accumulates the instruction totals of
/// its leave events; `state` is `None` when this record itself is the
/// cursor target and `Some(i)` when the cursor has descended into child
/// `i`; `children` hold one record per nested loop, in source order.
#[derive(Debug, PartialEq)]
pub struct Record {
    pub count: u64,
    pub state: Option<usize>,
    pub children: Vec<Record>,
}

/// The view of one record.
pub open spec fn rec_v(r: Record) -> RecV
    decreases r,
{
    RecV {
        count: r.count as nat,
        state: match r.state {
            Some(i) => Some(i as int),
            None => None,
        },
        kids: kids_v(r.children@),
    }
}

/// The view of a record sequence, element by element.
pub open spec fn kids_v(cs: Seq<Record>) -> Seq<RecV>
    decreases cs,
{
    if cs.len() == 0 {
        Seq::empty()
    } else {
        seq![rec_v(cs[0])] + kids_v(cs.subrange(1, cs.len() as int))
    }
}

/// The view keeps length and maps elements pointwise.
pub proof fn lemma_kids_v_index(cs: Seq<Record>)
    ensures
        kids_v(cs).len() == cs.len(),
        forall|i: int| 0 <= i < cs.len() ==> kids_v(cs)[i] == rec_v(cs[i]),
    decreases cs.len(),
{
    if cs.len() > 0 {
        lemma_kids_v_index(cs.subrange(1, cs.len() as int));
    }
}

/// Viewing after a push appends the pushed record's view.
pub proof fn lemma_kids_v_push(cs: Seq<Record>, c: Record)
    ensures
        kids_v(cs.push(c)) =~= kids_v(cs) + seq![rec_v(c)],
{
    lemma_kids_v_index(cs);
    lemma_kids_v_index(cs.push(c));
    assert forall|i: int| 0 <= i < cs.len() + 1 implies kids_v(cs.push(c))[i] == (kids_v(cs)
        + seq![rec_v(c)])[i] by {
        if i < cs.len() {
            assert(cs.push(c)[i] == cs[i]);
        } else {
            assert(cs.push(c)[i] == c);
        }
    }
}

/// A well-formed record tree: every open cursor state indexes a live
/// child, recursively.
pub open spec fn rec_wf(r: RecV) -> bool
    decreases r,
{
    &&& match r.state {
        Some(i) => 0 <= i < r.kids.len(),
        None => true,
    }
    &&& forall|j: int| 0 <= j < r.kids.len() ==> rec_wf(#[trigger] r.kids[j])
}

/// The fresh records for an opcode sequence: one zeroed record per loop,
/// in source order, children mirroring the loop's own body.
pub open spec fn fresh_recs(ops: Seq<GOp>) -> Seq<RecV>
    decreases ops,
{
    if ops.len() == 0 {
        Seq::empty()
    } else {
        let rest = fresh_recs(ops.subrange(1, ops.len() as int));
        match ops[0] {
            GOp::Loop(b) => seq![RecV { count: 0, state: None, kids: fresh_recs(b) }] + rest,
            _ => rest,
        }
    }
}

/// The record under the cursor: follow open states down to the first
/// record whose own state is closed.
pub open spec fn rec_at(r: RecV) -> RecV
    decreases r,
{
    match r.state {
        None => r,
        Some(i) => if 0 <= i < r.kids.len() {
            rec_at(r.kids[i])
        } else {
            r
        },
    }
}

/// Advance the cursor one step deeper: a closed record with children
/// opens its first child; an open child is tried recursively, and when it
/// cannot advance the cursor moves to its next sibling, or reports
/// upward (`false`) that this level is spent.
pub open spec fn enter_v(r: RecV) -> (RecV, bool)
    decreases r,
{
    match r.state {
        None => if r.kids.len() == 0 {
            (r, false)
        } else {
            (RecV { state: Some(0), ..r }, true)
        },
        Some(i) => if 0 <= i < r.kids.len() {
            let sub = enter_v(r.kids[i]);
            if sub.1 {
                (RecV { kids: r.kids.update(i, sub.0), ..r }, true)
            } else if i + 1 < r.kids.len() {
                (RecV { state: Some(i + 1), ..r }, true)
            } else {
                (r, false)
            }
        } else {
            (r, false)
        },
    }
}

/// An advance that reports `false` changes nothing.
pub proof fn lemma_enter_v_spent(r: RecV)
    ensures
        !enter_v(r).1 ==> enter_v(r).0 == r,
    decreases r,
{
    match r.state {
        None => {},
        Some(i) => {
            if 0 <= i < r.kids.len() {
                lemma_enter_v_spent(r.kids[i]);
            }
        },
    }
}

/// Retract the cursor one step: find the deepest open state; the record
/// it names moves to its next sibling if one remains, else the state
/// closes, popping the cursor to the parent.
pub open spec fn leave_v(r: RecV) -> RecV
    decreases r,
{
    match r.state {
        None => r,
        Some(i) => if 0 <= i < r.kids.len() {
            match r.kids[i].state {
                None => if i + 1 < r.kids.len() {
                    RecV { state: Some(i + 1), ..r }
                } else {
                    RecV { state: None, ..r }
                },
                Some(_) => RecV { kids: r.kids.update(i, leave_v(r.kids[i])), ..r },
            }
        } else {
            r
        },
    }
}

/// Add `c` to the count of the record under the cursor, saturating at the
/// counter's range.
pub open spec fn add_v(r: RecV, c: u64) -> RecV
    decreases r,
{
    match r.state {
        None => RecV {
            count: if r.count + c <= u64::MAX {
                (r.count + c) as nat
            } else {
                u64::MAX as nat
            },
            ..r
        },
        Some(i) => if 0 <= i < r.kids.len() {
            RecV { kids: r.kids.update(i, add_v(r.kids[i], c)), ..r }
        } else {
            r
        },
    }
}

impl Record {
    /// A fresh record tree mirroring the loop nesting of a program: all
    /// counts zero, every cursor state closed.
    #[verifier::loop_isolation(false)]
    pub fn new(program: &Program) -> (r: Record)
        ensures
            rec_v(r) == (RecV {
                count: 0,
                state: None,
                kids: fresh_recs(ops_view(program.opcodes@)),
            }),
            rec_wf(rec_v(r)),
        decreases crate::interpreter::ops_size(program.opcodes@),
    {
        let ghost gops = ops_view(program.opcodes@);
        proof {
            crate::interpreter::lemma_ops_view_index(program.opcodes@);
        }
        let mut children: Vec<Record> = Vec::new();
        let mut k: usize = 0;
        let n = program.opcodes.len();
        proof {
            assert(kids_v(children@) =~= Seq::<RecV>::empty());
            assert(gops.subrange(0, gops.len() as int) =~= gops);
        }
        while k < n
            invariant
                k <= n,
                n == program.opcodes.len(),
                gops == ops_view(program.opcodes@),
                gops.len() == n,
                fresh_recs(gops) =~= kids_v(children@) + fresh_recs(
                    gops.subrange(k as int, gops.len() as int),
                ),
                forall|j: int| 0 <= j < children@.len() ==> rec_wf(rec_v(
                    #[trigger] children@[j],
                )),
            decreases n - k,
        {
            let ghost tail = gops.subrange(k as int, gops.len() as int);
            proof {
                assert(tail[0] == gops[k as int]);
                assert(tail.subrange(1, tail.len() as int) =~= gops.subrange(
                    k as int + 1,
                    gops.len() as int,
                ));
            }
            match &program.opcodes[k] {
                Opcode::Loop(p) => {
                    proof {
                        crate::interpreter::lemma_op_size_element(program.opcodes@, k as int);
                    }
                    let sub = Record::new(p);
                    let ghost cs_pre = children@;
                    proof {
                        lemma_kids_v_push(children@, sub);
                    }
                    children.push(sub);
                    proof {
                        assert(forall|j: int|
                            0 <= j < cs_pre.len() ==> children@[j] == cs_pre[j]);
                        assert(children@[cs_pre.len() as int] == sub);
                    }
                },
                _ => {
                    proof {
                        assert(!(gops[k as int] is Loop));
                    }
                },
            }
            proof {
                lemma_kids_v_index(children@);
            }
            k = k + 1;
        }
        proof {
            assert(gops.subrange(n as int, gops.len() as int).len() == 0);
            assert(fresh_recs(gops.subrange(n as int, gops.len() as int))
                =~= Seq::<RecV>::empty());
            assert(kids_v(children@) + Seq::<RecV>::empty() =~= kids_v(children@));
            lemma_kids_v_index(children@);
            assert forall|j: int| 0 <= j < kids_v(children@).len() implies rec_wf(
                #[trigger] kids_v(children@)[j],
            ) by {
                assert(kids_v(children@)[j] == rec_v(children@[j]));
            }
        }
        Record { count: 0, state: None, children }
    }

    /// The record under the cursor.
    pub fn get(&self) -> (r: &Record)
        requires
            rec_wf(rec_v(*self)),
        ensures
            rec_v(*r) == rec_at(rec_v(*self)),
        decreases *self,
    {
        proof {
            lemma_kids_v_index(self.children@);
        }
        match self.state {
            None => self,
            Some(i) => self.children[i].get(),
        }
    }

    /// Advance the cursor one step deeper, as `enter_v` describes; the
    /// result reports whether a step was taken.
    pub fn enter(&mut self) -> (done: bool)
        requires
            rec_wf(rec_v(*old(self))),
        ensures
            rec_v(*final(self)) == enter_v(rec_v(*old(self))).0,
            done == enter_v(rec_v(*old(self))).1,
            rec_wf(rec_v(*final(self))),
        decreases *old(self),
    {
        proof {
            lemma_kids_v_index(self.children@);
        }
        match self.state {
            None => {
                if self.children.len() == 0 {
                    false
                } else {
                    self.state = Some(0);
                    true
                }
            },
            Some(i) => {
                let ghost cs0 = self.children@;
                let ghost r0 = rec_v(*old(self));
                proof {
                    assert((i as int) < r0.kids.len());
                    assert(r0.kids[i as int] == rec_v(cs0[i as int]));
                    assert(rec_wf(r0.kids[i as int]));
                    assert(i < cs0.len());
                }
                let mut c = self.children.remove(i);
                let sub_done = c.enter();
                proof {
                    lemma_enter_v_spent(rec_v(cs0[i as int]));
                }
                self.children.insert(i, c);
                proof {
                    assert(self.children@ =~= cs0.update(i as int, c));
                    lemma_kids_v_update(cs0, i as int, c);
                }
                if sub_done {
                    true
                } else if i + 1 < self.children.len() {
                    self.state = Some(i + 1);
                    proof {
                        assert(kids_v(cs0.update(i as int, c)) =~= kids_v(cs0));
                    }
                    true
                } else {
                    proof {
                        assert(kids_v(cs0.update(i as int, c)) =~= kids_v(cs0));
                    }
                    false
                }
            },
        }
    }

    /// Retract the cursor one step, as `leave_v` describes. The caller
    /// guarantees an open frame.
    pub fn leave(&mut self)
        requires
            rec_wf(rec_v(*old(self))),
            old(self).state is Some,
        ensures
            rec_v(*final(self)) == leave_v(rec_v(*old(self))),
            rec_wf(rec_v(*final(self))),
        decreases *old(self),
    {
        proof {
            lemma_kids_v_index(self.children@);
        }
        let ghost r0 = rec_v(*old(self));
        if let Some(i) = self.state {
            proof {
                assert((i as int) < r0.kids.len());
                assert(r0.kids[i as int] == rec_v(self.children@[i as int]));
                assert(rec_wf(r0.kids[i as int]));
                assert(i < self.children@.len());
            }
            let ghost cs0 = self.children@;
            let clen = self.children.len();
            proof {
                assert(i < clen);
            }
            let child_open = self.children[i].state.is_some();
            if !child_open {
                if i + 1 < clen {
                    self.state = Some(i + 1);
                } else {
                    self.state = None;
                }
            } else {
                let mut c = self.children.remove(i);
                c.leave();
                self.children.insert(i, c);
                proof {
                    assert(self.children@ =~= cs0.update(i as int, c));
                    lemma_kids_v_update(cs0, i as int, c);
                }
            }
        }
    }

    /// Add `c` to the count of the record under the cursor, saturating at
    /// the counter's range, as `add_v` describes.
    pub fn add_at_cursor(&mut self, c: u64)
        requires
            rec_wf(rec_v(*old(self))),
        ensures
            rec_v(*final(self)) == add_v(rec_v(*old(self)), c),
            rec_wf(rec_v(*final(self))),
        decreases *old(self),
    {
        proof {
            lemma_kids_v_index(self.children@);
        }
        match self.state {
            None => {
                if self.count > u64::MAX - c {
                    self.count = u64::MAX;
                } else {
                    self.count = self.count + c;
                }
            },
            Some(i) => {
                let ghost cs0 = self.children@;
                let ghost r0 = rec_v(*old(self));
                proof {
                    assert((i as int) < r0.kids.len());
                    assert(r0.kids[i as int] == rec_v(cs0[i as int]));
                    assert(rec_wf(r0.kids[i as int]));
                    assert(i < cs0.len());
                }
                let mut ch = self.children.remove(i);
                ch.add_at_cursor(c);
                self.children.insert(i, ch);
                proof {
                    assert(self.children@ =~= cs0.update(i as int, ch));
                    lemma_kids_v_update(cs0, i as int, ch);
                }
            },
        }
    }
}

/// Viewing after an update replaces that element's view.
pub proof fn lemma_kids_v_update(cs: Seq<Record>, i: int, c: Record)
    requires
        0 <= i < cs.len(),
    ensures
        kids_v(cs.update(i, c)) =~= kids_v(cs).update(i, rec_v(c)),
{
    lemma_kids_v_index(cs);
    lemma_kids_v_index(cs.update(i, c));
}

/// The profiler's failure: a leave event arrived with no open cursor
/// frame, so the engine's events and the record tree have fallen out of
/// step. This is surfaced, never patched over.
#[derive(Debug, Clone, Copy, PartialEq, Eq, Structural)]
pub enum ProfileError {
    SynchronizationFault,
}

/// The profiler: a record tree mirroring one program's loop nesting,
/// fed the engine's events during a single execution of that program.
#[derive(Debug, PartialEq)]
pub struct Profiler {
    pub map: Record,
    pub program: Program,
}

impl Profiler {
    /// A profiler for one program, its record tree fresh.
    pub fn new(p: Program) -> (pr: Profiler)
        ensures
            rec_v(pr.map) == (RecV {
                count: 0,
                state: None,
                kids: fresh_recs(ops_view(p.opcodes@)),
            }),
            rec_wf(rec_v(pr.map)),
            pr.program == p,
    {
        let map = Record::new(&p);
        Profiler { map, program: p }
    }

    /// The program this profiler observes.
    pub fn program(&self) -> (r: &Program)
        ensures
            *r == self.program,
    {
        &self.program
    }

    /// Feed one engine event. An enter event advances the cursor one
    /// step deeper; a leave event adds its instruction total to the
    /// record under the cursor and retracts the cursor one step. A leave
    /// event with no open frame is a synchronization fault: an error is
    /// returned and nothing changes.
    pub fn step(&mut self, step: Step) -> (r: Result<(), ProfileError>)
        requires
            rec_wf(rec_v(old(self).map)),
        ensures
            final(self).program == old(self).program,
            rec_wf(rec_v(final(self).map)),
            match step {
                Step::EnterLoop => r is Ok && rec_v(final(self).map) == enter_v(
                    rec_v(old(self).map),
                ).0,
                Step::LeaveLoop(c) => if old(self).map.state is Some {
                    r is Ok && rec_v(final(self).map) == leave_v(
                        add_v(rec_v(old(self).map), c),
                    )
                } else {
                    r is Err && *final(self) == *old(self)
                },
            },
    {
        match step {
            Step::EnterLoop => {
                let _ = self.map.enter();
                Ok(())
            },
            Step::LeaveLoop(c) => {
                if self.map.state.is_some() {
                    self.map.add_at_cursor(c);
                    proof {
                        assert(rec_v(self.map).state is Some);
                    }
                    self.map.leave();
                    Ok(())
                } else {
                    Err(ProfileError::SynchronizationFault)
                }
            },
        }
    }

    /// The textual report for this profiler's program and records.
    pub fn print(&self) -> (s: String)
        requires
            crate::interpreter::ops_size(self.program.opcodes@) <= usize::MAX,
        ensures
            s@ == report_spec(ops_view(self.program.opcodes@), rec_v(self.map)),
    {
        let ctx = PrintContext::new(self);
        ctx.print()
    }
}

/// The mathematical mirror of a `Count`.
#[verifier::ext_equal]
pub ghost struct CntV {
    pub iterations: nat,
    pub oc: nat,
    pub oe_total: nat,
    pub kids: Seq<CntV>,
}

/// Aggregated statistics for one scope: the accumulated count of its
/// record (`iterations`), its own opcode count excluding nested loop
/// bodies (`oc`), the total of instructions attributed to it and all
/// nested scopes (`oe_total`), and one child per nested loop.
#[derive(Debug, PartialEq)]
pub struct Count {
    pub iterations: u64,
    pub oc: u64,
    pub oe_total: u64,
    pub children: Vec<Count>,
}

/// The view of one count.
pub open spec fn cnt_v(c: Count) -> CntV
    decreases c,
{
    CntV {
        iterations: c.iterations as nat,
        oc: c.oc as nat,
        oe_total: c.oe_total as nat,
        kids: cnts_v(c.children@),
    }
}

/// The view of a count sequence, element by element.
pub open spec fn cnts_v(cs: Seq<Count>) -> Seq<CntV>
    decreases cs,
{
    if cs.len() == 0 {
        Seq::empty()
    } else {
        seq![cnt_v(cs[0])] + cnts_v(cs.subrange(1, cs.len() as int))
    }
}

/// The view keeps length and maps elements pointwise.
pub proof fn lemma_cnts_v_index(cs: Seq<Count>)
    ensures
        cnts_v(cs).len() == cs.len(),
        forall|i: int| 0 <= i < cs.len() ==> cnts_v(cs)[i] == cnt_v(cs[i]),
    decreases cs.len(),
{
    if cs.len() > 0 {
        lemma_cnts_v_index(cs.subrange(1, cs.len() as int));
    }
}

/// Viewing after a push appends the pushed count's view.
pub proof fn lemma_cnts_v_push(cs: Seq<Count>, c: Count)
    ensures
        cnts_v(cs.push(c)) =~= cnts_v(cs) + seq![cnt_v(c)],
{
    lemma_cnts_v_index(cs);
    lemma_cnts_v_index(cs.push(c));
    assert forall|i: int| 0 <= i < cs.len() + 1 implies cnts_v(cs.push(c))[i] == (cnts_v(cs)
        + seq![cnt_v(c)])[i] by {
        if i < cs.len() {
            assert(cs.push(c)[i] == cs[i]);
        } else {
            assert(cs.push(c)[i] == c);
        }
    }
}

/// The bodies of the top-level loops of an opcode sequence, in order.
pub open spec fn loops_of(ops: Seq<GOp>) -> Seq<Seq<GOp>>
    decreases ops,
{
    if ops.len() == 0 {
        Seq::empty()
    } else {
        let rest = loops_of(ops.subrange(1, ops.len() as int));
        match ops[0] {
            GOp::Loop(b) => seq![b] + rest,
            _ => rest,
        }
    }
}

/// An integer clamped into the counter's range.
pub open spec fn sat64(x: int) -> nat {
    if x > u64::MAX {
        u64::MAX as nat
    } else if x < 0 {
        0
    } else {
        x as nat
    }
}

/// The sum of the totals of a count sequence.
pub open spec fn sum_oe(ks: Seq<CntV>) -> nat
    decreases ks,
{
    if ks.len() == 0 {
        0
    } else {
        (ks[0].oe_total + sum_oe(ks.subrange(1, ks.len() as int))) as nat
    }
}

/// The aggregation of one record against its scope's opcodes: the total
/// attributed to a scope is its record's count times its own opcode
/// count, plus the totals of its nested scopes, clamping at the
/// counter's range; children pair nested records with nested loop bodies
/// in order, stopping at the shorter side.
pub open spec fn count_spec(r: RecV, ops: Seq<GOp>) -> CntV
    decreases r, 1nat,
{
    let kids = counts_spec(r.kids, loops_of(ops));
    CntV {
        iterations: r.count,
        oc: ops.len(),
        oe_total: sat64((r.count * ops.len() + sum_oe(kids)) as int),
        kids,
    }
}

/// Pair records with loop bodies, in order, stopping at the shorter
/// side.
pub open spec fn counts_spec(rs: Seq<RecV>, ls: Seq<Seq<GOp>>) -> Seq<CntV>
    decreases rs, 0nat,
{
    if rs.len() == 0 || ls.len() == 0 {
        Seq::empty()
    } else {
        seq![count_spec(rs[0], ls[0])] + counts_spec(
            rs.subrange(1, rs.len() as int),
            ls.subrange(1, ls.len() as int),
        )
    }
}

/// Add, clamping at the counter's range.
fn sat_add64(a: u64, b: u64) -> (r: u64)
    ensures
        r as nat == sat64(a + b),
{
    if a > u64::MAX - b {
        u64::MAX
    } else {
        a + b
    }
}

/// Multiply, clamping at the counter's range.
fn sat_mul64(a: u64, b: u64) -> (r: u64)
    ensures
        r as nat == sat64(a as int * b as int),
{
    if b == 0 {
        0
    } else if a > u64::MAX / b {
        proof {
            let q = u64::MAX as int / b as int;
            vstd::arithmetic::div_mod::lemma_fundamental_div_mod(u64::MAX as int, b as int);
            vstd::arithmetic::div_mod::lemma_mod_bound(u64::MAX as int, b as int);
            assert(a as int * b as int > u64::MAX) by (nonlinear_arith)
                requires
                    a as int >= q + 1,
                    u64::MAX as int == b as int * q + (u64::MAX as int) % (b as int),
                    (u64::MAX as int) % (b as int) < b as int,
                    b as int > 0,
            ;
        }
        u64::MAX
    } else {
        proof {
            let q = u64::MAX as int / b as int;
            vstd::arithmetic::div_mod::lemma_fundamental_div_mod(u64::MAX as int, b as int);
            vstd::arithmetic::div_mod::lemma_mod_bound(u64::MAX as int, b as int);
            assert(a as int * b as int <= u64::MAX) by (nonlinear_arith)
                requires
                    a as int <= q,
                    u64::MAX as int == b as int * q + (u64::MAX as int) % (b as int),
                    (u64::MAX as int) % (b as int) >= 0,
                    b as int > 0,
            ;
        }
        a * b
    }
}

impl Count {
    /// Aggregate one record tree against the program scope it mirrors,
    /// as `count_spec` describes.
    #[verifier::loop_isolation(false)]
    pub fn new(r: &Record, p: &Program) -> (c: Count)
        ensures
            cnt_v(c) == count_spec(rec_v(*r), ops_view(p.opcodes@)),
        decreases crate::interpreter::ops_size(p.opcodes@),
    {
        let ghost gops = ops_view(p.opcodes@);
        let ghost rv = rec_v(*r);
        proof {
            crate::interpreter::lemma_ops_view_index(p.opcodes@);
            lemma_kids_v_index(r.children@);
        }
        let mut children: Vec<Count> = Vec::new();
        let mut ci: usize = 0;
        let mut k: usize = 0;
        let n = p.opcodes.len();
        proof {
            assert(cnts_v(children@) =~= Seq::<CntV>::empty());
            assert(gops.subrange(0, gops.len() as int) =~= gops);
            assert(rv.kids.subrange(0, rv.kids.len() as int) =~= rv.kids);
        }
        while k < n
            invariant
                k <= n,
                ci <= r.children@.len(),
                counts_spec(rv.kids, loops_of(gops)) =~= cnts_v(children@) + counts_spec(
                    rv.kids.subrange(ci as int, rv.kids.len() as int),
                    loops_of(gops.subrange(k as int, gops.len() as int)),
                ),
            decreases n - k,
        {
            let ghost tail = gops.subrange(k as int, gops.len() as int);
            proof {
                assert(tail[0] == gops[k as int]);
                assert(tail.subrange(1, tail.len() as int) =~= gops.subrange(
                    k as int + 1,
                    gops.len() as int,
                ));
            }
            match &p.opcodes[k] {
                Opcode::Loop(body) => {
                    if ci < r.children.len() {
                        proof {
                            crate::interpreter::lemma_op_size_element(p.opcodes@, k as int);
                            assert(rv.kids.subrange(ci as int, rv.kids.len() as int)[0]
                                == rv.kids[ci as int]);
                            assert(rv.kids[ci as int] == rec_v(r.children@[ci as int]));
                            assert(rv.kids.subrange(ci as int, rv.kids.len() as int).subrange(
                                1,
                                rv.kids.len() - ci,
                            ) =~= rv.kids.subrange(ci as int + 1, rv.kids.len() as int));
                        }
                        let sub = Count::new(&r.children[ci], body);
                        proof {
                            lemma_cnts_v_push(children@, sub);
                            let krem = rv.kids.subrange(ci as int, rv.kids.len() as int);
                            let bg = ops_view(body.opcodes@);
                            assert(gops[k as int] == GOp::Loop(bg));
                            assert(loops_of(tail) == seq![bg] + loops_of(
                                gops.subrange(k as int + 1, gops.len() as int),
                            ));
                            assert((seq![bg] + loops_of(
                                gops.subrange(k as int + 1, gops.len() as int),
                            ))[0] == bg);
                            assert((seq![bg] + loops_of(
                                gops.subrange(k as int + 1, gops.len() as int),
                            )).subrange(1, loops_of(tail).len() as int) =~= loops_of(
                                gops.subrange(k as int + 1, gops.len() as int),
                            ));
                            assert(counts_spec(krem, loops_of(tail)) == seq![
                                count_spec(krem[0], bg),
                            ] + counts_spec(
                                rv.kids.subrange(ci as int + 1, rv.kids.len() as int),
                                loops_of(gops.subrange(k as int + 1, gops.len() as int)),
                            ));
                            assert(cnt_v(sub) == count_spec(krem[0], bg));
                        }
                        children.push(sub);
                        ci = ci + 1;
                    } else {
                        proof {
                            assert(rv.kids.subrange(ci as int, rv.kids.len() as int).len()
                                == 0);
                            assert(counts_spec(
                                rv.kids.subrange(ci as int, rv.kids.len() as int),
                                loops_of(tail),
                            ).len() == 0);
                            assert(counts_spec(
                                rv.kids.subrange(ci as int, rv.kids.len() as int),
                                loops_of(gops.subrange(k as int + 1, gops.len() as int)),
                            ).len() == 0);
                        }
                    }
                },
                _ => {
                    proof {
                        assert(!(gops[k as int] is Loop));
                    }
                },
            }
            k = k + 1;
        }
        proof {
            assert(gops.subrange(n as int, gops.len() as int).len() == 0);
            assert(loops_of(gops.subrange(n as int, gops.len() as int)).len() == 0);
        }
        let iterations = r.count;
        let oc_usize = p.opcodes.len();
        let oc: u64 = oc_usize as u64;
        let mut oe: u64 = sat_mul64(iterations, oc);
        let mut j: usize = 0;
        let ghost kv = cnts_v(children@);
        proof {
            lemma_cnts_v_index(children@);
            assert(kv.subrange(0, kv.len() as int) =~= kv);
        }
        while j < children.len()
            invariant
                j <= children.len(),
                kv == cnts_v(children@),
                kv.len() == children@.len(),
                iterations * oc + sum_oe(kv) - sum_oe(
                    kv.subrange(j as int, kv.len() as int),
                ) >= 0,
                oe as nat == sat64(
                    iterations * oc + sum_oe(kv) - sum_oe(
                        kv.subrange(j as int, kv.len() as int),
                    ),
                ),
            decreases children.len() - j,
        {
            proof {
                assert(kv.subrange(j as int, kv.len() as int)[0] == kv[j as int]);
                assert(kv[j as int] == cnt_v(children@[j as int]));
                assert(kv.subrange(j as int, kv.len() as int).subrange(
                    1,
                    kv.len() - j,
                ) =~= kv.subrange(j as int + 1, kv.len() as int));
            }
            let ghost before = kv.subrange(j as int, kv.len() as int);
            proof {
                assert(sum_oe(before) == kv[j as int].oe_total + sum_oe(
                    kv.subrange(j as int + 1, kv.len() as int),
                ));
            }
            oe = sat_add64(oe, children[j].oe_total);
            j = j + 1;
        }
        proof {
            assert(kv.subrange(children@.len() as int, kv.len() as int).len() == 0);
        }
        Count { iterations, oc, oe_total: oe, children }
    }
}

/// The decimal digit characters.
pub open spec fn digit(d: nat) -> char {
    if d == 0 {
        '0'
    } else if d == 1 {
        '1'
    } else if d == 2 {
        '2'
    } else if d == 3 {
        '3'
    } else if d == 4 {
        '4'
    } else if d == 5 {
        '5'
    } else if d == 6 {
        '6'
    } else if d == 7 {
        '7'
    } else if d == 8 {
        '8'
    } else {
        '9'
    }
}

/// The decimal digits of a number, most significant first.
pub open spec fn dec_str(n: nat) -> Seq<char>
    decreases n,
{
    if n < 10 {
        seq![digit(n)]
    } else {
        dec_str(n / 10).push(digit(n % 10))
    }
}

/// The decimal digits of a number below 10000, zero-padded to width 4.
pub open spec fn pad4(n: nat) -> Seq<char> {
    if n < 10 {
        seq!['0', '0', '0'] + dec_str(n)
    } else if n < 100 {
        seq!['0', '0'] + dec_str(n)
    } else if n < 1000 {
        seq!['0'] + dec_str(n)
    } else {
        dec_str(n)
    }
}

/// Two spaces of indentation per nesting level.
pub open spec fn ind(level: nat) -> Seq<char>
    decreases level,
{
    if level == 0 {
        Seq::empty()
    } else {
        ind((level - 1) as nat) + seq![' ', ' ']
    }
}

/// A scope's total scaled against the grand total: a percentage with
/// four decimal places carried as an integer in units of 0.0001 percent,
/// rounded to nearest and capped at 999.9999.
pub open spec fn pct_scaled(oe: nat, total: nat) -> nat {
    if total == 0 {
        0
    } else {
        let raw = (oe * 1000000 + total / 2) / total;
        if raw > 9999999 {
            9999999 as nat
        } else {
            raw
        }
    }
}

/// The report line of one non-loop opcode.
pub open spec fn op_line(op: GOp) -> Seq<char> {
    match op {
        GOp::Add(n) => seq!['A', 'd', 'd', '('] + dec_str(n as nat) + seq![')', '\n'],
        GOp::Sub(n) => seq!['S', 'u', 'b', '('] + dec_str(n as nat) + seq![')', '\n'],
        GOp::Left(n) => seq!['L', 'e', 'f', 't', '('] + dec_str(n as nat) + seq![')', '\n'],
        GOp::Right(n) => seq!['R', 'i', 'g', 'h', 't', '('] + dec_str(n as nat) + seq![
            ')',
            '\n',
        ],
        GOp::In => seq!['I', 'n', '\n'],
        GOp::Out => seq!['O', 'u', 't', '\n'],
        GOp::Loop(_) => Seq::empty(),
    }
}

/// The report line of one loop: its accumulated count, its total, and
/// that total's share of the grand total.
pub open spec fn loop_line(k: CntV, total: nat) -> Seq<char> {
    let pct = pct_scaled(k.oe_total, total);
    seq!['L', 'o', 'o', 'p', ' '] + dec_str(k.iterations) + seq![
        ' ',
        'i',
        't',
        'e',
        'r',
        'a',
        't',
        'i',
        'o',
        'n',
        's',
        ' ',
    ] + dec_str(k.oe_total) + seq![' ', 'i', 'n', 's', 't', 'r', ' ', '('] + dec_str(
        pct / 10000,
    ) + seq!['.'] + pad4(pct % 10000) + seq![' ', '%', ' ', 't', 'o', 't', 'a', 'l', ')', '\n']
}

/// The program listing: one line per opcode, loop lines annotated from
/// their counts, loop bodies indented one level deeper. A loop with no
/// paired count prints nothing for itself or its body.
pub open spec fn lines_spec(ops: Seq<GOp>, kids: Seq<CntV>, level: nat, total: nat) -> Seq<
    char,
>
    decreases ops, 0nat,
{
    if ops.len() == 0 {
        Seq::empty()
    } else {
        let rest = ops.subrange(1, ops.len() as int);
        match ops[0] {
            GOp::Loop(b) => if kids.len() > 0 {
                ind(level) + loop_line(kids[0], total) + lines_spec(
                    b,
                    kids[0].kids,
                    level + 1,
                    total,
                ) + lines_spec(rest, kids.subrange(1, kids.len() as int), level, total)
            } else {
                lines_spec(rest, kids, level, total)
            },
            op => ind(level) + op_line(op) + lines_spec(rest, kids, level, total),
        }
    }
}

/// The whole report: the grand total of instructions attributed by the
/// aggregation, then the annotated listing.
pub open spec fn report_spec(ops: Seq<GOp>, rv: RecV) -> Seq<char> {
    let cnt = count_spec(rv, ops);
    let total = sat64((cnt.oc + cnt.oe_total) as int);
    seq![
        'I',
        'n',
        's',
        't',
        'r',
        'u',
        'c',
        't',
        'i',
        'o',
        'n',
        's',
        ' ',
        'e',
        'x',
        'e',
        'c',
        'u',
        't',
        'e',
        'd',
        ':',
        ' ',
    ] + dec_str(total) + seq!['\n'] + lines_spec(ops, cnt.kids, 0, total)
}

/// One decimal digit as text.
fn digit_str(d: u64) -> (s: &'static str)
    requires
        d < 10,
    ensures
        s@ == seq![digit(d as nat)],
{
    proof {
        reveal_strlit("0");
        reveal_strlit("1");
        reveal_strlit("2");
        reveal_strlit("3");
        reveal_strlit("4");
        reveal_strlit("5");
        reveal_strlit("6");
        reveal_strlit("7");
        reveal_strlit("8");
        reveal_strlit("9");
    }
    if d == 0 {
        "0"
    } else if d == 1 {
        "1"
    } else if d == 2 {
        "2"
    } else if d == 3 {
        "3"
    } else if d == 4 {
        "4"
    } else if d == 5 {
        "5"
    } else if d == 6 {
        "6"
    } else if d == 7 {
        "7"
    } else if d == 8 {
        "8"
    } else {
        "9"
    }
}

/// A number in decimal.
fn u64_string(n: u64) -> (s: String)
    ensures
        s@ == dec_str(n as nat),
    decreases n,
{
    if n < 10 {
        let mut s = String::new();
        s.append(digit_str(n));
        s
    } else {
        let mut s = u64_string(n / 10);
        s.append(digit_str(n % 10));
        proof {
            assert(s@ =~= dec_str(n as nat / 10).push(digit(n as nat % 10)));
        }
        s
    }
}

/// A number below 10000 in decimal, zero-padded to width 4.
fn pad4_string(n: u64) -> (s: String)
    requires
        n < 10000,
    ensures
        s@ == pad4(n as nat),
{
    let mut s = String::new();
    proof {
        reveal_strlit("000");
        reveal_strlit("00");
        reveal_strlit("0");
    }
    if n < 10 {
        s.append("000");
    } else if n < 100 {
        s.append("00");
    } else if n < 1000 {
        s.append("0");
    }
    let d = u64_string(n);
    s.append(d.as_str());
    proof {
        assert(s@ =~= pad4(n as nat));
    }
    s
}

/// Two spaces per nesting level.
#[verifier::loop_isolation(false)]
fn indent_string(level: usize) -> (s: String)
    ensures
        s@ == ind(level as nat),
{
    let mut s = String::new();
    let mut j: usize = 0;
    proof {
        reveal_strlit("  ");
        assert(s@ =~= ind(0));
    }
    while j < level
        invariant
            j <= level,
            s@ == ind(j as nat),
        decreases level - j,
    {
        s.append("  ");
        j = j + 1;
        proof {
            assert(s@ =~= ind(j as nat));
        }
    }
    s
}

/// The scaled percentage, as `pct_scaled` describes.
fn pct_value(oe: u64, total: u64) -> (r: u64)
    ensures
        r as nat == pct_scaled(oe as nat, total as nat),
{
    if total == 0 {
        0
    } else {
        let wide: u128 = (oe as u128) * 1000000 + (total as u128) / 2;
        let raw: u128 = wide / (total as u128);
        if raw > 9999999 {
            9999999
        } else {
            raw as u64
        }
    }
}

/// Rendering state for one report: the program, the aggregated counts,
/// and the grand total they attribute.
pub struct PrintContext<'a> {
    pub program: &'a Program,
    pub total: u64,
    pub count: Count,
}

impl<'a> PrintContext<'a> {
    /// Aggregate a profiler's records for rendering.
    pub fn new(profiler: &'a Profiler) -> (ctx: PrintContext<'a>)
        ensures
            ctx.program == &profiler.program,
            cnt_v(ctx.count) == count_spec(
                rec_v(profiler.map),
                ops_view(profiler.program.opcodes@),
            ),
            ctx.total as nat == sat64((cnt_v(ctx.count).oc + cnt_v(ctx.count).oe_total) as int),
    {
        let count = Count::new(&profiler.map, &profiler.program);
        let total = sat_add64(count.oc, count.oe_total);
        PrintContext { program: &profiler.program, total, count }
    }

    /// The whole report: the grand total, then the annotated listing.
    pub fn print(&self) -> (s: String)
        requires
            crate::interpreter::ops_size(self.program.opcodes@) <= usize::MAX,
        ensures
            s@ == seq![
                'I',
                'n',
                's',
                't',
                'r',
                'u',
                'c',
                't',
                'i',
                'o',
                'n',
                's',
                ' ',
                'e',
                'x',
                'e',
                'c',
                'u',
                't',
                'e',
                'd',
                ':',
                ' ',
            ] + dec_str(self.total as nat) + seq!['\n'] + lines_spec(
                ops_view(self.program.opcodes@),
                cnt_v(self.count).kids,
                0,
                self.total as nat,
            ),
    {
        let mut s = String::new();
        proof {
            reveal_strlit("Instructions executed: ");
            reveal_strlit("\n");
        }
        s.append("Instructions executed: ");
        let t = u64_string(self.total);
        s.append(t.as_str());
        s.append("\n");
        let body = self.print_step(0, self.program, &self.count);
        s.append(body.as_str());
        proof {
            assert(s@ =~= seq![
                'I',
                'n',
                's',
                't',
                'r',
                'u',
                'c',
                't',
                'i',
                'o',
                'n',
                's',
                ' ',
                'e',
                'x',
                'e',
                'c',
                'u',
                't',
                'e',
                'd',
                ':',
                ' ',
            ] + dec_str(self.total as nat) + seq!['\n'] + lines_spec(
                ops_view(self.program.opcodes@),
                cnt_v(self.count).kids,
                0,
                self.total as nat,
            ));
        }
        s
    }

    /// The listing of one scope: each opcode on its own line at this
    /// indentation, loops annotated from their paired counts and their
    /// bodies rendered one level deeper.
    #[verifier::loop_isolation(false)]
    #[verifier::rlimit(100)]
    fn print_step(&self, level: usize, program: &Program, count: &Count) -> (s: String)
        requires
            level + crate::interpreter::ops_size(program.opcodes@) <= usize::MAX,
        ensures
            s@ == lines_spec(
                ops_view(program.opcodes@),
                cnt_v(*count).kids,
                level as nat,
                self.total as nat,
            ),
        decreases crate::interpreter::ops_size(program.opcodes@),
    {
        let ghost gops = ops_view(program.opcodes@);
        let ghost kids = cnt_v(*count).kids;
        proof {
            crate::interpreter::lemma_ops_view_index(program.opcodes@);
            lemma_cnts_v_index(count.children@);
            assert(gops.subrange(0, gops.len() as int) =~= gops);
            assert(kids.subrange(0, kids.len() as int) =~= kids);
        }
        let prefix = indent_string(level);
        let mut s = String::new();
        let mut ci: usize = 0;
        let mut k: usize = 0;
        let n = program.opcodes.len();
        while k < n
            invariant
                k <= n,
                ci <= count.children@.len(),
                prefix@ == ind(level as nat),
                lines_spec(gops, kids, level as nat, self.total as nat) =~= s@ + lines_spec(
                    gops.subrange(k as int, gops.len() as int),
                    kids.subrange(ci as int, kids.len() as int),
                    level as nat,
                    self.total as nat,
                ),
            decreases n - k,
        {
            let ghost tail = gops.subrange(k as int, gops.len() as int);
            let ghost ktail = kids.subrange(ci as int, kids.len() as int);
            proof {
                assert(tail[0] == gops[k as int]);
                assert(tail.subrange(1, tail.len() as int) =~= gops.subrange(
                    k as int + 1,
                    gops.len() as int,
                ));
            }
            let ghost s_pre = s@;
            match &program.opcodes[k] {
                Opcode::Loop(body) => {
                    if ci < count.children.len() {
                        proof {
                            assert(ktail[0] == kids[ci as int]);
                            assert(kids[ci as int] == cnt_v(count.children@[ci as int]));
                            assert(ktail.subrange(1, ktail.len() as int) =~= kids.subrange(
                                ci as int + 1,
                                kids.len() as int,
                            ));
                            crate::interpreter::lemma_op_size_element(
                                program.opcodes@,
                                k as int,
                            );
                            assert(level + 1 + crate::interpreter::ops_size(body.opcodes@)
                                <= usize::MAX);
                        }
                        s.append(prefix.as_str());
                        proof {
                            reveal_strlit("Loop ");
                            reveal_strlit(" iterations ");
                            reveal_strlit(" instr (");
                            reveal_strlit(".");
                            reveal_strlit(" % total)\n");
                        }
                        s.append("Loop ");
                        let it = u64_string(count.children[ci].iterations);
                        s.append(it.as_str());
                        s.append(" iterations ");
                        let oe = u64_string(count.children[ci].oe_total);
                        s.append(oe.as_str());
                        s.append(" instr (");
                        let pct = pct_value(count.children[ci].oe_total, self.total);
                        let whole = u64_string(pct / 10000);
                        s.append(whole.as_str());
                        s.append(".");
                        let frac = pad4_string(pct % 10000);
                        s.append(frac.as_str());
                        s.append(" % total)\n");
                        let sub = self.print_step(level + 1, body, &count.children[ci]);
                        s.append(sub.as_str());
                        proof {
                            assert(s@ =~= s_pre + ind(level as nat) + loop_line(
                                kids[ci as int],
                                self.total as nat,
                            ) + lines_spec(
                                ops_view(body.opcodes@),
                                kids[ci as int].kids,
                                level as nat + 1,
                                self.total as nat,
                            ));
                        }
                        ci = ci + 1;
                    } else {
                        proof {
                            assert(ktail.len() == 0);
                        }
                    }
                },
                other => {
                    proof {
                        assert(!(gops[k as int] is Loop));
                    }
                    s.append(prefix.as_str());
                    proof {
                        reveal_strlit("Add(");
                        reveal_strlit("Sub(");
                        reveal_strlit("Left(");
                        reveal_strlit("Right(");
                        reveal_strlit(")\n");
                        reveal_strlit("In\n");
                        reveal_strlit("Out\n");
                    }
                    match other {
                        Opcode::Add(v) => {
                            s.append("Add(");
                            let d = u64_string(*v as u64);
                            s.append(d.as_str());
                            s.append(")\n");
                        },
                        Opcode::Sub(v) => {
                            s.append("Sub(");
                            let d = u64_string(*v as u64);
                            s.append(d.as_str());
                            s.append(")\n");
                        },
                        Opcode::Left(v) => {
                            s.append("Left(");
                            let d = u64_string(*v as u64);
                            s.append(d.as_str());
                            s.append(")\n");
                        },
                        Opcode::Right(v) => {
                            s.append("Right(");
                            let d = u64_string(*v as u64);
                            s.append(d.as_str());
                            s.append(")\n");
                        },
                        Opcode::In => {
                            s.append("In\n");
                        },
                        Opcode::Out => {
                            s.append("Out\n");
                        },
                        Opcode::Loop(_) => {},
                    }
                    proof {
                        assert(s@ =~= s_pre + ind(level as nat) + op_line(gops[k as int]));
                    }
                },
            }
            k = k + 1;
        }
        proof {
            assert(gops.subrange(n as int, gops.len() as int).len() == 0);
            assert(lines_spec(
                gops.subrange(n as int, gops.len() as int),
                kids.subrange(ci as int, kids.len() as int),
                level as nat,
                self.total as nat,
            ) =~= Seq::<char>::empty());
            assert(s@ =~= s@ + Seq::<char>::empty());
        }
        s
    }
}

} // verus!
