use brainrust::interpreter::{Builder, ExecError, Interpreter, IoBuffer, Opcode, Program, Step};

fn parse(src: &str) -> Program {
    let mut b = Builder::new(src.as_bytes().to_vec());
    Program { opcodes: b.parse() }
}

fn run_program(p: &Program, input: Vec<u8>) -> (Interpreter, IoBuffer, Vec<Step>, Result<(), ExecError>) {
    let mut it = Interpreter::new();
    let mut io = IoBuffer { input, cursor: 0, output: Vec::new() };
    let mut events = Vec::new();
    let r = it.exec(p, &mut io, &mut events, u64::MAX);
    (it, io, events, r)
}

fn run(src: &str, input: Vec<u8>) -> (Interpreter, IoBuffer, Vec<Step>, Result<(), ExecError>) {
    run_program(&parse(src), input)
}

#[test]
fn three_increments_write_three() {
    let (it, io, _, r) = run("+++.", vec![]);
    assert!(r.is_ok());
    assert_eq!(io.output, vec![3]);
    assert_eq!(it.stack, vec![3]);
    assert_eq!(it.sp, 0);
}

#[test]
fn clear_loop_writes_zero() {
    let (it, io, events, r) = run("++[-].", vec![]);
    assert!(r.is_ok());
    assert_eq!(io.output, vec![0]);
    assert_eq!(it.ic, 6);
    assert_eq!(events, vec![Step::EnterLoop, Step::LeaveLoop(2)]);
}

#[test]
fn rightward_moves_grow_tape() {
    let (it, io, _, r) = run(">>+<<.", vec![]);
    assert!(r.is_ok());
    assert_eq!(io.output, vec![0]);
    assert_eq!(it.sp, 0);
    assert!(it.stack.len() >= 3);
    assert_eq!(it.stack, vec![0, 0, 1]);
}

#[test]
fn cell_increment_wraps_at_256() {
    let p = Program { opcodes: vec![Opcode::Add(255), Opcode::Add(1)] };
    let (it, _, _, r) = run_program(&p, vec![]);
    assert!(r.is_ok());
    assert_eq!(it.stack[0], 0);
}

#[test]
fn cell_decrement_wraps_at_zero() {
    let p = Program { opcodes: vec![Opcode::Sub(1)] };
    let (it, _, _, r) = run_program(&p, vec![]);
    assert!(r.is_ok());
    assert_eq!(it.stack[0], 255);
}

#[test]
fn left_from_first_cell_underflows() {
    let (it, _, _, r) = run("<", vec![]);
    assert_eq!(r, Err(ExecError::PointerUnderflow));
    assert_eq!(it.sp, 0);
    assert_eq!(it.stack, vec![0]);
    assert_eq!(it.ic, 1);
}

#[test]
fn nonterminating_loop_exhausts_budget() {
    let p = parse("+[]");
    let mut it = Interpreter::new();
    let mut io = IoBuffer { input: vec![], cursor: 0, output: Vec::new() };
    let mut events = Vec::new();
    let r = it.exec(&p, &mut io, &mut events, 3);
    assert_eq!(r, Err(ExecError::ResourceExhausted));
}

#[test]
fn read_byte_stores_input() {
    let (_, io, _, r) = run(",.", vec![65]);
    assert!(r.is_ok());
    assert_eq!(io.output, vec![65]);
    assert_eq!(io.cursor, 1);
}

#[test]
fn read_past_end_of_input_yields_zero() {
    let (_, io, _, r) = run("+,.", vec![]);
    assert!(r.is_ok());
    assert_eq!(io.output, vec![0]);
}

#[test]
fn nested_loops_emit_matched_events() {
    let (it, _, events, r) = run("+[[-]]", vec![]);
    assert!(r.is_ok());
    assert_eq!(it.ic, 4);
    assert_eq!(
        events,
        vec![Step::EnterLoop, Step::EnterLoop, Step::LeaveLoop(1), Step::LeaveLoop(2)]
    );
}

#[test]
fn outermost_leave_totals_match_counter() {
    // The sum carried by leave events of outermost loops equals the final
    // counter minus the static opcode count executed at the top level.
    let (it, _, events, r) = run("++[-].+[[-]]", vec![]);
    assert!(r.is_ok());
    let mut depth = 0i64;
    let mut sum = 0u64;
    for e in &events {
        match e {
            Step::EnterLoop => depth += 1,
            Step::LeaveLoop(c) => {
                if depth == 1 {
                    sum += c;
                }
                depth -= 1;
            }
        }
    }
    let top_level = parse("++[-].+[[-]]").opcodes.len() as u64;
    assert_eq!(sum, it.ic - top_level);
}

#[test]
fn parser_ignores_comments() {
    let p = parse("a+b.c\n");
    assert_eq!(p.opcodes, vec![Opcode::Add(1), Opcode::Out]);
}

#[test]
fn parser_tolerates_unmatched_open() {
    let p = parse("[+");
    assert_eq!(
        p.opcodes,
        vec![Opcode::Loop(Program { opcodes: vec![Opcode::Add(1)] })]
    );
}

#[test]
fn parser_close_ends_sequence() {
    let p = parse("]+");
    assert_eq!(p.opcodes, vec![]);
}

#[test]
fn parser_builds_nested_loops() {
    let p = parse("+[>[-]<]");
    assert_eq!(p.opcodes.len(), 2);
    match &p.opcodes[1] {
        Opcode::Loop(body) => {
            assert_eq!(body.opcodes.len(), 3);
            assert!(matches!(body.opcodes[1], Opcode::Loop(_)));
        }
        other => panic!("expected a loop, got {:?}", other),
    }
}

#[test]
fn size_counts_loops_and_bodies() {
    let p = parse("+[+[+]]");
    assert_eq!(p.size(), 5);
    assert_eq!(p.size_checked(), Some(5));
    assert_eq!(p.opcodes[1].size(), 4);
}

#[test]
fn reduce_fuses_adjacent_increments() {
    let mut p = parse("+++");
    p.reduce();
    assert_eq!(p.opcodes, vec![Opcode::Add(3)]);
}

#[test]
fn reduce_cancels_to_net_zero() {
    let mut p = parse("+++---");
    p.reduce();
    assert_eq!(p.opcodes, vec![Opcode::Add(0)]);
}

#[test]
fn reduce_crosses_zero_with_signed_cancellation() {
    let mut p = parse("+--");
    p.reduce();
    assert_eq!(p.opcodes, vec![Opcode::Sub(1)]);
}

#[test]
fn reduce_keeps_categories_apart() {
    let mut p = parse("++>--");
    p.reduce();
    assert_eq!(
        p.opcodes,
        vec![Opcode::Add(2), Opcode::Right(1), Opcode::Sub(2)]
    );
}

#[test]
fn reduce_fuses_moves() {
    let mut p = parse(">><>>");
    p.reduce();
    assert_eq!(p.opcodes, vec![Opcode::Right(3)]);
}

#[test]
fn reduce_descends_into_loop_bodies() {
    let mut p = parse("[++]");
    p.reduce();
    assert_eq!(
        p.opcodes,
        vec![Opcode::Loop(Program { opcodes: vec![Opcode::Add(2)] })]
    );
}

#[test]
fn reduce_single_pass_has_one_unit_of_lookback() {
    // A loop separates the two increments; a single pass fuses within the
    // stretches around it but never across it.
    let mut p = parse("+[-]+");
    p.reduce();
    assert_eq!(p.opcodes.len(), 3);
    assert_eq!(p.opcodes[0], Opcode::Add(1));
    assert_eq!(p.opcodes[2], Opcode::Add(1));
}

#[test]
fn optimized_program_runs_like_the_original() {
    let src = "++[>+++<-]>.";
    let (it1, io1, _, r1) = run(src, vec![]);
    let mut p = parse(src);
    p.reduce();
    let (it2, io2, _, r2) = run_program(&p, vec![]);
    assert!(r1.is_ok() && r2.is_ok());
    assert_eq!(io1.output, io2.output);
    assert_eq!(io1.output, vec![6]);
    assert_eq!(it1.sp, it2.sp);
    assert_eq!(it1.stack, it2.stack);
}

#[test]
fn reset_restores_fresh_machine() {
    let (mut it, _, _, r) = run("+++>+", vec![]);
    assert!(r.is_ok());
    it.reset();
    assert_eq!(it.stack, vec![0]);
    assert_eq!(it.sp, 0);
    assert_eq!(it.ic, 0);
}

#[test]
fn fusion_overflow_wraps_modulo_256() {
    // The documented fusion policy: cell amounts add modulo 256, matching
    // execution-time cell wraparound.
    let mut p = Program { opcodes: vec![Opcode::Add(200), Opcode::Add(100)] };
    p.reduce();
    assert_eq!(p.opcodes, vec![Opcode::Add(44)]);
    let (it, _, _, r) = run_program(&p, vec![]);
    assert!(r.is_ok());
    assert_eq!(it.stack[0], 44);
    let q = Program { opcodes: vec![Opcode::Add(200), Opcode::Add(100)] };
    let (it2, _, _, r2) = run_program(&q, vec![]);
    assert!(r2.is_ok());
    assert_eq!(it2.stack[0], 44);
}
