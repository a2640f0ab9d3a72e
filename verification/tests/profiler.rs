use brainrust::interpreter::{Builder, Interpreter, IoBuffer, Program, Step};
use brainrust::profiler::{Count, PrintContext, Profiler, ProfileError, Record};

fn parse(src: &str) -> Program {
    let mut b = Builder::new(src.as_bytes().to_vec());
    Program { opcodes: b.parse() }
}

fn profile(src: &str, input: Vec<u8>) -> Profiler {
    let p = parse(src);
    let mut it = Interpreter::new();
    let mut io = IoBuffer { input, cursor: 0, output: Vec::new() };
    let mut events = Vec::new();
    let r = it.exec(&p, &mut io, &mut events, u64::MAX);
    assert!(r.is_ok());
    let mut profiler = Profiler::new(parse(src));
    for e in events {
        profiler.step(e).expect("events from one run stay in step");
    }
    profiler
}

#[test]
fn record_tree_mirrors_loop_nesting() {
    let r = Record::new(&parse("+[>[-]<][.]"));
    assert_eq!(r.count, 0);
    assert_eq!(r.state, None);
    assert_eq!(r.children.len(), 2);
    assert_eq!(r.children[0].children.len(), 1);
    assert_eq!(r.children[1].children.len(), 0);
}

#[test]
fn clear_loop_profiles_two_iterations() {
    let profiler = profile("++[-].", vec![]);
    let count = Count::new(&profiler.map, profiler.program());
    assert_eq!(count.children.len(), 1);
    assert_eq!(count.children[0].iterations, 2);
    assert_eq!(count.children[0].oe_total, 2);
    assert_eq!(count.children[0].oc, 1);
}

#[test]
fn clear_loop_report_text() {
    let profiler = profile("++[-].", vec![]);
    let report = profiler.print();
    assert_eq!(
        report,
        "Instructions executed: 6\n\
         Add(1)\n\
         Add(1)\n\
         Loop 2 iterations 2 instr (33.3333 % total)\n\
         \u{20} Sub(1)\n\
         Out\n"
    );
}

#[test]
fn nested_loops_attribute_counts_inward() {
    let profiler = profile("+[[-]]", vec![]);
    assert_eq!(profiler.map.children[0].count, 2);
    assert_eq!(profiler.map.children[0].children[0].count, 1);
    let count = Count::new(&profiler.map, profiler.program());
    assert_eq!(count.children[0].children[0].oe_total, 1);
    assert_eq!(count.children[0].oe_total, 3);
}

#[test]
fn stray_leave_is_a_synchronization_fault() {
    let mut profiler = Profiler::new(parse("+[-]"));
    let r = profiler.step(Step::LeaveLoop(5));
    assert_eq!(r, Err(ProfileError::SynchronizationFault));
    assert_eq!(profiler.map.count, 0);
    assert_eq!(profiler.map.state, None);
}

#[test]
fn enter_descends_and_leave_retracts() {
    let mut r = Record::new(&parse("[][]"));
    r.enter();
    assert_eq!(r.state, Some(0));
    assert_eq!(r.get().count, 0);
    r.leave();
    assert_eq!(r.state, Some(1));
    r.enter();
    r.leave();
    assert_eq!(r.state, None);
}

#[test]
fn add_at_cursor_reaches_the_open_record() {
    let mut r = Record::new(&parse("[[]]"));
    r.enter();
    r.enter();
    r.add_at_cursor(7);
    assert_eq!(r.children[0].children[0].count, 7);
    assert_eq!(r.children[0].count, 0);
}

#[test]
fn zero_iteration_loop_reports_zero() {
    let profiler = profile("[-].", vec![]);
    let count = Count::new(&profiler.map, profiler.program());
    assert_eq!(count.children[0].iterations, 0);
    assert_eq!(count.children[0].oe_total, 0);
}

#[test]
fn print_context_totals_include_top_level() {
    let profiler = profile("++[-].", vec![]);
    let ctx = PrintContext::new(&profiler);
    assert_eq!(ctx.total, 6);
    assert_eq!(ctx.count.oc, 4);
    assert_eq!(ctx.count.oe_total, 2);
}

#[test]
fn empty_program_report_is_only_the_total() {
    let profiler = profile("", vec![]);
    let report = profiler.print();
    assert_eq!(report, "Instructions executed: 0\n");
}
