use stacklang::collect::collect_functions;
use stacklang::machine::{Action, Machine};
use stacklang::program::{Setting, IP};
use stacklang::semantics::Fault;
use stacklang::value::Value;

/// Runs `src` from its start to the end, reading `input`; returns the printed text and how the
/// run ended.
fn run_program(src: &str, input: &[u8], debug: bool) -> (String, Result<Option<Value>, Fault>) {
    let (functions, global) = collect_functions(src);
    let code = src.as_bytes();
    let setting = Setting { debug };
    let mut m = Machine::new(&global, Vec::new(), IP(0));
    let mut out = String::new();
    let mut pos = 0;
    for _ in 0..100000 {
        let (t, act) = m.step(code, &functions, &global, &setting);
        out.extend(t);
        match act {
            Action::Continue => {}
            Action::ReadByte => {
                assert!(m.awaits_input(code));
                let b = input.get(pos).copied();
                pos += 1;
                match m.input(code, b) {
                    Action::Continue => {}
                    Action::Fail(f) => return (out, Err(f)),
                    _ => unreachable!(),
                }
            }
            Action::Halt(v) => return (out, Ok(v)),
            Action::Fail(f) => return (out, Err(f)),
        }
    }
    panic!("the program did not stop");
}

fn output(src: &str) -> String {
    run_program(src, b"", false).0
}

fn fault(src: &str) -> Fault {
    match run_program(src, b"", false).1 {
        Err(f) => f,
        Ok(_) => panic!("expected a fault"),
    }
}

fn result_text(src: &str) -> Option<String> {
    match run_program(src, b"", false).1 {
        Ok(Some(v)) => Some(v.print_val().iter().collect()),
        Ok(None) => None,
        Err(f) => panic!("unexpected fault {:?}", f),
    }
}

#[test]
fn add_numbers() {
    assert_eq!(output("12 3+n"), "15");
}

#[test]
fn subtract_top_minus_second() {
    assert_eq!(output("5 3-n"), "-2");
}

#[test]
fn multiply_numbers() {
    assert_eq!(output("6 7*n"), "42");
}

#[test]
fn divide_top_by_second() {
    assert_eq!(output("2 7/n"), "3");
    assert_eq!(output("7 2/n"), "0");
}

#[test]
fn divide_rounds_towards_zero() {
    assert_eq!(output("2 7 0-/n"), "-3");
}

#[test]
fn compare_numbers() {
    assert_eq!(output("3 5>n"), "1");
    assert_eq!(output("3 5<n"), "0");
    assert_eq!(output("4 4=n"), "1");
    assert_eq!(output("4 5=n"), "0");
}

#[test]
fn print_character() {
    assert_eq!(output("65o"), "A");
    assert_eq!(output("321o"), "A");
}

#[test]
fn newline_instruction() {
    assert_eq!(output("1ne2n"), "1\n2");
}

#[test]
fn swap_top_two() {
    assert_eq!(output("1 2sn n"), "12");
}

#[test]
fn swap_twice_is_identity() {
    assert_eq!(output("1 2ssn n"), "21");
}

#[test]
fn rotate_three() {
    assert_eq!(output("1 2 3rn n n"), "213");
}

#[test]
fn rotate_thrice_is_identity() {
    assert_eq!(output("1 2 3rrrn n n"), "321");
}

#[test]
fn dup_and_drop() {
    assert_eq!(output("5dn n"), "55");
    assert_eq!(output("1 2tn"), "1");
    assert_eq!(output("1 2dtn n"), "21");
}

#[test]
fn stash_and_unstash() {
    assert_eq!(output("1 2)n(n"), "12");
}

#[test]
fn unstash_all_reverses() {
    assert_eq!(output("1 2 3)))an n n"), "321");
}

#[test]
fn list_append_and_length() {
    assert_eq!(output("l1p2p_n n"), "2[1,2,]");
}

#[test]
fn list_head() {
    assert_eq!(output("l1p2p[n n"), "1[2,]");
}

#[test]
fn list_last() {
    assert_eq!(output("l1p2p]n n"), "2[1,]");
}

#[test]
fn last_undoes_append() {
    assert_eq!(output("l1p5p]n n"), "5[1,]");
}

#[test]
fn list_join_top_first() {
    assert_eq!(output("l1p l2p+n"), "[2,1,]");
}

#[test]
fn list_print_characters() {
    assert_eq!(output("l72p105po"), "[H,i,]");
}

#[test]
fn call_function() {
    assert_eq!(output("1{2 3+}1cn"), "5");
}

#[test]
fn call_keeps_main_stack() {
    assert_eq!(output("1{+}4 5 1cn"), "9");
}

#[test]
fn branch_on_zero_takes_second() {
    assert_eq!(output("1{1n}2{2n}0 1 2b"), "1");
}

#[test]
fn branch_on_nonzero_takes_top() {
    assert_eq!(output("1{1n}2{2n}5 1 2b"), "2");
}

#[test]
fn map_function_over_list() {
    assert_eq!(output("1{2*}l1p2p3p1fn"), "[2,4,6,]");
}

#[test]
fn map_over_empty_list() {
    assert_eq!(output("1{2*}l1fn"), "[]");
}

#[test]
fn map_skips_missing_results() {
    assert_eq!(output("1{t}l1p2p1fn"), "[]");
}

#[test]
fn nested_function_skipped() {
    assert_eq!(output("1{2{}3}4n"), "4");
}

#[test]
fn nested_function_call() {
    assert_eq!(output("1{2{7n}2c}1c"), "7");
}

#[test]
fn unclosed_body_runs_on() {
    assert_eq!(output("1{2n"), "2");
}

#[test]
fn spaces_end_numbers() {
    assert_eq!(output("1 2 n n"), "21");
    assert_eq!(output("12n"), "12");
}

#[test]
fn read_input_byte() {
    let (out, end) = run_program("in", b"A", false);
    assert_eq!(out, "65");
    assert!(matches!(end, Ok(None)));
}

#[test]
fn input_closed_fails() {
    let (_, end) = run_program("in", b"", false);
    assert_eq!(end.unwrap_err(), Fault::StdinClosed(0));
}

#[test]
fn halt_returns_top() {
    assert_eq!(result_text("7"), Some("7".to_string()));
    assert_eq!(result_text(""), None);
}

#[test]
fn closing_outermost_frame_halts() {
    let functions = Vec::new();
    let global = Vec::new();
    let code = b"5}6";
    let setting = Setting::new();
    let mut m = Machine::new(&global, Vec::new(), IP(0));
    let (_, a) = m.step(code, &functions, &global, &setting);
    assert!(matches!(a, Action::Continue));
    let (_, a) = m.step(code, &functions, &global, &setting);
    match a {
        Action::Halt(Some(v)) => assert_eq!(v.print_val().iter().collect::<String>(), "5"),
        _ => panic!("expected the run to end"),
    }
}

#[test]
fn debug_trace_lines() {
    let (out, _) = run_program("1 2", b"", true);
    assert_eq!(out, "eip IP(0). size 0: \neip IP(1). size 1: 1 \neip IP(2). size 1: 1 \n");
}

#[test]
fn fault_too_few_for_swap() {
    assert_eq!(fault("s"), Fault::TooFew { need: 2, at: 0 });
}

#[test]
fn fault_too_few_for_rotate() {
    assert_eq!(fault("1 2r"), Fault::TooFew { need: 3, at: 3 });
}

#[test]
fn fault_empty_dup() {
    assert_eq!(fault("d"), Fault::Empty);
}

#[test]
fn fault_stack_empty() {
    assert_eq!(fault(")"), Fault::StackEmpty);
    assert_eq!(fault("("), Fault::StackEmpty);
}

#[test]
fn fault_empty_print() {
    assert_eq!(fault("n"), Fault::EmptyAt(0));
    assert_eq!(fault(" o"), Fault::EmptyAt(1));
}

#[test]
fn fault_divide_by_zero() {
    assert_eq!(fault("0 1/"), Fault::DivideByZero);
}

#[test]
fn fault_overflow() {
    assert_eq!(fault("9223372036854775807 1+"), Fault::Overflow);
    assert_eq!(fault("99999999999999999999"), Fault::Overflow);
}

#[test]
fn fault_list_operator() {
    assert_eq!(fault("l l-"), Fault::ListOp { op: b'-', at: 3 });
}

#[test]
fn fault_type_mismatch() {
    assert_eq!(fault("l1+"), Fault::TypeMismatch);
}

#[test]
fn fault_not_in_scope() {
    assert_eq!(fault("5c"), Fault::NotInScope { op: b'c', name: 5, at: 1 });
    assert_eq!(fault("l5f"), Fault::NotInScope { op: b'f', name: 5, at: 2 });
}

#[test]
fn fault_list_call() {
    assert_eq!(fault("lc"), Fault::ListCall(1));
}

#[test]
fn fault_list_empty() {
    assert_eq!(fault("l["), Fault::ListEmpty);
    assert_eq!(fault("l]"), Fault::ListEmpty);
}

#[test]
fn fault_not_a_list() {
    assert_eq!(fault("1["), Fault::NotAList);
    assert_eq!(fault("_"), Fault::NotAList);
}

#[test]
fn fault_append_needs_list() {
    assert_eq!(fault("1 2p"), Fault::TooFew { need: 2, at: 3 });
}

#[test]
fn fault_branch_needs_three_numbers() {
    assert_eq!(fault("1 2b"), Fault::TooFew { need: 3, at: 3 });
}

#[test]
fn fault_map_needs_list() {
    assert_eq!(fault("1 2f"), Fault::TooFew { need: 2, at: 3 });
}
