use stacklang::collect::collect_functions;
use stacklang::machine::{Action, Machine};
use stacklang::program::{initialize, to_v, FuncName, Function, Setting, ID, IP};
use stacklang::semantics::Fault;
use stacklang::syntax::{code_check, counters_fit, SyntaxError};
use stacklang::value::Value;

fn text(v: Vec<char>) -> String {
    v.iter().collect()
}

#[test]
fn print_val_integers() {
    assert_eq!(text(Value::Int(0).print_val()), "0");
    assert_eq!(text(Value::Int(-42).print_val()), "-42");
    assert_eq!(text(Value::Int(i64::MIN).print_val()), "-9223372036854775808");
    assert_eq!(text(Value::Int(i64::MAX).print_val()), "9223372036854775807");
}

#[test]
fn print_characters_low_byte() {
    assert_eq!(text(Value::Int(65).print()), "A");
    assert_eq!(text(Value::Int(-191).print()), "A");
    assert_eq!(text(Value::Int(256 + 97).print()), "a");
    assert_eq!(text(Value::Int(200).print()), "\u{c8}");
}

#[test]
fn print_lists() {
    let v = Value::List(vec![Value::Int(1), Value::List(vec![Value::Int(2)]), Value::List(vec![])]);
    assert_eq!(text(v.print_val()), "[1,[2,],[],]");
    let w = Value::List(vec![Value::Int(72), Value::Int(105)]);
    assert_eq!(text(w.print()), "[H,i,]");
}

#[test]
fn clone_is_deep() {
    let v = Value::List(vec![Value::Int(1), Value::List(vec![Value::Int(2)])]);
    let w = v.clone();
    assert_eq!(text(w.print_val()), "[1,[2,],]");
    drop(v);
    assert_eq!(text(w.print_val()), "[1,[2,],]");
}

#[test]
fn ip_next_and_index() {
    let mut ip = IP(41);
    ip.next();
    assert_eq!(ip.0, 42);
    assert_eq!(ip.to_usize(), 42);
}

#[test]
fn setting_default() {
    assert!(!Setting::new().debug);
    initialize();
}

#[test]
fn digit_values() {
    assert_eq!(to_v('0'), 0);
    assert_eq!(to_v('7'), 7);
    assert_eq!(to_v('9'), 9);
}

#[test]
fn function_new_keeps_parts() {
    let f = Function::new(vec![(ID(1), ID(0))], IP(3), FuncName(1), ID(0));
    assert_eq!(f.env, vec![(ID(1), ID(0))]);
    assert_eq!(f.ip.0, 3);
    assert_eq!(f.name.0, 1);
    assert_eq!(f.id, ID(0));
}

#[test]
fn search_latest_binding_wins() {
    let fs = vec![(ID(1), ID(0)), (ID(2), ID(1)), (ID(1), ID(2))];
    assert_eq!(Function::search_by_id(&fs, &ID(1)), Some(ID(2)));
    assert_eq!(Function::search_by_id(&fs, &ID(2)), Some(ID(1)));
    assert_eq!(Function::search_by_id(&fs, &ID(3)), None);
    assert_eq!(Function::search_by_id(&vec![], &ID(0)), None);
}

#[test]
fn check_balanced_named() {
    assert_eq!(code_check("1{}"), (true, vec![]));
    assert_eq!(code_check("1{2{}}3{}"), (true, vec![]));
}

#[test]
fn check_unnamed_function() {
    assert_eq!(code_check("{}"), (true, vec![SyntaxError::Unnamed(0)]));
    assert_eq!(code_check("1{ {}}"), (true, vec![SyntaxError::Unnamed(3)]));
}

#[test]
fn check_name_survives_closing_brace() {
    assert_eq!(code_check("1{5}{}"), (true, vec![]));
}

#[test]
fn check_illegal_close_stops() {
    assert_eq!(code_check("}"), (false, vec![SyntaxError::IllegalClose(0)]));
    assert_eq!(code_check("1{}}{"), (false, vec![SyntaxError::IllegalClose(3)]));
}

#[test]
fn check_unclosed() {
    assert_eq!(code_check("1{"), (false, vec![SyntaxError::Unclosed]));
    assert_eq!(code_check("{"), (false, vec![SyntaxError::Unnamed(0), SyntaxError::Unclosed]));
}

#[test]
fn check_counts_characters_not_bytes() {
    assert_eq!(code_check("é{}"), (true, vec![SyntaxError::Unnamed(1)]));
}

#[test]
fn counters_fit_limits() {
    assert!(counters_fit("4294967295{}"));
    assert!(!counters_fit("4294967296{}"));
    assert!(counters_fit("}99999999999"));
    assert!(counters_fit(""));
}

#[test]
fn collect_nested_functions() {
    let (fs, global) = collect_functions("1{2{}}3{}");
    assert_eq!(fs.len(), 3);
    assert_eq!((fs[0].ip.0, fs[0].name.0, fs[0].id), (1, 1, ID(0)));
    assert_eq!((fs[1].ip.0, fs[1].name.0, fs[1].id), (3, 2, ID(1)));
    assert_eq!((fs[2].ip.0, fs[2].name.0, fs[2].id), (7, 3, ID(2)));
    assert_eq!(fs[0].env, vec![(ID(1), ID(0)), (ID(2), ID(1))]);
    assert_eq!(fs[1].env, vec![(ID(1), ID(0)), (ID(2), ID(1))]);
    assert_eq!(fs[2].env, vec![(ID(1), ID(0)), (ID(3), ID(2))]);
    assert_eq!(global, vec![(ID(1), ID(0)), (ID(3), ID(2))]);
}

#[test]
fn collect_unclosed_returns_inner_level() {
    let (fs, global) = collect_functions("1{2{");
    assert_eq!(fs.len(), 2);
    assert_eq!(global, vec![]);
}

#[test]
fn collect_positions_count_characters() {
    let (fs, _) = collect_functions("é1{}");
    assert_eq!(fs[0].ip.0, 2);
}

#[test]
fn missing_function_fault() {
    let functions: Vec<Function> = vec![];
    let global = vec![(ID(4), ID(9))];
    let code = b"4c";
    let setting = Setting::new();
    let mut m = Machine::new(&global, Vec::new(), IP(0));
    let (_, a) = m.step(code, &functions, &global, &setting);
    assert!(matches!(a, Action::Continue));
    let (_, a) = m.step(code, &functions, &global, &setting);
    match a {
        Action::Fail(f) => assert_eq!(f, Fault::NoSuchFunction { op: b'c', at: 1 }),
        _ => panic!("expected a fault"),
    }
}

#[test]
fn machine_runs_from_entry_point() {
    let functions: Vec<Function> = vec![];
    let global = vec![];
    let code = b"1 2+";
    let setting = Setting::new();
    let mut m = Machine::new(&global, vec![Value::Int(10)], IP(2));
    loop {
        let (_, a) = m.step(code, &functions, &global, &setting);
        match a {
            Action::Continue => {}
            Action::Halt(Some(v)) => {
                assert_eq!(text(v.print_val()), "12");
                break;
            }
            _ => panic!("unexpected end"),
        }
    }
}
