use luar::bytecode::ByteCode;
use luar::lex::Lex;
use luar::lualib::auxlib::{ipairs, ipairs_aux};
use luar::lualib::baselib::{lua_print, lua_type};
use luar::number::Decimal;
use luar::parse::ParseProto;
use luar::table::Table;
use luar::value::{Native, Value};
use luar::vm::{Fault, FaultKind, LuaState};

fn s(text: &str) -> Value {
    Value::String(text.as_bytes().to_vec())
}

fn run(src: &str) -> (Result<i32, Fault>, String) {
    let proto = ParseProto::load(src.as_bytes().to_vec()).unwrap();
    let mut state = LuaState::new();
    let r = state.run(&proto, 0, 0, 0);
    (r, String::from_utf8(state.output).unwrap())
}

fn program(constants: Vec<Value>, byte_codes: Vec<ByteCode>) -> ParseProto {
    ParseProto { constants, byte_codes, locals: vec![], lex: Lex::new(vec![]) }
}

#[test]
fn hello() {
    assert_eq!(run("print \"hello, world!\""), (Ok(0), String::from("hello, world!\n")));
    assert_eq!(
        run("print \"hello\"\nprint \"hello\"\nprint \"hello\"\n"),
        (Ok(0), String::from("hello\nhello\nhello\n"))
    );
}

#[test]
fn an_empty_program_does_nothing() {
    assert_eq!(run(""), (Ok(0), String::new()));
}

#[test]
fn locals_are_printed_with_a_tab_between_them() {
    assert_eq!(
        run("local a = 1; local b = 2.5; print(a, b)"),
        (Ok(0), String::from("1\t2.5\n"))
    );
}

#[test]
fn print_without_arguments_writes_an_empty_line() {
    assert_eq!(run("print()"), (Ok(0), String::from("\n")));
}

#[test]
fn each_kind_of_literal_is_printed() {
    assert_eq!(
        run("print(nil, true, false, 123, 100000, 1.0, 0.25, \"a\\tb\", print)"),
        (Ok(0), String::from("nil\ttrue\tfalse\t123\t100000\t1.0\t0.25\ta\tb\tfunction: print\n"))
    );
}

#[test]
fn a_global_that_was_never_set_is_nil() {
    assert_eq!(run("print(undefined_name)"), (Ok(0), String::from("nil\n")));
    assert_eq!(run("local a = undefined_name print(a)"), (Ok(0), String::from("nil\n")));
    assert_eq!(run("g = undefined_name print(g)"), (Ok(0), String::from("nil\n")));
}

#[test]
fn a_later_declaration_is_the_one_that_is_read() {
    assert_eq!(run("local x = 1; local x = 2; print(x)"), (Ok(0), String::from("2\n")));
    assert_eq!(run("local x = 1; local y = x; local x = 'z'; print(x, y)"), (Ok(0), String::from("z\t1\n")));
}

#[test]
fn assignments() {
    let src = "local a = 456\na = 123\nprint(a)\ng = 123\nprint(g)\ng = a\nprint(g)\ng = g2\nprint(g)\ng2 = 'two'\ng = g2\nprint(g)\na = g\nprint(a)\ng = nil\nprint(g, a)";
    assert_eq!(run(src), (Ok(0), String::from("123\n123\n123\nnil\ntwo\ntwo\nnil\ttwo\n")));
}

#[test]
fn print_can_be_given_another_name_and_another_value() {
    assert_eq!(run("local p = print p('x') say = print say 'y'"), (Ok(0), String::from("x\ny\n")));
    let (r, out) = run("print 'a' print = 5 print 'b'");
    assert_eq!(out, "a\n");
    assert_eq!(r, Err(Fault { pc: 6, code: ByteCode::Call(0, 1), kind: FaultKind::TypeMismatch }));
}

#[test]
fn a_call_of_what_is_no_function_is_a_fault() {
    let (r, out) = run("local f = 5; f()");
    assert_eq!(out, "");
    assert_eq!(r, Err(Fault { pc: 2, code: ByteCode::Call(1, 0), kind: FaultKind::TypeMismatch }));

    let (r, out) = run("print('before') local f = 5; f() print('after')");
    assert_eq!(out, "before\n");
    assert_eq!(r, Err(Fault { pc: 5, code: ByteCode::Call(1, 0), kind: FaultKind::TypeMismatch }));

    let (r, out) = run("undefined_function(1)");
    assert_eq!(out, "");
    assert_eq!(r, Err(Fault { pc: 2, code: ByteCode::Call(0, 1), kind: FaultKind::TypeMismatch }));
}

#[test]
fn a_call_leaves_no_register_above_the_locals() {
    let proto = ParseProto::load(b"local a = 1 print(a, 2, 3) print(4)".to_vec()).unwrap();
    let mut state = LuaState::new();
    assert_eq!(state.run(&proto, 0, 0, 0), Ok(0));
    assert_eq!(state.stack, vec![Value::Integer(1)]);
    assert_eq!(state.func_index, 1);
    assert_eq!(state.output, b"1\t2\t3\n4\n".to_vec());
}

#[test]
fn a_write_above_the_top_of_the_stack_is_a_fault() {
    let proto = program(vec![], vec![ByteCode::LoadNil(0), ByteCode::LoadNil(2)]);
    let mut state = LuaState::new();
    assert_eq!(
        state.run(&proto, 0, 0, 0),
        Err(Fault { pc: 1, code: ByteCode::LoadNil(2), kind: FaultKind::RegisterOutOfRange })
    );
    assert_eq!(state.stack, vec![Value::Nil]);
}

#[test]
fn set_stack_appends_at_the_top_and_overwrites_below() {
    let mut state = LuaState::new();
    assert_eq!(state.set_stack(0, Value::Integer(1)), Ok(()));
    assert_eq!(state.set_stack(1, Value::Integer(2)), Ok(()));
    assert_eq!(state.set_stack(0, Value::Integer(3)), Ok(()));
    assert_eq!(state.stack, vec![Value::Integer(3), Value::Integer(2)]);
    assert_eq!(state.set_stack(3, Value::Integer(4)), Err(FaultKind::RegisterOutOfRange));
    assert_eq!(state.stack, vec![Value::Integer(3), Value::Integer(2)]);
    assert_eq!(state.set_stack(2, Value::Integer(4)), Ok(()));
    assert_eq!(state.stack, vec![Value::Integer(3), Value::Integer(2), Value::Integer(4)]);
}

#[test]
fn reads_out_of_range_are_faults() {
    let mut state = LuaState::new();
    let proto = program(vec![s("g")], vec![ByteCode::Move(0, 0)]);
    assert_eq!(
        state.run(&proto, 0, 0, 0),
        Err(Fault { pc: 0, code: ByteCode::Move(0, 0), kind: FaultKind::RegisterOutOfRange })
    );
    let proto = program(vec![s("g")], vec![ByteCode::LoadConst(0, 1)]);
    assert_eq!(
        state.run(&proto, 0, 0, 0),
        Err(Fault { pc: 0, code: ByteCode::LoadConst(0, 1), kind: FaultKind::BadConstant })
    );
    let proto = program(vec![s("g")], vec![ByteCode::GetGlobal(0, 7)]);
    assert_eq!(
        state.run(&proto, 0, 0, 0),
        Err(Fault { pc: 0, code: ByteCode::GetGlobal(0, 7), kind: FaultKind::BadConstant })
    );
    let proto = program(vec![s("g")], vec![ByteCode::SetGlobal(0, 0)]);
    assert_eq!(
        state.run(&proto, 0, 0, 0),
        Err(Fault { pc: 0, code: ByteCode::SetGlobal(0, 0), kind: FaultKind::RegisterOutOfRange })
    );
    let proto = program(vec![s("g")], vec![ByteCode::SetGlobalConst(0, 1)]);
    assert_eq!(
        state.run(&proto, 0, 0, 0),
        Err(Fault { pc: 0, code: ByteCode::SetGlobalConst(0, 1), kind: FaultKind::BadConstant })
    );
    let proto = program(vec![s("g")], vec![ByteCode::SetGlobalGlobal(0, 1)]);
    assert_eq!(
        state.run(&proto, 0, 0, 0),
        Err(Fault { pc: 0, code: ByteCode::SetGlobalGlobal(0, 1), kind: FaultKind::BadConstant })
    );
    let proto = program(vec![], vec![ByteCode::LoadNil(0), ByteCode::Call(0, 1)]);
    assert_eq!(
        state.run(&proto, 0, 0, 0),
        Err(Fault { pc: 1, code: ByteCode::Call(0, 1), kind: FaultKind::RegisterOutOfRange })
    );
    assert_eq!(state.output, vec![]);
}

#[test]
fn the_name_of_a_global_must_be_a_string() {
    let mut state = LuaState::new();
    let proto = program(vec![Value::Integer(1)], vec![ByteCode::GetGlobal(0, 0)]);
    assert_eq!(
        state.run(&proto, 0, 0, 0),
        Err(Fault { pc: 0, code: ByteCode::GetGlobal(0, 0), kind: FaultKind::BadConstant })
    );
    let proto = program(vec![Value::Nil, s("g")], vec![ByteCode::SetGlobalConst(0, 1)]);
    assert_eq!(
        state.run(&proto, 0, 0, 0),
        Err(Fault { pc: 0, code: ByteCode::SetGlobalConst(0, 1), kind: FaultKind::BadConstant })
    );
    let proto = program(vec![s("g"), Value::Nil], vec![ByteCode::SetGlobalGlobal(0, 1)]);
    assert_eq!(
        state.run(&proto, 0, 0, 0),
        Err(Fault { pc: 0, code: ByteCode::SetGlobalGlobal(0, 1), kind: FaultKind::BadConstant })
    );
}

#[test]
fn a_new_state_knows_print_only() {
    let state = LuaState::new();
    assert_eq!(state.global(&b"print".to_vec()), Value::Function(Native::Print));
    assert_eq!(state.global(&b"type".to_vec()), Value::Nil);
    assert_eq!(state.stack, vec![]);
    assert_eq!(state.output, vec![]);
    assert_eq!(state.func_index, 0);
}

#[test]
fn globals_set_before_the_run_are_seen_by_the_program() {
    let proto = ParseProto::load(b"print(answer, say) say 'hi' answer = 1".to_vec()).unwrap();
    let mut state = LuaState::new();
    state.set_global(b"answer".to_vec(), Value::Integer(-42));
    state.set_global(b"say".to_vec(), Value::Function(Native::Print));
    assert_eq!(state.run(&proto, 0, 0, 0), Ok(0));
    assert_eq!(state.output, b"-42\tfunction: print\nhi\n".to_vec());
    assert_eq!(state.global(&b"answer".to_vec()), Value::Integer(1));
    state.set_global(b"answer".to_vec(), Value::Nil);
    assert_eq!(state.global(&b"answer".to_vec()), Value::Nil);
    assert_eq!(state.global(&b"say".to_vec()), Value::Function(Native::Print));
}

#[test]
fn the_state_goes_on_from_run_to_run() {
    let mut state = LuaState::new();
    let first = ParseProto::load(b"g = 'kept' print(g)".to_vec()).unwrap();
    let second = ParseProto::load(b"print(g)".to_vec()).unwrap();
    assert_eq!(state.run(&first, 0, 0, 0), Ok(0));
    assert_eq!(state.run(&second, 0, 0, 0), Ok(0));
    assert_eq!(state.output, b"kept\nkept\n".to_vec());
}

fn table_of(items: Vec<Value>) -> Table {
    let mut t = Table::new();
    t.append(items);
    t
}

fn called(args: Vec<Value>) -> LuaState {
    let mut state = LuaState::new();
    state.push(Value::Nil);
    state.push(Value::Function(Native::Print));
    state.func_index = 1;
    for a in args {
        state.push(a);
    }
    state
}

#[test]
fn the_arguments_are_the_registers_above_the_function() {
    let state = called(vec![Value::Integer(7), s("x")]);
    assert_eq!(state.get_top(), 2);
    assert_eq!(state.get(1), &Value::Integer(7));
    assert_eq!(state.get(2), &s("x"));
    assert_eq!(called(vec![]).get_top(), 0);
    let mut state = LuaState::new();
    assert_eq!(state.get_top(), 0);
    state.func_index = 5;
    assert_eq!(state.get_top(), 0);
}

#[test]
fn print_writes_its_arguments() {
    let mut state = called(vec![Value::Integer(7), s("x"), Value::Nil]);
    assert_eq!(lua_print(&mut state), 0);
    assert_eq!(state.output, b"7\tx\tnil\n".to_vec());
    assert_eq!(state.stack.len(), 5);
    assert_eq!(lua_print(&mut state), 0);
    assert_eq!(state.output, b"7\tx\tnil\n7\tx\tnil\n".to_vec());
}

#[test]
fn type_pushes_the_name_of_the_type() {
    let mut state = called(vec![Value::Float(Decimal::new(1, 5, 1)), Value::Nil]);
    assert_eq!(lua_type(&mut state), Ok(1));
    assert_eq!(state.stack.len(), 5);
    assert_eq!(state.stack[4], s("number"));
    let mut state = called(vec![s("number")]);
    assert_eq!(lua_type(&mut state), Ok(1));
    assert_eq!(state.stack[3], s("string"));
    let mut state = called(vec![]);
    assert_eq!(lua_type(&mut state), Err(FaultKind::TypeMismatch));
    assert_eq!(state.stack.len(), 2);
}

#[test]
fn type_can_be_called_by_a_program() {
    let proto = ParseProto::load(b"type(1) type('x', 2) print('done')".to_vec()).unwrap();
    let mut state = LuaState::new();
    state.set_global(b"type".to_vec(), Value::Function(Native::Type));
    assert_eq!(state.run(&proto, 0, 0, 0), Ok(0));
    assert_eq!(state.stack, vec![]);
    assert_eq!(state.output, b"done\n".to_vec());

    let proto = ParseProto::load(b"print('a') type() print('b')".to_vec()).unwrap();
    let mut state = LuaState::new();
    state.set_global(b"type".to_vec(), Value::Function(Native::Type));
    assert_eq!(
        state.run(&proto, 0, 0, 0),
        Err(Fault { pc: 4, code: ByteCode::Call(0, 0), kind: FaultKind::TypeMismatch })
    );
    assert_eq!(state.output, b"a\n".to_vec());
}

#[test]
fn ipairs_pushes_the_three_values_of_the_loop() {
    let mut state = called(vec![]);
    let t = state.new_table(table_of(vec![Value::Integer(10), Value::Integer(20), Value::Integer(30)]));
    assert_eq!(t, Value::Table(0));
    state.push(t);
    assert_eq!(ipairs(&mut state), Ok(3));
    assert_eq!(
        state.stack[3..].to_vec(),
        vec![Value::Function(Native::IpairsAux), Value::Table(0), Value::Integer(0)]
    );
    let mut state = called(vec![]);
    assert_eq!(ipairs(&mut state), Err(FaultKind::TypeMismatch));
}

#[test]
fn the_step_of_ipairs_goes_through_the_array_part() {
    let items = vec![Value::Integer(10), s("twenty"), Value::Nil];
    for i in 0..3 {
        let mut state = called(vec![]);
        let t = state.new_table(table_of(items.clone()));
        state.push(t);
        state.push(Value::Integer(i));
        assert_eq!(ipairs_aux(&mut state), Ok(2));
        assert_eq!(state.stack.len(), 6);
        assert_eq!(state.stack[4], Value::Integer(i + 1));
        assert_eq!(state.stack[5], items[i as usize]);
    }
    for i in [3, 4, -1, i64::MAX, i64::MIN] {
        let mut state = called(vec![]);
        let t = state.new_table(table_of(items.clone()));
        state.push(t);
        state.push(Value::Integer(i));
        assert_eq!(ipairs_aux(&mut state), Ok(0));
        assert_eq!(state.stack.len(), 4);
    }
}

#[test]
fn the_step_of_ipairs_wants_a_table_and_an_integer() {
    let mut state = called(vec![]);
    assert_eq!(ipairs_aux(&mut state), Err(FaultKind::TypeMismatch));
    let mut state = called(vec![Value::Integer(1), Value::Integer(0)]);
    assert_eq!(ipairs_aux(&mut state), Err(FaultKind::TypeMismatch));
    let mut state = called(vec![Value::Table(0), Value::Integer(0)]);
    assert_eq!(ipairs_aux(&mut state), Err(FaultKind::TypeMismatch));
    let mut state = called(vec![]);
    let t = state.new_table(table_of(vec![Value::Integer(10)]));
    state.push(t);
    assert_eq!(ipairs_aux(&mut state), Err(FaultKind::TypeMismatch));
    state.push(s("0"));
    assert_eq!(ipairs_aux(&mut state), Err(FaultKind::TypeMismatch));
    assert_eq!(state.stack.len(), 4);
}

#[test]
fn every_copy_of_a_table_value_names_the_same_table() {
    let mut state = LuaState::new();
    let t = state.new_table(table_of(vec![Value::Integer(10), Value::Integer(20), Value::Integer(30)]));
    let u = state.new_table(Table::new());
    assert_eq!(t, Value::Table(0));
    assert_eq!(u, Value::Table(1));
    assert_eq!(t.clone(), t);
    assert_ne!(t, u);
    state.set_global(b"t".to_vec(), t.clone());
    let proto = ParseProto::load(b"local a = t print(a, t) u = a print(u)".to_vec()).unwrap();
    assert_eq!(state.run(&proto, 0, 0, 0), Ok(0));
    assert_eq!(state.output, b"table: 0\ttable: 0\ntable: 0\n".to_vec());
    assert_eq!(state.global(&b"u".to_vec()), t);
}

#[test]
fn the_faults_of_compiled_programs_are_faults_of_type() {
    let programs = [
        "local f = 5; f()",
        "undefined()",
        "local t = {} t.x.y = 1",
        "local t = {1, 2, 3} t[1][2] = 3",
        "local t = {[nil] = 1}",
        "print(1, 2, 3) print.x = 1",
        "local a = {print, {print}} a[2][1](a[1]) a[1][1]()",
        "g = {} g.f = print g.f(g) g.f.h()",
        "local a = 'x' local b = a.b",
    ];
    for src in programs {
        let proto = ParseProto::load(src.as_bytes().to_vec()).unwrap();
        let mut state = LuaState::new();
        match state.run(&proto, 0, 0, 0) {
            Err(fault) => assert_eq!(fault.kind, FaultKind::TypeMismatch),
            Ok(_) => panic!("the program ran to its end: {}", src),
        }
    }
}

#[test]
fn execute_runs_one_instruction() {
    let proto = program(vec![s("g"), Value::Integer(5)], vec![]);
    let mut state = LuaState::new();
    assert_eq!(state.execute(&proto, ByteCode::LoadConst(0, 1)), Ok(()));
    assert_eq!(state.execute(&proto, ByteCode::SetGlobal(0, 0)), Ok(()));
    assert_eq!(state.execute(&proto, ByteCode::LoadBool(1, true)), Ok(()));
    assert_eq!(state.execute(&proto, ByteCode::Move(0, 1)), Ok(()));
    assert_eq!(state.execute(&proto, ByteCode::GetGlobal(1, 0)), Ok(()));
    assert_eq!(state.stack, vec![Value::Boolean(true), Value::Integer(5)]);
    assert_eq!(state.execute(&proto, ByteCode::SetGlobalGlobal(0, 0)), Ok(()));
    assert_eq!(state.execute(&proto, ByteCode::SetGlobalConst(0, 0)), Ok(()));
    assert_eq!(state.global(&b"g".to_vec()), s("g"));
    assert_eq!(state.execute(&proto, ByteCode::LoadInt(3, 1)), Err(FaultKind::RegisterOutOfRange));
    assert_eq!(state.execute(&proto, ByteCode::Call(0, 1)), Err(FaultKind::TypeMismatch));
    assert_eq!(state.stack, vec![Value::Boolean(true), Value::Integer(5)]);
}

fn run_with_library(src: &str) -> (Result<i32, Fault>, String) {
    let proto = ParseProto::load(src.as_bytes().to_vec()).unwrap();
    let mut state = LuaState::new();
    state.set_global(b"type".to_vec(), Value::Function(Native::Type));
    state.set_global(b"ipairs".to_vec(), Value::Function(Native::Ipairs));
    let r = state.run(&proto, 0, 0, 0);
    (r, String::from_utf8(state.output).unwrap())
}

#[test]
fn the_result_of_a_call_is_a_value() {
    assert_eq!(
        run_with_library("print(type(nil), type(true), type(1), type(1.5), type('s'), type(print), type({}))"),
        (Ok(0), String::from("nil\tboolean\tnumber\tnumber\tstring\tfunction\ttable\n"))
    );
    assert_eq!(run_with_library("local t = type(print) print(t)"), (Ok(0), String::from("function\n")));
    assert_eq!(run_with_library("g = type 'text' print(g)"), (Ok(0), String::from("string\n")));
    assert_eq!(run_with_library("local a = 1 a = type(a) print(a)"), (Ok(0), String::from("number\n")));
    assert_eq!(run_with_library("print(type(type(1)))"), (Ok(0), String::from("string\n")));
    assert_eq!(run_with_library("local t = {type(1), type(2), kind = type({})} print(t[1], t[2], t.kind)"), (Ok(0), String::from("number\tnumber\ttable\n")));
}

#[test]
fn a_call_without_results_gives_nil() {
    assert_eq!(run_with_library("local r = print('x') print(r)"), (Ok(0), String::from("x\nnil\n")));
    assert_eq!(run_with_library("print(print())"), (Ok(0), String::from("\nnil\n")));
}

#[test]
fn the_first_result_of_several_is_kept() {
    assert_eq!(
        run_with_library("local step = ipairs({10, 20}) print(step)"),
        (Ok(0), String::from("function: ipairs_aux\n"))
    );
    assert_eq!(
        run_with_library("local t = {10, 20} print(ipairs(t)(t, 0), ipairs(t)(t, 1), ipairs(t)(t, 2))"),
        (Ok(0), String::from("1\t2\tnil\n"))
    );
}

#[test]
fn the_code_of_calls_in_expressions_and_in_chains() {
    let proto = ParseProto::load(b"local a = f(1)(2).x 'y' g(3)(4) h.k(5).m = n()".to_vec()).unwrap();
    assert_eq!(
        proto.byte_codes,
        vec![
            ByteCode::GetGlobal(0, 0),
            ByteCode::LoadInt(1, 1),
            ByteCode::CallSet(0, 0, 1),
            ByteCode::LoadInt(1, 2),
            ByteCode::CallSet(0, 0, 1),
            ByteCode::GetField(0, 0, 1),
            ByteCode::LoadConst(1, 2),
            ByteCode::CallSet(0, 0, 1),
            ByteCode::GetGlobal(1, 3),
            ByteCode::LoadInt(2, 3),
            ByteCode::CallSet(1, 1, 1),
            ByteCode::LoadInt(2, 4),
            ByteCode::Call(1, 1),
            ByteCode::GetGlobal(1, 4),
            ByteCode::GetField(1, 1, 5),
            ByteCode::LoadInt(2, 5),
            ByteCode::CallSet(1, 1, 1),
            ByteCode::GetGlobal(2, 7),
            ByteCode::CallSet(2, 2, 0),
            ByteCode::SetField(1, 6, 2),
        ]
    );
    assert_eq!(
        proto.constants,
        vec![s("f"), s("x"), s("y"), s("g"), s("h"), s("k"), s("m"), s("n")]
    );
}

#[test]
fn a_fault_in_a_call_inside_an_expression_ends_the_run() {
    let (r, out) = run_with_library("print('a') local x = type() print('b')");
    assert_eq!(out, "a\n");
    assert_eq!(r, Err(Fault { pc: 4, code: ByteCode::CallSet(0, 0, 0), kind: FaultKind::TypeMismatch }));
    let (r, out) = run_with_library("print(undefined(1))");
    assert_eq!(out, "");
    assert_eq!(r, Err(Fault { pc: 3, code: ByteCode::CallSet(1, 1, 1), kind: FaultKind::TypeMismatch }));
}

#[test]
fn the_result_register_must_not_lie_above_the_function() {
    let proto = program(vec![], vec![ByteCode::LoadNil(0)]);
    let mut state = LuaState::new();
    state.push(Value::Function(Native::Type));
    state.push(Value::Integer(1));
    assert_eq!(state.execute(&proto, ByteCode::CallSet(1, 0, 1)), Err(FaultKind::RegisterOutOfRange));
    assert_eq!(state.stack, vec![]);
    state.push(Value::Nil);
    state.push(Value::Function(Native::Type));
    state.push(Value::Integer(1));
    assert_eq!(state.execute(&proto, ByteCode::CallSet(0, 1, 1)), Ok(()));
    assert_eq!(state.stack, vec![s("number")]);
    state.push(Value::Function(Native::Type));
    state.push(Value::Integer(1));
    assert_eq!(state.execute(&proto, ByteCode::CallSet(1, 1, 1)), Ok(()));
    assert_eq!(state.stack, vec![s("number"), s("number")]);
}

#[test]
fn each_counter_counts_by_itself() {
    let proto = ParseProto::load(
        b"local a = new() local b = new() a() a() b() a() print(a, b) local r = b() print(r)".to_vec(),
    )
    .unwrap();
    let mut state = LuaState::new();
    state.set_global(b"new".to_vec(), Value::Function(Native::NewCounter));
    assert_eq!(state.run(&proto, 0, 0, 0), Ok(0));
    assert_eq!(
        String::from_utf8(state.output.clone()).unwrap(),
        "counter: 1\ncounter: 2\ncounter: 1\ncounter: 3\nfunction: counter\tfunction: counter\ncounter: 2\nnil\n"
    );
    assert_eq!(state.counters, vec![3, 2]);
    assert_eq!(state.stack[0], Value::Function(Native::Counter(0)));
    assert_eq!(state.stack[1], Value::Function(Native::Counter(1)));
}

#[test]
fn a_counter_by_itself() {
    let mut state = LuaState::new();
    assert_eq!(luar::lualib::auxlib::test_new_counter(&mut state), 1);
    assert_eq!(state.stack, vec![Value::Function(Native::Counter(0))]);
    assert_eq!(state.counters, vec![0]);
    assert_eq!(luar::lualib::auxlib::count(&mut state, 0), Ok(0));
    assert_eq!(luar::lualib::auxlib::count(&mut state, 0), Ok(0));
    assert_eq!(state.output, b"counter: 1\ncounter: 2\n".to_vec());
    assert_eq!(luar::lualib::auxlib::count(&mut state, 1), Err(FaultKind::TypeMismatch));
    state.counters[0] = i32::MAX;
    assert_eq!(luar::lualib::auxlib::count(&mut state, 0), Ok(0));
    assert_eq!(state.counters, vec![i32::MIN]);
    assert_eq!(state.output, b"counter: 1\ncounter: 2\ncounter: -2147483648\n".to_vec());
}
