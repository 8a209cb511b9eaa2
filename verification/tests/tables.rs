use luar::bytecode::ByteCode;
use luar::fields::Fields;
use luar::lex::LexError;
use luar::number::Decimal;
use luar::parse::{ParseError, ParseProto};
use luar::table::Table;
use luar::value::{Native, Value};
use luar::vm::{Fault, FaultKind, LuaState};

fn s(text: &str) -> Value {
    Value::String(text.as_bytes().to_vec())
}

fn load(src: &str) -> Result<(Vec<Value>, Vec<ByteCode>), ParseError> {
    match ParseProto::load(src.as_bytes().to_vec()) {
        Ok(proto) => Ok((proto.constants, proto.byte_codes)),
        Err(e) => Err(e),
    }
}

fn failure(src: &str) -> Option<ParseError> {
    load(src).err()
}

fn run(src: &str) -> (Result<i32, Fault>, String) {
    let proto = ParseProto::load(src.as_bytes().to_vec()).unwrap();
    let mut state = LuaState::new();
    let r = state.run(&proto, 0, 0, 0);
    (r, String::from_utf8(state.output).unwrap())
}

fn output(src: &str) -> String {
    let (r, out) = run(src);
    assert_eq!(r, Ok(0));
    out
}

#[test]
fn keys_count_from_one() {
    assert_eq!(output("t = {10, 20, 30} print(t[1])"), "10\n");
    assert_eq!(output("t = {10, 20, 30} print(t[1], t[2], t[3])"), "10\t20\t30\n");
    assert_eq!(output("t = {10, 20, 30} print(t[0], t[4])"), "nil\tnil\n");
    assert_eq!(output("local t = {10, 20, 30} print(t[1])"), "10\n");
}

#[test]
fn the_array_part_starts_at_place_zero() {
    let proto = ParseProto::load(b"t = {10, 20, 30}".to_vec()).unwrap();
    let mut state = LuaState::new();
    assert_eq!(state.run(&proto, 0, 0, 0), Ok(0));
    assert_eq!(state.global(&b"t".to_vec()), Value::Table(0));
    assert_eq!(state.tables.len(), 1);
    assert_eq!(
        state.tables[0].array,
        vec![Value::Integer(10), Value::Integer(20), Value::Integer(30)]
    );
    assert_eq!(state.tables[0].array[0], state.tables[0].get(Value::Integer(1)));
    assert_eq!(state.stack, vec![Value::Table(0)]);
}

#[test]
fn the_code_of_a_constructor_and_of_a_read() {
    assert_eq!(
        load("t = {10, 20, 30} print(t[1])"),
        Ok((
            vec![s("t"), s("print")],
            vec![
                ByteCode::NewTable(0, 3, 0),
                ByteCode::LoadInt(1, 10),
                ByteCode::LoadInt(2, 20),
                ByteCode::LoadInt(3, 30),
                ByteCode::SetList(0, 3),
                ByteCode::SetGlobal(0, 0),
                ByteCode::GetGlobal(0, 1),
                ByteCode::GetGlobal(1, 0),
                ByteCode::GetInt(1, 1, 1),
                ByteCode::Call(0, 1),
            ]
        ))
    );
}

#[test]
fn the_code_of_each_kind_of_field_and_key() {
    assert_eq!(
        load("local t = {1, x = 2, [3] = 4; 'five', [k] = v,} local u = t.x[1][k]['s'][300]"),
        Ok((
            vec![s("x"), s("five"), s("k"), s("v"), s("s")],
            vec![
                ByteCode::NewTable(0, 2, 3),
                ByteCode::LoadInt(1, 1),
                ByteCode::LoadInt(2, 2),
                ByteCode::SetField(0, 0, 2),
                ByteCode::LoadInt(2, 3),
                ByteCode::LoadInt(3, 4),
                ByteCode::SetTable(0, 2, 3),
                ByteCode::LoadConst(2, 1),
                ByteCode::GetGlobal(3, 2),
                ByteCode::GetGlobal(4, 3),
                ByteCode::SetTable(0, 3, 4),
                ByteCode::SetList(0, 2),
                ByteCode::Move(1, 0),
                ByteCode::GetField(1, 1, 0),
                ByteCode::GetInt(1, 1, 1),
                ByteCode::GetGlobal(2, 2),
                ByteCode::GetTable(1, 1, 2),
                ByteCode::LoadConst(2, 4),
                ByteCode::GetTable(1, 1, 2),
                ByteCode::LoadInt(2, 300),
                ByteCode::GetTable(1, 1, 2),
            ]
        ))
    );
}

#[test]
fn the_code_of_assignments_to_keys() {
    assert_eq!(
        load("local t = {} t[1] = 'a' t.x = t t[t.x] = nil g.h.i = 1 g[k](2)"),
        Ok((
            vec![s("a"), s("x"), s("g"), s("h"), s("i"), s("k")],
            vec![
                ByteCode::NewTable(0, 0, 0),
                ByteCode::Move(1, 0),
                ByteCode::LoadConst(2, 0),
                ByteCode::SetInt(1, 1, 2),
                ByteCode::Move(1, 0),
                ByteCode::Move(2, 0),
                ByteCode::SetField(1, 1, 2),
                ByteCode::Move(1, 0),
                ByteCode::Move(2, 0),
                ByteCode::GetField(2, 2, 1),
                ByteCode::LoadNil(3),
                ByteCode::SetTable(1, 2, 3),
                ByteCode::GetGlobal(1, 2),
                ByteCode::GetField(1, 1, 3),
                ByteCode::LoadInt(2, 1),
                ByteCode::SetField(1, 4, 2),
                ByteCode::GetGlobal(1, 2),
                ByteCode::GetGlobal(2, 5),
                ByteCode::GetTable(1, 1, 2),
                ByteCode::LoadInt(2, 2),
                ByteCode::Call(1, 1),
            ]
        ))
    );
}

#[test]
fn a_value_that_needs_registers_is_computed_above_the_locals() {
    assert_eq!(
        load("local a = 1 local b = 2 a = {b} b = a[1] g = a[1] g = b"),
        Ok((
            vec![s("g")],
            vec![
                ByteCode::LoadInt(0, 1),
                ByteCode::LoadInt(1, 2),
                ByteCode::NewTable(2, 1, 0),
                ByteCode::Move(3, 1),
                ByteCode::SetList(2, 1),
                ByteCode::Move(0, 2),
                ByteCode::Move(2, 0),
                ByteCode::GetInt(2, 2, 1),
                ByteCode::Move(1, 2),
                ByteCode::Move(2, 0),
                ByteCode::GetInt(2, 2, 1),
                ByteCode::SetGlobal(0, 2),
                ByteCode::SetGlobal(0, 1),
            ]
        ))
    );
    assert_eq!(output("local a = 1 local b = 2 a = {b} b = a[1] print(a[1], b)"), "2\t2\n");
}

#[test]
fn fields_and_keys_of_every_kind() {
    let src = "local t = {1, x = 2, [3] = 4; 'five', [\"k\"] = 6,}
               print(t[1], t.x, t[3], t[2], t.k, t['x'], t[\"none\"], t.none)";
    assert_eq!(output(src), "1\t2\t4\tfive\t6\t2\tnil\tnil\n");
}

#[test]
fn keys_are_set_and_read_again() {
    let src = "local t = {}
               t[1] = 'a' t[2] = 'b' t.x = 'c' t['y'] = 'd' t[true] = 'e' t[2.5] = 'f' t[100] = 'g'
               print(t[1], t[2], t.x, t.y, t[true], t[2.5], t[100], t[3])
               t[1] = 'z' t.x = nil t[100] = 1
               print(t[1], t[2], t.x, t.y, t[true], t[2.5], t[100], t[3])";
    assert_eq!(output(src), "a\tb\tc\td\te\tf\tg\tnil\nz\tb\tnil\td\te\tf\t1\tnil\n");
}

#[test]
fn a_whole_number_with_a_fraction_is_the_integer_key() {
    assert_eq!(output("local t = {10, 20} print(t[1.0], t[2.00], t[1.5])"), "10\t20\tnil\n");
    assert_eq!(output("local t = {} t[5.0] = 'x' print(t[5]) t[5] = 'y' print(t[5.0])"), "x\ny\n");
    assert_eq!(output("local t = {} t['1'] = 's' t[1] = 'i' print(t['1'], t[1])"), "s\ti\n");
}

#[test]
fn a_key_after_the_array_part_extends_it() {
    let proto = ParseProto::load(b"t = {'a'} t[2] = 'b' t[4] = 'd' t[3] = 'c' t[4] = 'D'".to_vec()).unwrap();
    let mut state = LuaState::new();
    assert_eq!(state.run(&proto, 0, 0, 0), Ok(0));
    assert_eq!(state.tables[0].array, vec![s("a"), s("b"), s("c"), s("D")]);
    assert_eq!(state.tables[0].get(Value::Integer(4)), s("D"));
    assert_eq!(state.tables[0].get(Value::Integer(5)), Value::Nil);
}

#[test]
fn every_copy_of_a_table_is_the_same_table() {
    let src = "local a = {1} local b = a b[1] = 'changed' b.x = 'new' g = b print(a[1], a.x, g[1]) print(a, b, g)";
    assert_eq!(output(src), "changed\tnew\tchanged\ntable: 0\ttable: 0\ttable: 0\n");
    assert_eq!(output("local a = {} local b = {} a.x = 1 print(a.x, b.x, a, b)"), "1\tnil\ttable: 0\ttable: 1\n");
}

#[test]
fn tables_in_tables() {
    let src = "local t = {{1, 2}, {3, {4, 5}}, x = {y = {z = 'deep'}}}
               print(t[1][2], t[2][1], t[2][2][2], t.x.y.z)
               t.x.y.z = 'deeper' t[2][2][1] = t[1]
               print(t.x.y.z, t[2][2][1][1])";
    assert_eq!(output(src), "2\t3\t5\tdeep\ndeeper\t1\n");
}

#[test]
fn a_function_in_a_table_can_be_called() {
    assert_eq!(output("local lib = {say = print} lib.say('hi', 1) lib['say'] 'there'"), "hi\t1\nthere\n");
    assert_eq!(output("local lib = {{print}} lib[1][1](lib[1][1])"), "function: print\n");
}

#[test]
fn an_empty_table() {
    assert_eq!(load("local t = {}"), Ok((vec![], vec![ByteCode::NewTable(0, 0, 0)])));
    assert_eq!(output("local t = {} print(t[1], t.x)"), "nil\tnil\n");
}

#[test]
fn a_long_list_is_put_into_the_table_fifty_items_at_a_time() {
    let mut src = String::from("local t = {");
    for i in 1..=120 {
        src.push_str(&format!("{}, ", i * 2));
    }
    src.push_str("} print(t[1], t[50], t[51], t[100], t[101], t[120], t[121])");
    let (_, codes) = load(&src).unwrap();
    assert_eq!(codes[0], ByteCode::NewTable(0, 120, 0));
    assert_eq!(codes[51], ByteCode::SetList(0, 50));
    assert_eq!(codes[102], ByteCode::SetList(0, 50));
    assert_eq!(codes[123], ByteCode::SetList(0, 20));
    assert_eq!(output(&src), "2\t100\t102\t200\t202\t240\tnil\n");

    let mut src = String::from("local t = {");
    for i in 1..=300 {
        src.push_str(&format!("k{} = {}; ", i % 7, i));
    }
    src.push_str("} print(t.k0, t.k6)");
    let (_, codes) = load(&src).unwrap();
    assert_eq!(codes[0], ByteCode::NewTable(0, 0, 255));
    assert_eq!(output(&src), "294\t300\n");
}

#[test]
fn to_index_what_is_no_table_is_a_fault() {
    let (r, out) = run("local a = 5 print('before') print(a[1])");
    assert_eq!(out, "before\n");
    assert_eq!(r, Err(Fault { pc: 6, code: ByteCode::GetInt(2, 2, 1), kind: FaultKind::TypeMismatch }));
    let (r, _) = run("print(undefined.x)");
    assert_eq!(r, Err(Fault { pc: 2, code: ByteCode::GetField(1, 1, 2), kind: FaultKind::TypeMismatch }));
    let (r, _) = run("local s = 'text' s.x = 1");
    assert_eq!(r, Err(Fault { pc: 3, code: ByteCode::SetField(1, 1, 2), kind: FaultKind::TypeMismatch }));
    let (r, _) = run("local t = {} t.x.y = 1");
    assert_eq!(r, Err(Fault { pc: 4, code: ByteCode::SetField(1, 1, 2), kind: FaultKind::TypeMismatch }));
}

#[test]
fn nil_is_no_key() {
    let (r, out) = run("local t = {} t[nil] = 1");
    assert_eq!(out, "");
    assert_eq!(r, Err(Fault { pc: 4, code: ByteCode::SetTable(1, 2, 3), kind: FaultKind::TypeMismatch }));
    let (r, _) = run("local t = {[undefined] = 1}");
    assert_eq!(r, Err(Fault { pc: 3, code: ByteCode::SetTable(0, 1, 2), kind: FaultKind::TypeMismatch }));
    assert_eq!(output("local t = {} print(t[nil])"), "nil\n");
}

#[test]
fn constructors_and_keys_that_are_not_closed() {
    assert_eq!(failure("t = {"), Some(ParseError::ExpectedExpression));
    assert_eq!(failure("t = {1"), Some(ParseError::ExpectedRightCurly));
    assert_eq!(failure("t = {1 2}"), Some(ParseError::ExpectedRightCurly));
    assert_eq!(failure("t = {1,,}"), Some(ParseError::ExpectedExpression));
    assert_eq!(failure("t = {,}"), Some(ParseError::ExpectedExpression));
    assert_eq!(failure("t = {x = }"), Some(ParseError::ExpectedExpression));
    assert_eq!(failure("t = {[1] 2}"), Some(ParseError::ExpectedAssign));
    assert_eq!(failure("t = {[1 = 2}"), Some(ParseError::ExpectedRightSquare));
    assert_eq!(failure("t = {[1]"), Some(ParseError::ExpectedAssign));
    assert_eq!(failure("t = {1, @}"), Some(ParseError::Lex(LexError::InvalidByte(b'@'))));
    assert_eq!(failure("t = {1 @}"), Some(ParseError::Lex(LexError::InvalidByte(b'@'))));
    assert_eq!(failure("t = {x @}"), Some(ParseError::Lex(LexError::InvalidByte(b'@'))));
    assert_eq!(failure("t = {[1] @}"), Some(ParseError::Lex(LexError::InvalidByte(b'@'))));
    assert_eq!(failure("print(t[1)"), Some(ParseError::ExpectedRightSquare));
    assert_eq!(failure("print(t[x)"), Some(ParseError::ExpectedRightSquare));
    assert_eq!(failure("print(t[1"), Some(ParseError::ExpectedRightSquare));
    assert_eq!(failure("print(t[])"), Some(ParseError::ExpectedExpression));
    assert_eq!(failure("print(t.)"), Some(ParseError::ExpectedName));
    assert_eq!(failure("print(t. 1)"), Some(ParseError::ExpectedName));
    assert_eq!(failure("print(t.1)"), Some(ParseError::ExpectedRightParen));
    assert_eq!(failure("print(t.local)"), Some(ParseError::ExpectedName));
    assert_eq!(failure("print(t[1 @"), Some(ParseError::Lex(LexError::InvalidByte(b'@'))));
    assert_eq!(failure("t[1]"), Some(ParseError::ExpectedArguments));
    assert_eq!(failure("t.x"), Some(ParseError::ExpectedArguments));
    assert_eq!(failure("t.x = "), Some(ParseError::ExpectedExpression));
    assert_eq!(failure("t[1] = ]"), Some(ParseError::ExpectedExpression));
    assert_eq!(failure("t[ = 1"), Some(ParseError::ExpectedExpression));
    assert_eq!(failure("t. = 1"), Some(ParseError::ExpectedName));
}

#[test]
fn a_table_by_itself() {
    let mut t = Table::new();
    assert_eq!(t.get(Value::Integer(1)), Value::Nil);
    t.append(vec![s("a"), s("b")]);
    assert_eq!(t.get(Value::Integer(1)), s("a"));
    assert_eq!(t.get(Value::Integer(2)), s("b"));
    assert_eq!(t.get(Value::Integer(0)), Value::Nil);
    assert_eq!(t.get(Value::Integer(-1)), Value::Nil);
    assert_eq!(t.get(Value::Integer(3)), Value::Nil);
    t.set(Value::Integer(0), s("zero"));
    t.set(Value::Integer(-1), s("minus"));
    t.set(Value::Integer(i64::MAX), s("max"));
    t.set(Value::Integer(i64::MIN), s("min"));
    t.set(Value::Float(Decimal::new(7, 0, 0)), s("seven"));
    t.set(Value::Float(Decimal::new(7, 5, 1)), s("seven and a half"));
    t.set(Value::Boolean(false), s("no"));
    t.set(Value::Function(Native::Print), s("f"));
    t.set(Value::Table(3), s("t"));
    t.set(Value::Nil, s("nil"));
    assert_eq!(t.array.len(), 2);
    assert_eq!(t.get(Value::Integer(0)), s("zero"));
    assert_eq!(t.get(Value::Integer(-1)), s("minus"));
    assert_eq!(t.get(Value::Integer(i64::MAX)), s("max"));
    assert_eq!(t.get(Value::Integer(i64::MIN)), s("min"));
    assert_eq!(t.get(Value::Integer(7)), s("seven"));
    assert_eq!(t.get(Value::Float(Decimal::new(7, 5, 1))), s("seven and a half"));
    assert_eq!(t.get(Value::Boolean(false)), s("no"));
    assert_eq!(t.get(Value::Boolean(true)), Value::Nil);
    assert_eq!(t.get(Value::Function(Native::Print)), s("f"));
    assert_eq!(t.get(Value::Table(3)), s("t"));
    assert_eq!(t.get(Value::Table(2)), Value::Nil);
    assert_eq!(t.get(Value::Nil), s("nil"));
    t.set(Value::Integer(3), s("c"));
    assert_eq!(t.array, vec![s("a"), s("b"), s("c")]);
    t.set(Value::Float(Decimal::new(2, 0, 0)), s("B"));
    assert_eq!(t.array, vec![s("a"), s("B"), s("c")]);
}

#[test]
fn a_map_of_values_by_itself() {
    let mut m = Fields::new();
    assert_eq!(m.get(&s("x")), None);
    m.set(s("x"), Value::Integer(1));
    m.set(s("y"), Value::Integer(2));
    m.set(Value::Integer(1), s("one"));
    assert_eq!(m.get(&s("x")), Some(&Value::Integer(1)));
    assert_eq!(m.get(&s("y")), Some(&Value::Integer(2)));
    assert_eq!(m.get(&Value::Integer(1)), Some(&s("one")));
    assert_eq!(m.get(&s("1")), None);
    m.set(s("x"), Value::Nil);
    assert_eq!(m.get(&s("x")), Some(&Value::Nil));
    assert_eq!(m.get(&s("y")), Some(&Value::Integer(2)));
}

#[test]
fn table_instructions_on_registers_out_of_range() {
    let program = |byte_codes: Vec<ByteCode>| ParseProto {
        constants: vec![s("x"), Value::Integer(1)],
        byte_codes,
        locals: vec![],
        lex: luar::lex::Lex::new(vec![]),
    };
    let run = |codes: Vec<ByteCode>| {
        let last = codes.len() - 1;
        let code = codes[last];
        let mut state = LuaState::new();
        match state.run(&program(codes), 0, 0, 0) {
            Err(f) => {
                assert_eq!(f.pc, last);
                assert_eq!(f.code, code);
                Some(f.kind)
            }
            Ok(_) => None,
        }
    };
    assert_eq!(run(vec![ByteCode::NewTable(1, 0, 0)]), Some(FaultKind::RegisterOutOfRange));
    assert_eq!(run(vec![ByteCode::NewTable(0, 0, 0)]), None);
    assert_eq!(run(vec![ByteCode::GetInt(0, 0, 1)]), Some(FaultKind::RegisterOutOfRange));
    assert_eq!(run(vec![ByteCode::NewTable(0, 0, 0), ByteCode::GetInt(2, 0, 1)]), Some(FaultKind::RegisterOutOfRange));
    assert_eq!(run(vec![ByteCode::NewTable(0, 0, 0), ByteCode::GetTable(1, 0, 1)]), Some(FaultKind::RegisterOutOfRange));
    assert_eq!(run(vec![ByteCode::NewTable(0, 0, 0), ByteCode::GetField(1, 0, 2)]), Some(FaultKind::BadConstant));
    assert_eq!(run(vec![ByteCode::NewTable(0, 0, 0), ByteCode::GetField(1, 0, 1)]), Some(FaultKind::BadConstant));
    assert_eq!(run(vec![ByteCode::NewTable(0, 0, 0), ByteCode::GetField(1, 0, 0)]), None);
    assert_eq!(run(vec![ByteCode::NewTable(0, 0, 0), ByteCode::SetInt(0, 1, 1)]), Some(FaultKind::RegisterOutOfRange));
    assert_eq!(run(vec![ByteCode::NewTable(0, 0, 0), ByteCode::SetInt(0, 1, 0)]), None);
    assert_eq!(run(vec![ByteCode::NewTable(0, 0, 0), ByteCode::SetField(0, 9, 0)]), Some(FaultKind::BadConstant));
    assert_eq!(run(vec![ByteCode::NewTable(0, 0, 0), ByteCode::SetTable(0, 5, 0)]), Some(FaultKind::RegisterOutOfRange));
    assert_eq!(run(vec![ByteCode::NewTable(0, 0, 0), ByteCode::SetList(0, 1)]), Some(FaultKind::RegisterOutOfRange));
    assert_eq!(run(vec![ByteCode::NewTable(0, 0, 0), ByteCode::SetList(0, 0)]), None);
    assert_eq!(run(vec![ByteCode::LoadNil(0), ByteCode::SetList(0, 0)]), Some(FaultKind::TypeMismatch));
    assert_eq!(run(vec![ByteCode::SetList(0, 0)]), Some(FaultKind::RegisterOutOfRange));
}
