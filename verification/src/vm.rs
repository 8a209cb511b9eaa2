//! The executor: a value stack, the global variables, and the run of a
//! compiled program over them.
use vstd::prelude::*;
use crate::bytecode::ByteCode;
use crate::fields::Fields;
use crate::table::{Table, TableModel};
use crate::lualib::auxlib::{count, ipairs, ipairs_aux, test_new_counter};
use crate::number::int_text;
use crate::lualib::baselib::{lua_print, lua_type};
use crate::parse::{grown, lemma_height_before, ParseProto, Proto};
use crate::value::{values_view, Native, Val, Value, ValueModel};
use vstd::string::{StrSliceExecFns, StringSliceAdditionalSpecFns};

verus! {

/// What went wrong in an instruction.
#[derive(Clone, Copy, Debug, PartialEq, Eq, Structural)]
pub enum FaultKind {
    /// A value is not of the type that its use asks for: what is called is
    /// no function, what is indexed is no table, the key that is set is
    /// nil, an argument of a native function is missing or of the wrong
    /// type. Such a fault is the program's.
    TypeMismatch,
    /// A register is read that holds nothing, or written beyond the top of
    /// the stack. Such a fault is the compiler's: no program that `load`
    /// gives runs into it.
    RegisterOutOfRange,
    /// The program has no constant at the place that the instruction names,
    /// or the constant there is no string where the instruction wants a
    /// name. Such a fault is the compiler's too.
    BadConstant,
}

/// A fault that ended a run: the place of the instruction in the program,
/// the instruction, and what went wrong in it.
#[derive(Clone, Copy, Debug, PartialEq, Eq, Structural)]
pub struct Fault {
    pub pc: usize,
    pub code: ByteCode,
    pub kind: FaultKind,
}

/// What a [`LuaState`] is, as contracts speak of it.
pub struct State {
    /// The global variables that are set, each under its name, a string.
    pub globals: Map<ValueModel, ValueModel>,
    /// The registers, from the bottom of the stack.
    pub stack: Seq<ValueModel>,
    /// The register of the function that was called last.
    pub func_index: int,
    /// The tables, each at the place that names it.
    pub tables: Seq<TableModel>,
    /// The counts of the counters, each at the place that names it.
    pub counters: Seq<i32>,
    /// The bytes written so far.
    pub output: Seq<u8>,
}

/// A state, and the fault that stopped an instruction in it, if one did.
pub struct Outcome {
    pub state: State,
    pub fault: Option<FaultKind>,
}

/// The texts of `vs`, with a tab between each two.
pub open spec fn joined(vs: Seq<ValueModel>) -> Seq<u8>
    decreases vs.len(),
{
    if vs.len() == 0 {
        Seq::empty()
    } else if vs.len() == 1 {
        vs[0].text()
    } else {
        joined(vs.drop_last()) + seq!['\t' as u8] + vs.last().text()
    }
}

/// `i + 1` as 32-bit integers count: after the greatest comes the least.
pub open spec fn next_count(i: i32) -> i32 {
    if i == i32::MAX {
        i32::MIN
    } else {
        (i + 1) as i32
    }
}

/// `i + 1` as 64-bit integers count: after the greatest comes the least.
pub open spec fn next_integer(i: i64) -> i64 {
    if i == i64::MAX {
        i64::MIN
    } else {
        (i + 1) as i64
    }
}

/// The constant at place `i` of `proto`.
pub open spec fn constant_at(proto: Proto, i: int) -> Result<ValueModel, FaultKind> {
    if 0 <= i < proto.constants.len() {
        Ok(proto.constants[i])
    } else {
        Err(FaultKind::BadConstant)
    }
}

/// The name that the constant at place `i` of `proto` holds.
pub open spec fn name_at(proto: Proto, i: int) -> Result<Seq<u8>, FaultKind> {
    match constant_at(proto, i) {
        Ok(Val::String(name)) => Ok(name),
        Ok(_) => Err(FaultKind::BadConstant),
        Err(k) => Err(k),
    }
}

impl State {
    /// This state, stopped by no fault.
    pub open spec fn fine(self) -> Outcome {
        Outcome { state: self, fault: None }
    }

    /// This state, stopped by a fault of kind `kind`.
    pub open spec fn stopped(self, kind: FaultKind) -> Outcome {
        Outcome { state: self, fault: Some(kind) }
    }

    /// The state after `v` is written to register `dst`: at the top of the
    /// stack it is one more register, below it takes a register's place, and
    /// above the top it cannot be written.
    pub open spec fn set_stack(self, dst: int, v: ValueModel) -> Result<State, FaultKind> {
        if dst == self.stack.len() {
            Ok(State { stack: self.stack.push(v), ..self })
        } else if 0 <= dst < self.stack.len() {
            Ok(State { stack: self.stack.update(dst, v), ..self })
        } else {
            Err(FaultKind::RegisterOutOfRange)
        }
    }

    /// The value of register `src`.
    pub open spec fn register(self, src: int) -> Result<ValueModel, FaultKind> {
        if 0 <= src < self.stack.len() {
            Ok(self.stack[src])
        } else {
            Err(FaultKind::RegisterOutOfRange)
        }
    }

    /// The value of the global variable `name`: nil where it is not set.
    pub open spec fn global(self, name: Seq<u8>) -> ValueModel {
        if self.globals.contains_key(Val::String(name)) {
            self.globals[Val::String(name)]
        } else {
            Val::Nil
        }
    }

    /// The state with the global variable `name` set to `v`.
    pub open spec fn set_global(self, name: Seq<u8>, v: ValueModel) -> State {
        State { globals: self.globals.insert(Val::String(name), v), ..self }
    }

    /// The number of arguments of the function that was called last: the
    /// registers above its own.
    pub open spec fn top(self) -> int {
        if 0 <= self.func_index < self.stack.len() {
            self.stack.len() - self.func_index - 1
        } else {
            0
        }
    }

    /// The arguments of the function that was called last.
    pub open spec fn args(self) -> Seq<ValueModel> {
        self.stack.subrange(self.stack.len() - self.top(), self.stack.len() as int)
    }

    /// The state with `v` as one more register.
    pub open spec fn push(self, v: ValueModel) -> State {
        State { stack: self.stack.push(v), ..self }
    }

    /// The state after `print`: the arguments' texts are written, with tabs
    /// between them and a line feed after them.
    pub open spec fn print(self) -> State {
        State { output: self.output + joined(self.args()) + seq!['\n' as u8], ..self }
    }

    /// The state after `type`: the name of the first argument's type is
    /// pushed.
    pub open spec fn lua_type(self) -> Outcome {
        if self.top() < 1 {
            self.stopped(FaultKind::TypeMismatch)
        } else {
            self.push(Val::String(self.args()[0].kind_name())).fine()
        }
    }

    /// The state after `ipairs`: the step function, the first argument and
    /// the integer 0 are pushed.
    pub open spec fn ipairs(self) -> Outcome {
        if self.top() < 1 {
            self.stopped(FaultKind::TypeMismatch)
        } else {
            self.push(Val::Function(Native::IpairsAux)).push(self.args()[0]).push(
                Val::Integer(0),
            ).fine()
        }
    }

    /// The state after the step function of `ipairs`, called with a table
    /// and a count `i`: where the table's array part has an item `i`,
    /// counted from 0, `i + 1` and that item are pushed; else nothing is.
    pub open spec fn ipairs_aux(self) -> Outcome {
        if self.top() < 1 {
            self.stopped(FaultKind::TypeMismatch)
        } else {
            match self.args()[0] {
                Val::Table(t) => if t >= self.tables.len() {
                    self.stopped(FaultKind::TypeMismatch)
                } else if self.top() < 2 {
                    self.stopped(FaultKind::TypeMismatch)
                } else {
                    match self.args()[1] {
                        Val::Integer(i) => if 0 <= i < self.tables[t as int].array.len() {
                            self.push(Val::Integer(next_integer(i))).push(
                                self.tables[t as int].array[i as int],
                            ).fine()
                        } else {
                            self.fine()
                        },
                        _ => self.stopped(FaultKind::TypeMismatch),
                    }
                },
                _ => self.stopped(FaultKind::TypeMismatch),
            }
        }
    }

    /// The state after `test_new_counter`: there is one more counter, at
    /// count 0, and the function that counts on it is pushed.
    pub open spec fn new_counter(self) -> State {
        State { counters: self.counters.push(0), ..self }.push(
            Val::Function(Native::Counter(self.counters.len() as usize)),
        )
    }

    /// The state after the function that counts on counter `c`: the
    /// counter counts one more, and `counter: ` with the new count is
    /// written as a line of output.
    pub open spec fn count(self, c: int) -> Outcome {
        if 0 <= c < self.counters.len() {
            let n = next_count(self.counters[c]);
            State {
                counters: self.counters.update(c, n),
                output: self.output + "counter: ".spec_bytes() + int_text(n as int) + seq![
                    '\n' as u8,
                ],
                ..self
            }.fine()
        } else {
            self.stopped(FaultKind::TypeMismatch)
        }
    }

    /// The state after the native function `f` has run on its arguments.
    pub open spec fn call_native(self, f: Native) -> Outcome {
        match f {
            Native::Print => self.print().fine(),
            Native::Type => self.lua_type(),
            Native::Ipairs => self.ipairs(),
            Native::IpairsAux => self.ipairs_aux(),
            Native::NewCounter => self.new_counter().fine(),
            Native::Counter(c) => self.count(c as int),
        }
    }

    /// The state in which the function in register `func` has run on the
    /// `count` registers after it, its arguments: the stack was cut after
    /// the last argument, and the function's results stand on top of it.
    pub open spec fn enter(self, func: int, count: int) -> Outcome {
        if func + count >= self.stack.len() {
            self.stopped(FaultKind::RegisterOutOfRange)
        } else {
            match self.stack[func] {
                Val::Function(f) => State {
                    stack: self.stack.subrange(0, func + count + 1),
                    func_index: func,
                    ..self
                }.call_native(f),
                _ => self.stopped(FaultKind::TypeMismatch),
            }
        }
    }

    /// The state after a call whose results are dropped: after the function
    /// has run, the stack is cut below the function's register.
    pub open spec fn call(self, func: int, count: int) -> Outcome {
        let o = self.enter(func, count);
        if o.fault is Some {
            o
        } else {
            State { stack: o.state.stack.subrange(0, func), ..o.state }.fine()
        }
    }

    /// The state after a call whose first result is kept: after the
    /// function has run, the stack is cut below the function's register, and
    /// the first result, or nil where there is none, is written to register
    /// `dst`.
    pub open spec fn call_set(self, dst: int, func: int, count: int) -> Outcome {
        let o = self.enter(func, count);
        if o.fault is Some {
            o
        } else {
            let result = if o.state.stack.len() > func + count + 1 {
                o.state.stack[func + count + 1]
            } else {
                Val::Nil
            };
            let left = State { stack: o.state.stack.subrange(0, func), ..o.state };
            left.outcome(left.set_stack(dst, result))
        }
    }

    /// The place of the table that register `r` names.
    pub open spec fn table_at(self, r: int) -> Result<int, FaultKind> {
        match self.register(r) {
            Ok(Val::Table(h)) => if h < self.tables.len() {
                Ok(h as int)
            } else {
                Err(FaultKind::TypeMismatch)
            },
            Ok(_) => Err(FaultKind::TypeMismatch),
            Err(k) => Err(k),
        }
    }

    /// The state after a new, empty table is put into register `dst`.
    pub open spec fn new_table(self, dst: int) -> Result<State, FaultKind> {
        match self.set_stack(dst, Val::Table(self.tables.len() as usize)) {
            Ok(s) => Ok(State { tables: s.tables.push(TableModel::empty()), ..s }),
            Err(k) => Err(k),
        }
    }

    /// The state after the key `key` of the table in register `t` is read
    /// into register `dst`.
    pub open spec fn get_table(self, dst: int, t: int, key: Result<ValueModel, FaultKind>) -> Result<
        State,
        FaultKind,
    > {
        match (self.table_at(t), key) {
            (Ok(h), Ok(k)) => self.set_stack(dst, self.tables[h].get(k)),
            (Err(e), _) => Err(e),
            (_, Err(e)) => Err(e),
        }
    }

    /// The state after the key `key` of the table in register `t` is set to
    /// the value of register `src`. Nil is no key.
    pub open spec fn set_table(self, t: int, key: Result<ValueModel, FaultKind>, src: int) -> Result<
        State,
        FaultKind,
    > {
        match (self.table_at(t), key, self.register(src)) {
            (Ok(h), Ok(k), Ok(v)) => if k is Nil {
                Err(FaultKind::TypeMismatch)
            } else {
                Ok(State { tables: self.tables.update(h, self.tables[h].set(k, v)), ..self })
            },
            (Err(e), _, _) => Err(e),
            (_, Err(e), _) => Err(e),
            (_, _, Err(e)) => Err(e),
        }
    }

    /// The state after the values of the `n` registers after `t` are put
    /// behind the array part of the table in register `t`.
    pub open spec fn set_list(self, t: int, n: int) -> Result<State, FaultKind> {
        match self.table_at(t) {
            Ok(h) => if t + n >= self.stack.len() {
                Err(FaultKind::RegisterOutOfRange)
            } else {
                Ok(
                    State {
                        tables: self.tables.update(
                            h,
                            self.tables[h].append(self.stack.subrange(t + 1, t + n + 1)),
                        ),
                        stack: self.stack.subrange(0, t + 1),
                        ..self
                    },
                )
            },
            Err(e) => Err(e),
        }
    }

    /// The string that the constant at place `i` of `proto` holds, as a key.
    pub open spec fn field_key(proto: Proto, i: int) -> Result<ValueModel, FaultKind> {
        match name_at(proto, i) {
            Ok(name) => Ok(Val::String(name)),
            Err(k) => Err(k),
        }
    }

    /// `r` as an outcome: the state that it gives, or this state stopped.
    pub open spec fn outcome(self, r: Result<State, FaultKind>) -> Outcome {
        match r {
            Ok(s) => s.fine(),
            Err(k) => self.stopped(k),
        }
    }

    /// The state after one instruction of `proto`. A fault leaves the state
    /// as it was, but in a call: where the function faults, the state is
    /// the one that the function met, and where the result cannot be
    /// written, it is the one that the function left.
    pub open spec fn step(self, proto: Proto, code: ByteCode) -> Outcome {
        match code {
            ByteCode::GetGlobal(dst, name) => self.outcome(
                match name_at(proto, name as int) {
                    Ok(n) => self.set_stack(dst as int, self.global(n)),
                    Err(k) => Err(k),
                },
            ),
            ByteCode::SetGlobal(name, src) => self.outcome(
                match (name_at(proto, name as int), self.register(src as int)) {
                    (Ok(n), Ok(v)) => Ok(self.set_global(n, v)),
                    (Err(k), _) => Err(k),
                    (_, Err(k)) => Err(k),
                },
            ),
            ByteCode::SetGlobalConst(name, src) => self.outcome(
                match (name_at(proto, name as int), constant_at(proto, src as int)) {
                    (Ok(n), Ok(v)) => Ok(self.set_global(n, v)),
                    (Err(k), _) => Err(k),
                    (_, Err(k)) => Err(k),
                },
            ),
            ByteCode::SetGlobalGlobal(name, src) => self.outcome(
                match (name_at(proto, name as int), name_at(proto, src as int)) {
                    (Ok(n), Ok(m)) => Ok(self.set_global(n, self.global(m))),
                    (Err(k), _) => Err(k),
                    (_, Err(k)) => Err(k),
                },
            ),
            ByteCode::LoadConst(dst, c) => self.outcome(
                match constant_at(proto, c as int) {
                    Ok(v) => self.set_stack(dst as int, v),
                    Err(k) => Err(k),
                },
            ),
            ByteCode::LoadNil(dst) => self.outcome(self.set_stack(dst as int, Val::Nil)),
            ByteCode::LoadBool(dst, b) => self.outcome(self.set_stack(dst as int, Val::Boolean(b))),
            ByteCode::LoadInt(dst, i) => self.outcome(
                self.set_stack(dst as int, Val::Integer(i as i64)),
            ),
            ByteCode::Move(dst, src) => self.outcome(
                match self.register(src as int) {
                    Ok(v) => self.set_stack(dst as int, v),
                    Err(k) => Err(k),
                },
            ),
            ByteCode::Call(func, count) => self.call(func as int, count as int),
            ByteCode::CallSet(dst, func, count) => self.call_set(
                dst as int,
                func as int,
                count as int,
            ),
            ByteCode::NewTable(dst, _, _) => self.outcome(self.new_table(dst as int)),
            ByteCode::SetTable(t, key, src) => self.outcome(
                self.set_table(t as int, self.register(key as int), src as int),
            ),
            ByteCode::SetField(t, key, src) => self.outcome(
                self.set_table(t as int, State::field_key(proto, key as int), src as int),
            ),
            ByteCode::SetInt(t, key, src) => self.outcome(
                self.set_table(t as int, Ok(Val::Integer(key as i64)), src as int),
            ),
            ByteCode::SetList(t, n) => self.outcome(self.set_list(t as int, n as int)),
            ByteCode::GetTable(dst, t, key) => self.outcome(
                self.get_table(dst as int, t as int, self.register(key as int)),
            ),
            ByteCode::GetField(dst, t, key) => self.outcome(
                self.get_table(dst as int, t as int, State::field_key(proto, key as int)),
            ),
            ByteCode::GetInt(dst, t, key) => self.outcome(
                self.get_table(dst as int, t as int, Ok(Val::Integer(key as i64))),
            ),
        }
    }

    /// The state after the instructions of `proto` from place `pc` on, one
    /// after the other, up to the end or to the first fault; and that fault.
    pub open spec fn run_from(self, proto: Proto, pc: int) -> (State, Option<Fault>)
        decreases proto.byte_codes.len() - pc,
    {
        if pc < 0 || pc >= proto.byte_codes.len() {
            (self, None)
        } else {
            let o = self.step(proto, proto.byte_codes[pc]);
            match o.fault {
                Some(kind) => (
                    o.state,
                    Some(Fault { pc: pc as usize, code: proto.byte_codes[pc], kind }),
                ),
                None => o.state.run_from(proto, pc + 1),
            }
        }
    }

    /// The state after a run of `proto`, and the fault that ended it, if
    /// one did.
    pub open spec fn run(self, proto: Proto) -> (State, Option<Fault>) {
        self.run_from(proto, 0)
    }
}

/// A native function takes no register away.
pub proof fn lemma_native_pushes(s: State, f: Native)
    ensures
        s.call_native(f).state.stack.len() >= s.stack.len(),
{
}

/// To read a global variable that was never set is no fault: the register
/// gets nil.
pub proof fn law_unset_global_reads_nil(s: State, proto: Proto, dst: u8, name: u8)
    requires
        name_at(proto, name as int) matches Ok(n) && !s.globals.contains_key(Val::String(n)),
        dst <= s.stack.len(),
    ensures
        s.step(proto, ByteCode::GetGlobal(dst, name)).fault is None,
        s.step(proto, ByteCode::GetGlobal(dst, name)).state.stack[dst as int] == Val::<
            Seq<u8>,
        >::Nil,
        s.step(proto, ByteCode::GetGlobal(dst, name)).state.output == s.output,
{
}

/// To call a value that is no function is a fault of type, and the run
/// ends there with the state as it was: nothing is written after it.
pub proof fn law_call_of_no_function(s: State, proto: Proto, pc: int)
    requires
        0 <= pc < proto.byte_codes.len(),
        proto.byte_codes[pc] matches ByteCode::Call(func, count) && func + count < s.stack.len()
            && !(s.stack[func as int] is Function),
    ensures
        s.run_from(proto, pc) == (
            s,
            Some(Fault { pc: pc as usize, code: proto.byte_codes[pc], kind: FaultKind::TypeMismatch }),
        ),
{
}

/// A call never takes back what was written.
pub proof fn lemma_call_output(s: State, dst: int, func: int, count: int)
    ensures
        s.output.is_prefix_of(s.enter(func, count).state.output),
        s.output.is_prefix_of(s.call(func, count).state.output),
        s.output.is_prefix_of(s.call_set(dst, func, count).state.output),
{
}

/// An instruction that is no call writes nothing.
pub proof fn lemma_step_output(s: State, proto: Proto, code: ByteCode)
    requires
        !(code is Call),
        !(code is CallSet),
    ensures
        s.step(proto, code).state.output == s.output,
{
    match code {
        ByteCode::GetGlobal(dst, name) => {},
        ByteCode::SetGlobal(name, src) => {},
        ByteCode::SetGlobalConst(name, src) => {},
        ByteCode::SetGlobalGlobal(name, src) => {},
        ByteCode::LoadConst(dst, c) => {},
        ByteCode::LoadNil(dst) => {},
        ByteCode::LoadBool(dst, b) => {},
        ByteCode::LoadInt(dst, i) => {},
        ByteCode::Move(dst, src) => {},
        ByteCode::Call(func, count) => {},
        ByteCode::CallSet(dst, func, count) => {},
        ByteCode::NewTable(dst, _, _) => {},
        ByteCode::SetTable(t, key, src) => {},
        ByteCode::SetField(t, key, src) => {},
        ByteCode::SetInt(t, key, src) => {},
        ByteCode::SetList(t, n) => {},
        ByteCode::GetTable(dst, t, key) => {},
        ByteCode::GetField(dst, t, key) => {},
        ByteCode::GetInt(dst, t, key) => {},
    }
}

/// A run never takes back what was written: the output before it is the
/// start of the output after it.
pub proof fn law_output_grows(s: State, proto: Proto, pc: int)
    ensures
        s.output.is_prefix_of(s.run_from(proto, pc).0.output),
    decreases proto.byte_codes.len() - pc,
{
    if 0 <= pc < proto.byte_codes.len() {
        let code = proto.byte_codes[pc];
        let o = s.step(proto, code);
        match code {
            ByteCode::Call(func, count) => {
                lemma_call_output(s, 0, func as int, count as int);
            },
            ByteCode::CallSet(dst, func, count) => {
                lemma_call_output(s, dst as int, func as int, count as int);
            },
            _ => {
                lemma_step_output(s, proto, code);
            },
        }
        if o.fault is None {
            law_output_grows(o.state, proto, pc + 1);
        }
    }
}

/// A new table is no table that was there: the value that names it names
/// none of the tables before it, and these stay as they were.
pub proof fn law_new_table_is_fresh(s: State, dst: int)
    requires
        s.tables.len() < usize::MAX,
    ensures
        s.new_table(dst) matches Ok(t) ==> t.stack[dst] == Val::<Seq<u8>>::Table(
            s.tables.len() as usize,
        ) && t.tables.len() == s.tables.len() + 1 && t.tables.last() == TableModel::empty()
            && s.tables.is_prefix_of(t.tables),
{
}

/// No instruction takes a table or a counter away: a value that names one
/// names it in every later state of the run.
pub proof fn lemma_step_keeps_tables(s: State, proto: Proto, code: ByteCode)
    ensures
        s.step(proto, code).state.tables.len() >= s.tables.len(),
        s.step(proto, code).state.counters.len() >= s.counters.len(),
{
    match code {
        ByteCode::GetGlobal(dst, name) => {},
        ByteCode::SetGlobal(name, src) => {},
        ByteCode::SetGlobalConst(name, src) => {},
        ByteCode::SetGlobalGlobal(name, src) => {},
        ByteCode::LoadConst(dst, c) => {},
        ByteCode::LoadNil(dst) => {},
        ByteCode::LoadBool(dst, b) => {},
        ByteCode::LoadInt(dst, i) => {},
        ByteCode::Move(dst, src) => {},
        ByteCode::Call(func, count) => {},
        ByteCode::CallSet(dst, func, count) => {},
        ByteCode::NewTable(dst, _, _) => {},
        ByteCode::SetTable(t, key, src) => {},
        ByteCode::SetField(t, key, src) => {},
        ByteCode::SetInt(t, key, src) => {},
        ByteCode::SetList(t, n) => {},
        ByteCode::GetTable(dst, t, key) => {},
        ByteCode::GetField(dst, t, key) => {},
        ByteCode::GetInt(dst, t, key) => {},
    }
}

/// A run takes no table and no counter away.
pub proof fn law_run_keeps_tables(s: State, proto: Proto, pc: int)
    ensures
        s.run_from(proto, pc).0.tables.len() >= s.tables.len(),
        s.run_from(proto, pc).0.counters.len() >= s.counters.len(),
    decreases proto.byte_codes.len() - pc,
{
    if 0 <= pc < proto.byte_codes.len() {
        let o = s.step(proto, proto.byte_codes[pc]);
        lemma_step_keeps_tables(s, proto, proto.byte_codes[pc]);
        if o.fault is None {
            law_run_keeps_tables(o.state, proto, pc + 1);
        }
    }
}

/// A write to a register at or below the top of a stack of at least `h`
/// registers is no fault, and leaves at least the registers that it needs.
pub proof fn lemma_set_stack_in_range(s: State, dst: int, v: ValueModel, h: int)
    requires
        0 <= dst <= h <= s.stack.len(),
    ensures
        s.set_stack(dst, v) matches Ok(t) && t.stack.len() >= grown(h, dst) && t.stack.len()
            >= s.stack.len(),
{
}

/// A function that is called on a stack of at least `h` registers, with
/// itself and its arguments among them, runs to its end or to a fault of
/// type, and takes none of the registers up to its last argument away.
pub proof fn lemma_enter_in_range(s: State, func: int, count: int, h: int)
    requires
        0 <= func,
        0 <= count,
        func + count < h <= s.stack.len(),
    ensures
        s.enter(func, count).fault matches Some(k) ==> k == FaultKind::TypeMismatch,
        s.enter(func, count).fault is None ==> s.enter(func, count).state.stack.len() >= func
            + count + 1,
{
    if let Val::Function(f) = s.stack[func] {
        let entered = State { stack: s.stack.subrange(0, func + count + 1), func_index: func, ..s };
        lemma_native_pushes(entered, f);
    }
}

/// A call that the height `h` allows, on a stack of at least `h`
/// registers, ends well or with a fault of type, and leaves the registers
/// below the function, and the register of its result where that is kept.
pub proof fn lemma_call_in_range(s: State, dst: int, func: int, count: int, h: int)
    requires
        0 <= func,
        0 <= count,
        func + count < h <= s.stack.len(),
    ensures
        s.call(func, count).fault matches Some(k) ==> k == FaultKind::TypeMismatch,
        s.call(func, count).fault is None ==> s.call(func, count).state.stack.len() == func,
        0 <= dst <= func ==> (s.call_set(dst, func, count).fault matches Some(k) ==> k
            == FaultKind::TypeMismatch),
        0 <= dst <= func && s.call_set(dst, func, count).fault is None ==> s.call_set(
            dst,
            func,
            count,
        ).state.stack.len() >= grown(func, dst),
{
    lemma_enter_in_range(s, func, count, h);
    let o = s.enter(func, count);
    if o.fault is None && 0 <= dst <= func {
        let result = if o.state.stack.len() > func + count + 1 {
            o.state.stack[func + count + 1]
        } else {
            Val::Nil
        };
        let left = State { stack: o.state.stack.subrange(0, func), ..o.state };
        lemma_set_stack_in_range(left, dst, result, func);
    }
}

/// An instruction that the height `h` allows, run on a stack of at least
/// `h` registers, reaches no register and no constant out of range: it
/// ends well or with a fault of type, and leaves at least the registers
/// that the height after it says.
pub proof fn lemma_step_in_range(s: State, proto: Proto, code: ByteCode, h: int)
    requires
        0 <= h <= s.stack.len(),
        proto.height_after(code, h) is Some,
    ensures
        s.step(proto, code).fault matches Some(k) ==> k == FaultKind::TypeMismatch,
        s.step(proto, code).fault is None ==> s.step(proto, code).state.stack.len()
            >= proto.height_after(code, h)->0,
{
    match code {
        ByteCode::GetGlobal(dst, name) => {
            lemma_set_stack_in_range(s, dst as int, s.global(name_at(proto, name as int)->Ok_0), h);
        },
        ByteCode::SetGlobal(name, src) => {},
        ByteCode::SetGlobalConst(name, src) => {},
        ByteCode::SetGlobalGlobal(name, src) => {},
        ByteCode::LoadConst(dst, c) => {
            lemma_set_stack_in_range(s, dst as int, proto.constants[c as int], h);
        },
        ByteCode::LoadNil(dst) => {
            lemma_set_stack_in_range(s, dst as int, Val::Nil, h);
        },
        ByteCode::LoadBool(dst, b) => {
            lemma_set_stack_in_range(s, dst as int, Val::Boolean(b), h);
        },
        ByteCode::LoadInt(dst, i) => {
            lemma_set_stack_in_range(s, dst as int, Val::Integer(i as i64), h);
        },
        ByteCode::Move(dst, src) => {
            lemma_set_stack_in_range(s, dst as int, s.stack[src as int], h);
        },
        ByteCode::Call(func, count) => {
            lemma_call_in_range(s, 0, func as int, count as int, h);
        },
        ByteCode::CallSet(dst, func, count) => {
            lemma_call_in_range(s, dst as int, func as int, count as int, h);
        },
        ByteCode::NewTable(dst, _, _) => {
            lemma_set_stack_in_range(s, dst as int, Val::Table(s.tables.len() as usize), h);
        },
        ByteCode::SetTable(t, key, src) => {},
        ByteCode::SetField(t, key, src) => {},
        ByteCode::SetInt(t, key, src) => {},
        ByteCode::SetList(t, n) => {},
        ByteCode::GetTable(dst, t, key) => {
            if let Ok(table) = s.table_at(t as int) {
                lemma_set_stack_in_range(
                    s,
                    dst as int,
                    s.tables[table].get(s.stack[key as int]),
                    h,
                );
            }
        },
        ByteCode::GetField(dst, t, key) => {
            if let Ok(table) = s.table_at(t as int) {
                lemma_set_stack_in_range(
                    s,
                    dst as int,
                    s.tables[table].get(State::field_key(proto, key as int)->Ok_0),
                    h,
                );
            }
        },
        ByteCode::GetInt(dst, t, key) => {
            if let Ok(table) = s.table_at(t as int) {
                lemma_set_stack_in_range(
                    s,
                    dst as int,
                    s.tables[table].get(Val::Integer(key as i64)),
                    h,
                );
            }
        },
    }
}

/// The fault that ends a run of a program whose instructions stay in range
/// is a fault of type: the program's, not the compiler's. This holds of
/// the run from place `pc` on a stack of at least the height before `pc`,
/// and so of every run from the start.
pub proof fn law_in_range_run(s: State, proto: Proto, pc: int)
    requires
        proto.in_range(),
        0 <= pc <= proto.byte_codes.len(),
        proto.height(pc) matches Some(h) && s.stack.len() >= h,
    ensures
        s.run_from(proto, pc).1 matches Some(f) ==> f.kind == FaultKind::TypeMismatch,
    decreases proto.byte_codes.len() - pc,
{
    if pc < proto.byte_codes.len() {
        let code = proto.byte_codes[pc];
        let h = proto.height(pc)->0;
        lemma_height_before(proto, proto.byte_codes.len() as int, pc + 1);
        lemma_height_before(proto, proto.byte_codes.len() as int, pc);
        lemma_step_in_range(s, proto, code, h);
        let o = s.step(proto, code);
        if o.fault is None {
            law_in_range_run(o.state, proto, pc + 1);
        }
    }
}

/// A program whose instructions stay in range, as every program that
/// `load` gives does, ends a run from any state well or with a fault of
/// type: never with a register or a constant out of range.
pub proof fn law_faults_are_the_programs(s: State, proto: Proto)
    requires
        proto.in_range(),
    ensures
        s.run(proto).1 matches Some(f) ==> f.kind == FaultKind::TypeMismatch,
{
    law_in_range_run(s, proto, 0);
}

/// The views of the tables, one for one.
pub open spec fn tables_view(tables: Seq<Table>) -> Seq<TableModel> {
    tables.map_values(|t: Table| t@)
}

/// The state of the executor.
#[derive(Debug)]
pub struct LuaState {
    pub globals: Fields,
    pub stack: Vec<Value>,
    pub func_index: usize,
    pub tables: Vec<Table>,
    pub counters: Vec<i32>,
    pub output: Vec<u8>,
}

impl View for LuaState {
    type V = State;

    open spec fn view(&self) -> State {
        State {
            globals: self.globals@,
            stack: values_view(self.stack@),
            func_index: self.func_index as int,
            tables: tables_view(self.tables@),
            counters: self.counters@,
            output: self.output@,
        }
    }
}

/// The view of a key that an instruction names, or of the fault in naming
/// it.
pub open spec fn key_view(key: Result<Value, FaultKind>) -> Result<ValueModel, FaultKind> {
    match key {
        Ok(k) => Ok(k@),
        Err(e) => Err(e),
    }
}

/// The value of the constant at place `i` of `proto`.
fn constant(proto: &ParseProto, i: usize) -> (r: Result<&Value, FaultKind>)
    ensures
        match constant_at(proto@, i as int) {
            Ok(v) => r matches Ok(c) && c@ == v,
            Err(k) => r matches Err(e) && e == k,
        },
{
    if i < proto.constants.len() {
        Ok(&proto.constants[i])
    } else {
        Err(FaultKind::BadConstant)
    }
}

/// The name that the constant at place `i` of `proto` holds.
fn name_constant(proto: &ParseProto, i: usize) -> (r: Result<&Vec<u8>, FaultKind>)
    ensures
        match name_at(proto@, i as int) {
            Ok(n) => r matches Ok(name) && name@ == n,
            Err(k) => r matches Err(e) && e == k,
        },
{
    match constant(proto, i) {
        Ok(Val::String(name)) => Ok(name),
        Ok(_) => Err(FaultKind::BadConstant),
        Err(k) => Err(k),
    }
}

impl LuaState {
    /// A state with an empty stack, no output, and `print` as its one
    /// global variable.
    pub fn new() -> (state: LuaState)
        ensures
            state@.globals == Map::<ValueModel, ValueModel>::empty().insert(
                Val::String("print".spec_bytes()),
                Val::Function(Native::Print),
            ),
            state@.stack == Seq::<ValueModel>::empty(),
            state@.func_index == 0,
            state@.tables == Seq::<TableModel>::empty(),
            state@.counters == Seq::<i32>::empty(),
            state@.output == Seq::<u8>::empty(),
    {
        let mut globals = Fields::new();
        globals.set(Val::String("print".as_bytes_vec()), Val::Function(Native::Print));
        let state = LuaState {
            globals,
            stack: Vec::new(),
            func_index: 0,
            tables: Vec::new(),
            counters: Vec::new(),
            output: Vec::new(),
        };
        assert(state@.stack =~= Seq::<ValueModel>::empty());
        assert(state@.tables =~= Seq::<TableModel>::empty());
        state
    }

    /// Takes `table` among the state's tables, and gives the value that
    /// names it.
    pub fn new_table(&mut self, table: Table) -> (v: Value)
        ensures
            v@ == Val::<Seq<u8>>::Table(old(self).tables.len()),
            final(self)@ == (State { tables: old(self)@.tables.push(table@), ..old(self)@ }),
    {
        let t = self.tables.len();
        proof {
            assert(tables_view(self.tables@.push(table)) =~= tables_view(self.tables@).push(
                table@,
            ));
        }
        self.tables.push(table);
        Val::Table(t)
    }

    /// The number of arguments of the function that was called last.
    pub fn get_top(&self) -> (n: usize)
        ensures
            n == self@.top(),
    {
        if self.func_index < self.stack.len() {
            self.stack.len() - self.func_index - 1
        } else {
            0
        }
    }

    /// Argument `i` of the function that was called last, counted from 1.
    pub fn get(&self, i: usize) -> (v: &Value)
        requires
            1 <= i <= self@.top(),
        ensures
            v@ == self@.args()[i - 1],
    {
        assert(self@.stack.len() == self.stack.len());
        &self.stack[self.func_index + i]
    }

    /// Pushes `v` as one more register.
    pub fn push(&mut self, v: Value)
        ensures
            final(self)@ == old(self)@.push(v@),
    {
        proof {
            assert(values_view(self.stack@.push(v)) =~= values_view(self.stack@).push(v@));
        }
        self.stack.push(v);
    }

    /// Writes `v` to register `dst`.
    pub fn set_stack(&mut self, dst: u8, v: Value) -> (r: Result<(), FaultKind>)
        ensures
            match old(self)@.set_stack(dst as int, v@) {
                Ok(s) => r is Ok && final(self)@ == s,
                Err(k) => r == Err::<(), FaultKind>(k) && final(self)@ == old(self)@,
            },
    {
        let dst = dst as usize;
        if dst == self.stack.len() {
            self.push(v);
            Ok(())
        } else if dst < self.stack.len() {
            proof {
                assert(values_view(self.stack@.update(dst as int, v)) =~= values_view(
                    self.stack@,
                ).update(dst as int, v@));
            }
            self.stack[dst] = v;
            Ok(())
        } else {
            Err(FaultKind::RegisterOutOfRange)
        }
    }

    /// A copy of the value of register `src`.
    fn register(&self, src: u8) -> (r: Result<Value, FaultKind>)
        ensures
            match self@.register(src as int) {
                Ok(v) => r matches Ok(c) && c@ == v,
                Err(k) => r matches Err(e) && e == k,
            },
    {
        if (src as usize) < self.stack.len() {
            Ok(self.stack[src as usize].clone())
        } else {
            Err(FaultKind::RegisterOutOfRange)
        }
    }

    /// A copy of the value of the global variable `name`.
    pub fn global(&self, name: &Vec<u8>) -> (v: Value)
        ensures
            v@ == self@.global(name@),
    {
        match self.globals.get(&Val::String(name.clone())) {
            Some(v) => v.clone(),
            None => Val::Nil,
        }
    }

    /// Sets the global variable `name` to `v`.
    pub fn set_global(&mut self, name: Vec<u8>, v: Value)
        ensures
            final(self)@ == old(self)@.set_global(name@, v@),
    {
        self.globals.set(Val::String(name), v);
    }

    /// Runs the native function `f` on the arguments on the stack.
    fn call_native(&mut self, f: Native) -> (r: Result<i32, FaultKind>)
        ensures
            final(self)@ == old(self)@.call_native(f).state,
            match old(self)@.call_native(f).fault {
                Some(k) => r == Err::<i32, FaultKind>(k),
                None => r is Ok,
            },
    {
        match f {
            Native::Print => Ok(lua_print(self)),
            Native::Type => lua_type(self),
            Native::Ipairs => ipairs(self),
            Native::IpairsAux => ipairs_aux(self),
            Native::NewCounter => Ok(test_new_counter(self)),
            Native::Counter(c) => count(self, c),
        }
    }

    /// Runs the function in register `func` on the `count` registers after
    /// it, its arguments.
    fn enter(&mut self, func: u8, count: u8) -> (r: Result<(), FaultKind>)
        ensures
            final(self)@ == old(self)@.enter(func as int, count as int).state,
            match old(self)@.enter(func as int, count as int).fault {
                Some(k) => r == Err::<(), FaultKind>(k),
                None => r is Ok && final(self).stack.len() >= func + count + 1,
            },
    {
        let func = func as usize;
        let count = count as usize;
        if func + count >= self.stack.len() {
            return Err(FaultKind::RegisterOutOfRange);
        }
        let f = match &self.stack[func] {
            Val::Function(f) => *f,
            _ => {
                return Err(FaultKind::TypeMismatch);
            },
        };
        proof {
            assert(values_view(self.stack@.subrange(0, func + count + 1)) =~= values_view(
                self.stack@,
            ).subrange(0, func + count + 1));
        }
        self.stack.truncate(func + count + 1);
        self.func_index = func;
        proof {
            lemma_native_pushes(self@, f);
        }
        match self.call_native(f) {
            Ok(_) => Ok(()),
            Err(k) => Err(k),
        }
    }

    /// Calls the function in register `func` with the `count` registers
    /// after it as its arguments, and drops its results.
    fn call(&mut self, func: u8, count: u8) -> (r: Result<(), FaultKind>)
        ensures
            final(self)@ == old(self)@.call(func as int, count as int).state,
            match old(self)@.call(func as int, count as int).fault {
                Some(k) => r == Err::<(), FaultKind>(k),
                None => r is Ok,
            },
    {
        match self.enter(func, count) {
            Ok(()) => {
                proof {
                    assert(values_view(self.stack@.subrange(0, func as int)) =~= values_view(
                        self.stack@,
                    ).subrange(0, func as int));
                }
                self.stack.truncate(func as usize);
                Ok(())
            },
            Err(k) => Err(k),
        }
    }

    /// Calls the function in register `func` with the `count` registers
    /// after it as its arguments, and puts its first result into register
    /// `dst`.
    fn call_set(&mut self, dst: u8, func: u8, count: u8) -> (r: Result<(), FaultKind>)
        ensures
            final(self)@ == old(self)@.call_set(dst as int, func as int, count as int).state,
            match old(self)@.call_set(dst as int, func as int, count as int).fault {
                Some(k) => r == Err::<(), FaultKind>(k),
                None => r is Ok,
            },
    {
        match self.enter(func, count) {
            Ok(()) => {
                let first = func as usize + count as usize + 1;
                let result = if self.stack.len() > first {
                    self.stack[first].clone()
                } else {
                    Val::Nil
                };
                proof {
                    assert(values_view(self.stack@.subrange(0, func as int)) =~= values_view(
                        self.stack@,
                    ).subrange(0, func as int));
                }
                self.stack.truncate(func as usize);
                self.set_stack(dst, result)
            },
            Err(k) => Err(k),
        }
    }

    /// The place of the table that register `r` names.
    fn table_at(&self, r: u8) -> (res: Result<usize, FaultKind>)
        ensures
            match self@.table_at(r as int) {
                Ok(h) => res == Ok::<usize, FaultKind>(h as usize) && h < self.tables.len(),
                Err(k) => res == Err::<usize, FaultKind>(k),
            },
    {
        if (r as usize) >= self.stack.len() {
            return Err(FaultKind::RegisterOutOfRange);
        }
        match &self.stack[r as usize] {
            Val::Table(h) => {
                if *h < self.tables.len() {
                    Ok(*h)
                } else {
                    Err(FaultKind::TypeMismatch)
                }
            },
            _ => Err(FaultKind::TypeMismatch),
        }
    }

    /// Reads the key `key` of the table in register `t` into register `dst`.
    fn get_table(&mut self, dst: u8, t: u8, key: Result<Value, FaultKind>) -> (r: Result<
        (),
        FaultKind,
    >)
        ensures
            match old(self)@.get_table(dst as int, t as int, key_view(key)) {
                Ok(s) => r is Ok && final(self)@ == s,
                Err(k) => r == Err::<(), FaultKind>(k) && final(self)@ == old(self)@,
            },
    {
        let h = match self.table_at(t) {
            Ok(h) => h,
            Err(e) => {
                return Err(e);
            },
        };
        let k = match key {
            Ok(k) => k,
            Err(e) => {
                return Err(e);
            },
        };
        let v = self.tables[h].get(k);
        self.set_stack(dst, v)
    }

    /// Sets the key `key` of the table in register `t` to the value of
    /// register `src`.
    fn set_table(&mut self, t: u8, key: Result<Value, FaultKind>, src: u8) -> (r: Result<
        (),
        FaultKind,
    >)
        ensures
            match old(self)@.set_table(t as int, key_view(key), src as int) {
                Ok(s) => r is Ok && final(self)@ == s,
                Err(k) => r == Err::<(), FaultKind>(k) && final(self)@ == old(self)@,
            },
    {
        let h = match self.table_at(t) {
            Ok(h) => h,
            Err(e) => {
                return Err(e);
            },
        };
        let k = match key {
            Ok(k) => k,
            Err(e) => {
                return Err(e);
            },
        };
        let v = match self.register(src) {
            Ok(v) => v,
            Err(e) => {
                return Err(e);
            },
        };
        if let Val::Nil = k {
            return Err(FaultKind::TypeMismatch);
        }
        proof {
            let changed = self.tables@[h as int]@.set(k@, v@);
            assert forall|t: Table| t@ == changed implies #[trigger] tables_view(
                self.tables@.update(h as int, t),
            ) == tables_view(self.tables@).update(h as int, changed) by {
                assert(tables_view(self.tables@.update(h as int, t)) =~= tables_view(
                    self.tables@,
                ).update(h as int, changed));
            }
        }
        self.tables[h].set(k, v);
        Ok(())
    }

    /// Puts the values of the `n` registers after `t` behind the array part
    /// of the table in register `t`.
    fn set_list(&mut self, t: u8, n: u8) -> (r: Result<(), FaultKind>)
        ensures
            match old(self)@.set_list(t as int, n as int) {
                Ok(s) => r is Ok && final(self)@ == s,
                Err(k) => r == Err::<(), FaultKind>(k) && final(self)@ == old(self)@,
            },
    {
        let h = match self.table_at(t) {
            Ok(h) => h,
            Err(e) => {
                return Err(e);
            },
        };
        let first = t as usize + 1;
        let end = first + n as usize;
        if end > self.stack.len() {
            return Err(FaultKind::RegisterOutOfRange);
        }
        let ghost before = self.stack@;
        self.stack.truncate(end);
        let items = self.stack.split_off(first);
        proof {
            assert(items@ =~= before.subrange(first as int, end as int));
            assert(self.stack@ =~= before.subrange(0, first as int));
            assert(values_view(items@) =~= values_view(before).subrange(first as int, end as int));
            assert(values_view(self.stack@) =~= values_view(before).subrange(0, first as int));
            let changed = self.tables@[h as int]@.append(values_view(items@));
            assert forall|t: Table| t@ == changed implies #[trigger] tables_view(
                self.tables@.update(h as int, t),
            ) == tables_view(self.tables@).update(h as int, changed) by {
                assert(tables_view(self.tables@.update(h as int, t)) =~= tables_view(
                    self.tables@,
                ).update(h as int, changed));
            }
        }
        self.tables[h].append(items);
        Ok(())
    }

    /// The string that the constant at place `i` of `proto` holds, as a key.
    fn field_key(proto: &ParseProto, i: u8) -> (r: Result<Value, FaultKind>)
        ensures
            key_view(r) == State::field_key(proto@, i as int),
    {
        match name_constant(proto, i as usize) {
            Ok(name) => Ok(Val::String(name.clone())),
            Err(k) => Err(k),
        }
    }

    /// Executes the instruction `code` of `proto`.
    pub fn execute(&mut self, proto: &ParseProto, code: ByteCode) -> (r: Result<(), FaultKind>)
        ensures
            final(self)@ == old(self)@.step(proto@, code).state,
            match old(self)@.step(proto@, code).fault {
                Some(k) => r == Err::<(), FaultKind>(k),
                None => r is Ok,
            },
    {
        match code {
            ByteCode::GetGlobal(dst, name) => {
                let v = match name_constant(proto, name as usize) {
                    Ok(n) => self.global(n),
                    Err(k) => {
                        return Err(k);
                    },
                };
                self.set_stack(dst, v)
            },
            ByteCode::SetGlobal(name, src) => {
                let n = match name_constant(proto, name as usize) {
                    Ok(n) => n.clone(),
                    Err(k) => {
                        return Err(k);
                    },
                };
                let v = match self.register(src) {
                    Ok(v) => v,
                    Err(k) => {
                        return Err(k);
                    },
                };
                self.set_global(n, v);
                Ok(())
            },
            ByteCode::SetGlobalConst(name, src) => {
                let n = match name_constant(proto, name as usize) {
                    Ok(n) => n.clone(),
                    Err(k) => {
                        return Err(k);
                    },
                };
                let v = match constant(proto, src as usize) {
                    Ok(v) => v.clone(),
                    Err(k) => {
                        return Err(k);
                    },
                };
                self.set_global(n, v);
                Ok(())
            },
            ByteCode::SetGlobalGlobal(name, src) => {
                let n = match name_constant(proto, name as usize) {
                    Ok(n) => n.clone(),
                    Err(k) => {
                        return Err(k);
                    },
                };
                let v = match name_constant(proto, src as usize) {
                    Ok(m) => self.global(m),
                    Err(k) => {
                        return Err(k);
                    },
                };
                self.set_global(n, v);
                Ok(())
            },
            ByteCode::LoadConst(dst, c) => {
                let v = match constant(proto, c as usize) {
                    Ok(v) => v.clone(),
                    Err(k) => {
                        return Err(k);
                    },
                };
                self.set_stack(dst, v)
            },
            ByteCode::LoadNil(dst) => self.set_stack(dst, Val::Nil),
            ByteCode::LoadBool(dst, b) => self.set_stack(dst, Val::Boolean(b)),
            ByteCode::LoadInt(dst, i) => self.set_stack(dst, Val::Integer(i as i64)),
            ByteCode::Move(dst, src) => {
                let v = match self.register(src) {
                    Ok(v) => v,
                    Err(k) => {
                        return Err(k);
                    },
                };
                self.set_stack(dst, v)
            },
            ByteCode::Call(func, count) => self.call(func, count),
            ByteCode::CallSet(dst, func, count) => self.call_set(dst, func, count),
            ByteCode::NewTable(dst, narray, nmap) => {
                let h = self.tables.len();
                match self.set_stack(dst, Val::Table(h)) {
                    Ok(()) => {
                        let _ = self.new_table(Table::new());
                        Ok(())
                    },
                    Err(k) => Err(k),
                }
            },
            ByteCode::SetTable(t, key, src) => {
                let k = self.register(key);
                self.set_table(t, k, src)
            },
            ByteCode::SetField(t, key, src) => self.set_table(
                t,
                LuaState::field_key(proto, key),
                src,
            ),
            ByteCode::SetInt(t, key, src) => self.set_table(t, Ok(Val::Integer(key as i64)), src),
            ByteCode::SetList(t, n) => self.set_list(t, n),
            ByteCode::GetTable(dst, t, key) => {
                let k = self.register(key);
                self.get_table(dst, t, k)
            },
            ByteCode::GetField(dst, t, key) => self.get_table(
                dst,
                t,
                LuaState::field_key(proto, key),
            ),
            ByteCode::GetInt(dst, t, key) => self.get_table(dst, t, Ok(Val::Integer(key as i64))),
        }
    }

    /// Runs `proto` from its first instruction to its last, or to the first
    /// fault. Gives 0 after the last instruction, else the fault. A program
    /// that `load` gave faults for reasons of type only.
    ///
    /// `narg`, `nres` and `base` say how a run is entered as a call, with
    /// arguments and results on the stack; the run of a whole program has
    /// none and takes no notice of them.
    pub fn run(&mut self, proto: &ParseProto, narg: u8, nres: u8, base: u8) -> (r: Result<
        i32,
        Fault,
    >)
        ensures
            final(self)@ == old(self)@.run(proto@).0,
            match old(self)@.run(proto@).1 {
                Some(fault) => r == Err::<i32, Fault>(fault),
                None => r == Ok::<i32, Fault>(0),
            },
            proto@.in_range() ==> (r matches Err(fault) ==> fault.kind == FaultKind::TypeMismatch),
    {
        proof {
            if proto@.in_range() {
                law_faults_are_the_programs(self@, proto@);
            }
        }
        let mut pc: usize = 0;
        while pc < proto.byte_codes.len()
            invariant
                pc <= proto.byte_codes.len(),
                old(self)@.run(proto@) == self@.run_from(proto@, pc as int),
                proto@.in_range() ==> (old(self)@.run(proto@).1 matches Some(f) ==> f.kind
                    == FaultKind::TypeMismatch),
            decreases proto.byte_codes.len() - pc,
        {
            let code = proto.byte_codes[pc];
            if let Err(kind) = self.execute(proto, code) {
                return Err(Fault { pc, code, kind });
            }
            pc += 1;
        }
        Ok(0)
    }
}

} // verus!
