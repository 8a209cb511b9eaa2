//! The instruction set that the compiler emits and the executor runs.
use vstd::prelude::*;

verus! {

/// One instruction. Registers are slots of the value stack, counted from its
/// bottom; constants are slots of the prototype's constant pool.
#[derive(Clone, Copy, Debug, PartialEq, Eq, Structural)]
pub enum ByteCode {
    /// `GetGlobal(dst, name)`: reads the global named by constant `name` into
    /// register `dst`; a global that was never set reads as nil.
    GetGlobal(u8, u8),
    /// `SetGlobal(name, src)`: sets the global named by constant `name` to the
    /// value of register `src`.
    SetGlobal(u8, u8),
    /// `SetGlobalConst(name, src)`: sets the global named by constant `name`
    /// to constant `src`.
    SetGlobalConst(u8, u8),
    /// `SetGlobalGlobal(name, src)`: sets the global named by constant `name`
    /// to the value of the global named by constant `src`.
    SetGlobalGlobal(u8, u8),
    /// `LoadConst(dst, c)`: copies constant `c` into register `dst`.
    LoadConst(u8, u16),
    /// `LoadNil(dst)`: puts nil into register `dst`.
    LoadNil(u8),
    /// `LoadBool(dst, b)`: puts the boolean `b` into register `dst`.
    LoadBool(u8, bool),
    /// `LoadInt(dst, i)`: puts the small integer `i` into register `dst`.
    LoadInt(u8, i16),
    /// `Move(dst, src)`: copies register `src` into register `dst`.
    Move(u8, u8),
    /// `Call(func, nargs)`: calls the function in register `func` with the
    /// `nargs` registers after it as its arguments, and drops its results.
    Call(u8, u8),
    /// `CallSet(dst, func, nargs)`: calls the function in register `func` with
    /// the `nargs` registers after it as its arguments, and puts its first
    /// result, or nil where it has none, into register `dst`.
    CallSet(u8, u8, u8),
    /// `NewTable(dst, narray, nmap)`: puts a new, empty table into register
    /// `dst`. `narray` and `nmap` say how many items its constructor lists
    /// for the array part and for the map: hints, which change no result.
    NewTable(u8, u8, u8),
    /// `SetTable(t, key, src)`: in the table in register `t`, sets the key
    /// in register `key` to the value of register `src`.
    SetTable(u8, u8, u8),
    /// `SetField(t, key, src)`: in the table in register `t`, sets the key
    /// named by constant `key` to the value of register `src`.
    SetField(u8, u8, u8),
    /// `SetInt(t, key, src)`: in the table in register `t`, sets the integer
    /// key `key` to the value of register `src`.
    SetInt(u8, u8, u8),
    /// `SetList(t, n)`: puts the values of the `n` registers after `t` behind
    /// the array part of the table in register `t`, and cuts the stack
    /// after `t`.
    SetList(u8, u8),
    /// `GetTable(dst, t, key)`: reads the key in register `key` of the table
    /// in register `t` into register `dst`.
    GetTable(u8, u8, u8),
    /// `GetField(dst, t, key)`: reads the key named by constant `key` of the
    /// table in register `t` into register `dst`.
    GetField(u8, u8, u8),
    /// `GetInt(dst, t, key)`: reads the integer key `key` of the table in
    /// register `t` into register `dst`.
    GetInt(u8, u8, u8),
}

} // verus!
