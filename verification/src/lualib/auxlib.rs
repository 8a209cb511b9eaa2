//! `ipairs` and its step function, and counters.
use vstd::prelude::*;
use vstd::string::{StrSliceExecFns, StringSliceAdditionalSpecFns};
use crate::number::{int_text, write_int};
use crate::value::{values_view, write_bytes, Native, Val};
use crate::vm::{FaultKind, LuaState};

verus! {

/// `test_new_counter`: makes a new counter at count 0 and pushes the
/// function that counts on it, its one result.
pub fn test_new_counter(state: &mut LuaState) -> (n: i32)
    ensures
        final(state)@ == old(state)@.new_counter(),
        n == 1,
{
    let c = state.counters.len();
    state.counters.push(0);
    state.push(Val::Function(Native::Counter(c)));
    1
}

/// The function that counts on counter `c`: the counter counts one more,
/// and `counter: ` with the new count is written as a line of output. It
/// has no results.
pub fn count(state: &mut LuaState, c: usize) -> (r: Result<i32, FaultKind>)
    ensures
        final(state)@ == old(state)@.count(c as int).state,
        match old(state)@.count(c as int).fault {
            Some(k) => r == Err::<i32, FaultKind>(k),
            None => r == Ok::<i32, FaultKind>(0),
        },
{
    if c >= state.counters.len() {
        return Err(FaultKind::TypeMismatch);
    }
    let i = state.counters[c];
    let n = if i == i32::MAX {
        i32::MIN
    } else {
        i + 1
    };
    state.counters[c] = n;
    let ghost before = state.output@;
    write_bytes(&"counter: ".as_bytes_vec(), &mut state.output);
    write_int(n as i64, &mut state.output);
    state.output.push('\n' as u8);
    proof {
        assert(state.output@ =~= before + "counter: ".spec_bytes() + int_text(n as int) + seq!['\n' as u8]);
    }
    Ok(0)
}

/// The step function of `ipairs`, called with a table and a count `i`:
/// where the table's array part has an item `i`, counted from 0, it pushes
/// `i + 1` and that item, its two results; else it has none.
pub fn ipairs_aux(state: &mut LuaState) -> (r: Result<i32, FaultKind>)
    ensures
        final(state)@ == old(state)@.ipairs_aux().state,
        match old(state)@.ipairs_aux().fault {
            Some(k) => r == Err::<i32, FaultKind>(k),
            None => r == Ok::<i32, FaultKind>(
                (final(state)@.stack.len() - old(state)@.stack.len()) as i32,
            ),
        },
{
    if state.get_top() < 1 {
        return Err(FaultKind::TypeMismatch);
    }
    let t = match state.get(1) {
        Val::Table(t) => *t,
        _ => {
            return Err(FaultKind::TypeMismatch);
        },
    };
    if t >= state.tables.len() {
        return Err(FaultKind::TypeMismatch);
    }
    if state.get_top() < 2 {
        return Err(FaultKind::TypeMismatch);
    }
    let i = match state.get(2) {
        Val::Integer(i) => *i,
        _ => {
            return Err(FaultKind::TypeMismatch);
        },
    };
    if i < 0 || i as u64 >= state.tables[t].array.len() as u64 {
        return Ok(0);
    }
    let v = state.tables[t].array[i as usize].clone();
    proof {
        let array = state.tables@[t as int].array@;
        assert(state@.tables[t as int].array == values_view(array));
        assert(values_view(array)[i as int] == array[i as int]@);
    }
    let next = if i == i64::MAX {
        i64::MIN
    } else {
        i + 1
    };
    state.push(Val::Integer(next));
    state.push(v);
    Ok(2)
}

/// `ipairs`: pushes the step function, its first argument and the integer
/// 0, its three results.
pub fn ipairs(state: &mut LuaState) -> (r: Result<i32, FaultKind>)
    ensures
        final(state)@ == old(state)@.ipairs().state,
        match old(state)@.ipairs().fault {
            Some(k) => r == Err::<i32, FaultKind>(k),
            None => r == Ok::<i32, FaultKind>(3),
        },
{
    if state.get_top() < 1 {
        return Err(FaultKind::TypeMismatch);
    }
    let table = state.get(1).clone();
    state.push(Val::Function(Native::IpairsAux));
    state.push(table);
    state.push(Val::Integer(0));
    Ok(3)
}

} // verus!
