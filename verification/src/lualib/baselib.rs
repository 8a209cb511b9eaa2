//! `print` and `type`.
use vstd::prelude::*;
use crate::value::{write_bytes, Val};
use crate::vm::{joined, FaultKind, LuaState};

verus! {

/// `print`: writes the texts of its arguments to the state's output, with
/// tabs between them and a line feed after them. It has no results.
pub fn lua_print(state: &mut LuaState) -> (n: i32)
    ensures
        final(state)@ == old(state)@.print(),
        n == 0,
{
    let top = state.get_top();
    let ghost args = state@.args();
    let ghost before = state.output@;
    let mut i: usize = 1;
    assert(top < usize::MAX) by {
        assert(state@.stack.len() == state.stack.len());
    }
    while i <= top
        invariant
            1 <= i <= top + 1,
            top < usize::MAX,
            top == state@.top(),
            args == state@.args(),
            state@ == (crate::vm::State { output: state.output@, ..old(state)@ }),
            state.output@ == before + joined(args.subrange(0, i - 1)),
        decreases top + 1 - i,
    {
        let ghost so_far = state.output@;
        if i != 1 {
            state.output.push('\t' as u8);
        }
        let text = state.get(i).to_text();
        write_bytes(&text, &mut state.output);
        proof {
            let now = args.subrange(0, i as int);
            assert(now.drop_last() =~= args.subrange(0, i - 1));
            assert(now.last() == args[i - 1]);
            if i == 1 {
                assert(joined(args.subrange(0, 0)) =~= Seq::<u8>::empty());
            }
            assert(state.output@ =~= before + joined(now));
        }
        i += 1;
    }
    state.output.push('\n' as u8);
    proof {
        assert(args.subrange(0, top as int) =~= args);
        assert(state.output@ =~= before + joined(args) + seq!['\n' as u8]);
    }
    0
}

/// `type`: pushes the name of its first argument's type. It has one result.
pub fn lua_type(state: &mut LuaState) -> (r: Result<i32, FaultKind>)
    ensures
        final(state)@ == old(state)@.lua_type().state,
        match old(state)@.lua_type().fault {
            Some(k) => r == Err::<i32, FaultKind>(k),
            None => r == Ok::<i32, FaultKind>(1),
        },
{
    if state.get_top() < 1 {
        return Err(FaultKind::TypeMismatch);
    }
    let ty = state.get(1).ty();
    state.push(Val::String(ty));
    Ok(1)
}

} // verus!
