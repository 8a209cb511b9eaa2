//! The compiler: from tokens straight to bytecode, one statement at a time.
use vstd::prelude::*;
use crate::bytecode::ByteCode;
use crate::lex::{stream_of, Lex, LexError, Stream, Tok, Token, TokenModel};
use crate::value::{bytes_eq, values_view, Val, Value, ValueModel};

verus! {

/// Why some input is no program.
#[derive(Clone, Copy, Debug, PartialEq, Eq, Structural)]
pub enum ParseError {
    /// The bytes where the next token was to start are no token.
    Lex(LexError),
    /// A statement starts with a token that starts none.
    UnexpectedToken,
    /// `local` is not followed by a name.
    ExpectedName,
    /// The name after `local` is not followed by `=`.
    ExpectedAssign,
    /// A statement that starts with a variable goes on neither as an
    /// assignment nor as a call: where the arguments of a call were to
    /// stand, there is neither `(` nor a string.
    ExpectedArguments,
    /// An argument of a call is followed neither by `,` nor by `)`.
    ExpectedRightParen,
    /// Where an expression was to stand, there is none.
    ExpectedExpression,
    /// The key of an index is not followed by `]`.
    ExpectedRightSquare,
    /// A field of a table constructor is followed neither by `,` or `;` nor
    /// by `}`.
    ExpectedRightCurly,
    /// The program needs a register above 255.
    TooManyRegisters,
    /// The program needs a constant beyond what its instruction can name.
    TooManyConstants,
}

/// What the compiler has built: the constant pool, the instructions, and
/// the names of the local variables, each at the place of its register.
pub struct Proto {
    pub constants: Seq<ValueModel>,
    pub byte_codes: Seq<ByteCode>,
    pub locals: Seq<Seq<u8>>,
}

/// The first place at or after `from` where `cs` holds `v`, and the length
/// of `cs` where it holds `v` at none of them.
pub open spec fn first_index(cs: Seq<ValueModel>, v: ValueModel, from: int) -> int
    decreases cs.len() - from,
{
    if from < 0 || from >= cs.len() {
        cs.len() as int
    } else if cs[from] == v {
        from
    } else {
        first_index(cs, v, from + 1)
    }
}

/// The last place where `names` holds `name`.
pub open spec fn last_index(names: Seq<Seq<u8>>, name: Seq<u8>) -> Option<int>
    decreases names.len(),
{
    if names.len() == 0 {
        None
    } else if names.last() == name {
        Some(names.len() - 1)
    } else {
        last_index(names.drop_last(), name)
    }
}

/// No value stands twice in `cs`.
pub open spec fn distinct(cs: Seq<ValueModel>) -> bool {
    forall|i: int, j: int| 0 <= i < j < cs.len() ==> cs[i] != cs[j]
}

/// `n` as the number of a register.
pub open spec fn register(n: int) -> Result<u8, ParseError> {
    if 0 <= n <= 255 {
        Ok(n as u8)
    } else {
        Err(ParseError::TooManyRegisters)
    }
}

impl Proto {
    /// Nothing compiled yet.
    pub open spec fn empty() -> Proto {
        Proto { constants: Seq::empty(), byte_codes: Seq::empty(), locals: Seq::empty() }
    }

    /// With `code` as one more instruction.
    pub open spec fn emit(self, code: ByteCode) -> Proto {
        Proto { byte_codes: self.byte_codes.push(code), ..self }
    }

    /// With `name` as one more local variable, in the next register.
    pub open spec fn declare(self, name: Seq<u8>) -> Proto {
        Proto { locals: self.locals.push(name), ..self }
    }

    /// The constant pool holding `v`, and the place where it holds it: the
    /// place of the first constant equal to `v`, or a new last place.
    pub open spec fn add_const(self, v: ValueModel) -> (Proto, int) {
        let i = first_index(self.constants, v, 0);
        if i == self.constants.len() {
            (Proto { constants: self.constants.push(v), ..self }, i)
        } else {
            (self, i)
        }
    }

    /// The register of the local variable `name`: that of its latest
    /// declaration.
    pub open spec fn get_local(self, name: Seq<u8>) -> Option<int> {
        last_index(self.locals, name)
    }

    /// The instruction that loads the constant `v` into register `dst`.
    pub open spec fn load_const(self, dst: int, v: ValueModel) -> Result<
        (Proto, ByteCode),
        ParseError,
    > {
        let (p, i) = self.add_const(v);
        if register(dst) is Err {
            Err(ParseError::TooManyRegisters)
        } else if i > 0xffff {
            Err(ParseError::TooManyConstants)
        } else {
            Ok((p, ByteCode::LoadConst(dst as u8, i as u16)))
        }
    }

    /// The place of the name `name` in the constant pool, for an instruction
    /// that reaches a global variable.
    pub open spec fn global_name(self, name: Seq<u8>) -> Result<(Proto, u8), ParseError> {
        let (p, i) = self.add_const(Val::String(name));
        if i > 0xff {
            Err(ParseError::TooManyConstants)
        } else {
            Ok((p, i as u8))
        }
    }

    /// The instruction that loads the variable `name` into register `dst`:
    /// a move from its register where it is local, else a read of the global.
    pub open spec fn load_var(self, dst: int, name: Seq<u8>) -> Result<
        (Proto, ByteCode),
        ParseError,
    > {
        if register(dst) is Err {
            Err(ParseError::TooManyRegisters)
        } else {
            match self.get_local(name) {
                Some(i) => match register(i) {
                    Ok(src) => Ok((self, ByteCode::Move(dst as u8, src))),
                    Err(e) => Err(e),
                },
                None => match self.global_name(name) {
                    Ok((p, i)) => Ok((p, ByteCode::GetGlobal(dst as u8, i))),
                    Err(e) => Err(e),
                },
            }
        }
    }

    /// With `code` in the place of the instruction at place `at`.
    pub open spec fn patch(self, at: int, code: ByteCode) -> Proto {
        Proto { byte_codes: self.byte_codes.update(at, code), ..self }
    }

    /// Compiles the expression at the start of `src` into register `dst`;
    /// the registers above `dst` serve it where it needs more.
    ///
    /// This function and those after it take a stream of tokens and give
    /// the stream that is left. Where one of them goes on with what another
    /// left, it first tests that tokens were taken, so that it is plain
    /// that it comes to an end; the laws on what is consumed show that the
    /// test never fails.
    #[verifier::opaque]
    pub open spec fn load_exp(self, src: Stream, dst: int) -> Result<(Proto, Stream), ParseError>
        decreases src.tokens.len(), 2int,
    {
        match src.first() {
            Err(e) => Err(ParseError::Lex(e)),
            Ok(None) => Err(ParseError::ExpectedExpression),
            Ok(Some(t)) => self.exp_after(t, src.rest(), dst),
        }
    }

    /// Compiles into register `dst` the expression that starts with the
    /// token `t`, which `src` follows: a literal, a table constructor, or a
    /// variable with the keys and calls that follow it.
    #[verifier::opaque]
    pub open spec fn exp_after(self, t: TokenModel, src: Stream, dst: int) -> Result<
        (Proto, Stream),
        ParseError,
    >
        decreases src.tokens.len(), 4int,
    {
        if register(dst) is Err {
            Err(ParseError::TooManyRegisters)
        } else {
            match t {
                Tok::Nil => Ok((self.emit(ByteCode::LoadNil(dst as u8)), src)),
                Tok::True => Ok((self.emit(ByteCode::LoadBool(dst as u8, true)), src)),
                Tok::False => Ok((self.emit(ByteCode::LoadBool(dst as u8, false)), src)),
                Tok::Integer(i) => if i16::MIN <= i <= i16::MAX {
                    Ok((self.emit(ByteCode::LoadInt(dst as u8, i as i16)), src))
                } else {
                    self.emit_const(src, dst, Val::Integer(i))
                },
                Tok::Float(d) => self.emit_const(src, dst, Val::Float(d)),
                Tok::String(s) => self.emit_const(src, dst, Val::String(s)),
                Tok::Name(name) => match self.load_var(dst, name) {
                    Ok((p, code)) => p.emit(code).suffixes(src, dst),
                    Err(e) => Err(e),
                },
                Tok::CurlyL => {
                    let at = self.byte_codes.len() as int;
                    match self.emit(ByteCode::NewTable(dst as u8, 0, 0)).fields(src, dst, 0, 0, 0) {
                        Ok((p, after, narray, nmap)) => Ok(
                            (p.patch(at, ByteCode::NewTable(dst as u8, hint(narray), hint(nmap))), after),
                        ),
                        Err(e) => Err(e),
                    }
                },
                _ => Err(ParseError::ExpectedExpression),
            }
        }
    }

    /// With the instruction that loads the constant `v` into register `dst`.
    pub open spec fn emit_const(self, src: Stream, dst: int, v: ValueModel) -> Result<
        (Proto, Stream),
        ParseError,
    > {
        match self.load_const(dst, v) {
            Ok((p, code)) => Ok((p.emit(code), src)),
            Err(e) => Err(e),
        }
    }

    /// Compiles the key at the start of `src`, `[exp]` or `.Name`, of the
    /// table in register `r`. A small integer and a name are held by the
    /// instruction itself; any other key is computed into register `r + 1`.
    #[verifier::opaque]
    pub open spec fn key(self, src: Stream, r: int) -> Result<(Proto, Stream, KeyRef), ParseError>
        decreases src.tokens.len(), 0int,
    {
        match src.first() {
            Err(e) => Err(ParseError::Lex(e)),
            Ok(Some(Tok::SqurL)) => match src.rest().first() {
                Ok(Some(Tok::Integer(i))) if 0 <= i <= 255 => match src.rest().rest().first() {
                    Err(e) => Err(ParseError::Lex(e)),
                    Ok(Some(Tok::SqurR)) => Ok(
                        (self, src.rest().rest().rest(), KeyRef::Integer(i as u8)),
                    ),
                    _ => Err(ParseError::ExpectedRightSquare),
                },
                _ => match self.load_exp(src.rest(), r + 1) {
                    Err(e) => Err(e),
                    Ok((p, after)) => match after.first() {
                        Err(e) => Err(ParseError::Lex(e)),
                        Ok(Some(Tok::SqurR)) => Ok(
                            (p, after.rest(), KeyRef::Register((r + 1) as u8)),
                        ),
                        _ => Err(ParseError::ExpectedRightSquare),
                    },
                },
            },
            Ok(Some(Tok::Dot)) => match src.rest().first() {
                Err(e) => Err(ParseError::Lex(e)),
                Ok(Some(Tok::Name(name))) => match self.global_name(name) {
                    Ok((p, c)) => Ok((p, src.rest().rest(), KeyRef::Field(c))),
                    Err(e) => Err(e),
                },
                _ => Err(ParseError::ExpectedName),
            },
            _ => Err(ParseError::UnexpectedToken),
        }
    }

    /// Compiles what follows a variable in an expression, keys and calls:
    /// each key is read of what register `dst` holds, and each call calls
    /// it, with the result in register `dst` again.
    #[verifier::opaque]
    pub open spec fn suffixes(self, src: Stream, dst: int) -> Result<(Proto, Stream), ParseError>
        decreases src.tokens.len(), 1int,
    {
        if starts_key(src) {
            match self.key(src, dst) {
                Err(e) => Err(e),
                Ok((p, after, k)) => if after.tokens.len() < src.tokens.len() {
                    p.emit(get_code(dst as u8, dst as u8, k)).suffixes(after, dst)
                } else {
                    Err(ParseError::UnexpectedToken)
                },
            }
        } else if starts_args(src) {
            match self.args(src, dst) {
                Err(e) => Err(e),
                Ok((p, after, count)) => if after.tokens.len() < src.tokens.len() {
                    p.emit(ByteCode::CallSet(dst as u8, dst as u8, count as u8)).suffixes(
                        after,
                        dst,
                    )
                } else {
                    Err(ParseError::UnexpectedToken)
                },
            }
        } else {
            Ok((self, src))
        }
    }

    /// With the instruction that puts the `pending` listed items into the
    /// table in register `dst`, where there are any.
    pub open spec fn flush(self, dst: int, pending: int) -> Proto {
        if pending > 0 {
            self.emit(ByteCode::SetList(dst as u8, pending as u8))
        } else {
            self
        }
    }

    /// Compiles the field `Name = exp` of a table constructor, from the
    /// expression on: the value is computed into register `free` and set
    /// under the key `name` in the table in register `dst`.
    #[verifier::opaque]
    pub open spec fn record_field(self, src: Stream, name: Seq<u8>, dst: int, free: int) -> Result<
        (Proto, Stream),
        ParseError,
    >
        decreases src.tokens.len(), 5int,
    {
        match self.global_name(name) {
            Err(e) => Err(e),
            Ok((p, c)) => match p.load_exp(src, free) {
                Err(e) => Err(e),
                Ok((q1, after)) => Ok(
                    (q1.emit(ByteCode::SetField(dst as u8, c, free as u8)), after),
                ),
            },
        }
    }

    /// Compiles the field `[exp] = exp` of a table constructor, from the
    /// first expression on: the key is computed into register `free`, the
    /// value into the register after it, and the key is set in the table in
    /// register `dst`.
    #[verifier::opaque]
    pub open spec fn bracket_field(self, src: Stream, dst: int, free: int) -> Result<
        (Proto, Stream),
        ParseError,
    >
        decreases src.tokens.len(), 5int,
    {
        match self.load_exp(src, free) {
            Err(e) => Err(e),
            Ok((p, after)) => match (after.first(), after.rest().first()) {
                (Err(e), _) => Err(ParseError::Lex(e)),
                (Ok(Some(Tok::SqurR)), Err(e)) => Err(ParseError::Lex(e)),
                (Ok(Some(Tok::SqurR)), Ok(Some(Tok::Assign))) => if after.tokens.len()
                    <= src.tokens.len() {
                    match p.load_exp(after.rest().rest(), free + 1) {
                        Err(e) => Err(e),
                        Ok((q1, after1)) => Ok(
                            (
                                q1.emit(
                                    ByteCode::SetTable(dst as u8, free as u8, (free + 1) as u8),
                                ),
                                after1,
                            ),
                        ),
                    }
                } else {
                    Err(ParseError::ExpectedRightSquare)
                },
                (Ok(Some(Tok::SqurR)), _) => Err(ParseError::ExpectedAssign),
                _ => Err(ParseError::ExpectedRightSquare),
            },
        }
    }

    /// Compiles the field of a table constructor that starts with the token
    /// `t`, which `src` follows, for the table in register `dst`: `Name =
    /// exp` and `[exp] = exp` set a key; any other expression is a listed
    /// item, which is left in register `free` (the result says so).
    #[verifier::opaque]
    pub open spec fn field_after(self, t: TokenModel, src: Stream, dst: int, free: int) -> Result<
        (Proto, Stream, bool),
        ParseError,
    >
        decreases src.tokens.len(), 6int,
    {
        match t {
            Tok::Name(name) if src.first() == Ok::<Option<TokenModel>, LexError>(
                Some(Tok::Assign),
            ) => match self.record_field(src.rest(), name, dst, free) {
                Err(e) => Err(e),
                Ok((p, after)) => Ok((p, after, false)),
            },
            Tok::SqurL => match self.bracket_field(src, dst, free) {
                Err(e) => Err(e),
                Ok((p, after)) => Ok((p, after, false)),
            },
            _ => match self.exp_after(t, src, free) {
                Err(e) => Err(e),
                Ok((p, after)) => Ok((p, after, true)),
            },
        }
    }

    /// Compiles the fields of a table constructor from the start of `src`
    /// through the closing `}`, for the table in register `dst`; gives the
    /// numbers of listed and of keyed fields too. `pending` listed items
    /// wait in the registers after `dst` to be put into the table, which
    /// is done for every 50 of them; `narray` and `nmap` fields were
    /// compiled.
    #[verifier::opaque]
    pub open spec fn fields(
        self,
        src: Stream,
        dst: int,
        pending: int,
        narray: int,
        nmap: int,
    ) -> Result<(Proto, Stream, int, int), ParseError>
        decreases src.tokens.len(), 3int,
    {
        match src.first() {
            Err(e) => Err(ParseError::Lex(e)),
            Ok(None) => Err(ParseError::ExpectedExpression),
            Ok(Some(Tok::CurlyR)) => Ok((self.flush(dst, pending), src.rest(), narray, nmap)),
            Ok(Some(t)) => match self.field_after(t, src.rest(), dst, dst + 1 + pending) {
                Err(e) => Err(e),
                Ok((p, after, listed)) => {
                    let full = listed && pending + 1 == 50;
                    let q1 = if full {
                        p.flush(dst, 50)
                    } else {
                        p
                    };
                    let waiting = if full {
                        0
                    } else if listed {
                        pending + 1
                    } else {
                        pending
                    };
                    let na = if listed {
                        narray + 1
                    } else {
                        narray
                    };
                    let nm = if listed {
                        nmap
                    } else {
                        nmap + 1
                    };
                    match after_field(after) {
                        Err(e) => Err(e),
                        Ok(next) => if next.tokens.len() < src.tokens.len() {
                            q1.fields(next, dst, waiting, na, nm)
                        } else {
                            Err(ParseError::ExpectedRightCurly)
                        },
                    }
                },
            },
        }
    }

    /// Compiles the arguments of a call from the start of `src` through the
    /// closing `)`, after `count` of them; gives their number too. The
    /// function is in register `func`, its arguments go into the registers
    /// after it.
    #[verifier::opaque]
    pub open spec fn arguments(self, src: Stream, func: int, count: int) -> Result<
        (Proto, Stream, int),
        ParseError,
    >
        decreases src.tokens.len(), 3int,
    {
        match self.load_exp(src, func + 1 + count) {
            Err(e) => Err(e),
            Ok((p, after)) => match after.first() {
                Err(e) => Err(ParseError::Lex(e)),
                Ok(Some(Tok::ParR)) => Ok((p, after.rest(), count + 1)),
                Ok(Some(Tok::Comma)) => if after.rest().tokens.len() < src.tokens.len() {
                    p.arguments(after.rest(), func, count + 1)
                } else {
                    Err(ParseError::ExpectedRightParen)
                },
                _ => Err(ParseError::ExpectedRightParen),
            },
        }
    }

    /// Compiles the arguments of a call of the function in register `func`:
    /// a list of expressions in parentheses, or one string; gives their
    /// number too.
    #[verifier::opaque]
    pub open spec fn args(self, src: Stream, func: int) -> Result<
        (Proto, Stream, int),
        ParseError,
    >
        decreases src.tokens.len(), 0int,
    {
        match src.first() {
            Err(e) => Err(ParseError::Lex(e)),
            Ok(Some(Tok::ParL)) => match src.rest().first() {
                Ok(Some(Tok::ParR)) => Ok((self, src.rest().rest(), 0int)),
                _ => self.arguments(src.rest(), func, 0),
            },
            Ok(Some(Tok::String(s))) => match self.load_const(func + 1, Val::String(s)) {
                Ok((q1, code1)) => Ok((q1.emit(code1), src.rest(), 1int)),
                Err(e) => Err(e),
            },
            _ => Err(ParseError::ExpectedArguments),
        }
    }

    /// Compiles the rest of a statement that started with a variable, now
    /// in register `r`: keys and calls, up to an assignment to a key or to
    /// a last call, whose results are dropped.
    #[verifier::opaque]
    pub open spec fn target(self, src: Stream, r: int) -> Result<(Proto, Stream), ParseError>
        decreases src.tokens.len(),
    {
        if starts_key(src) {
            match self.key(src, r) {
                Err(e) => Err(e),
                Ok((p, after, k)) => match after.first() {
                    Ok(Some(Tok::Assign)) => {
                        let v = if k is Register {
                            r + 2
                        } else {
                            r + 1
                        };
                        match p.load_exp(after.rest(), v) {
                            Ok((q1, rest)) => Ok((q1.emit(set_code(r as u8, k, v as u8)), rest)),
                            Err(e) => Err(e),
                        }
                    },
                    _ => if after.tokens.len() < src.tokens.len() {
                        p.emit(get_code(r as u8, r as u8, k)).target(after, r)
                    } else {
                        Err(ParseError::UnexpectedToken)
                    },
                },
            }
        } else {
            match self.args(src, r) {
                Err(e) => Err(e),
                Ok((p, after, count)) => if !starts_suffix(after) {
                    Ok((p.emit(ByteCode::Call(r as u8, count as u8)), after))
                } else if after.tokens.len() < src.tokens.len() {
                    p.emit(ByteCode::CallSet(r as u8, r as u8, count as u8)).target(after, r)
                } else {
                    Err(ParseError::UnexpectedToken)
                },
            }
        }
    }

    /// Compiles the statement that starts with the variable `name` and is
    /// no assignment to it: a call, or an assignment to a key.
    #[verifier::opaque]
    pub open spec fn function_call(self, src: Stream, name: Seq<u8>) -> Result<
        (Proto, Stream),
        ParseError,
    > {
        let r = self.locals.len() as int;
        match self.load_var(r, name) {
            Err(e) => Err(e),
            Ok((p, code)) => p.emit(code).target(src, r),
        }
    }

    /// Compiles `Name = exp` after the word `local`.
    #[verifier::opaque]
    pub open spec fn local(self, src: Stream) -> Result<(Proto, Stream), ParseError> {
        match src.first() {
            Err(e) => Err(ParseError::Lex(e)),
            Ok(Some(Tok::Name(var))) => match src.rest().first() {
                Err(e) => Err(ParseError::Lex(e)),
                Ok(Some(Tok::Assign)) => match self.load_exp(
                    src.rest().rest(),
                    self.locals.len() as int,
                ) {
                    Ok((p, after)) => Ok((p.declare(var), after)),
                    Err(e) => Err(e),
                },
                _ => Err(ParseError::ExpectedAssign),
            },
            _ => Err(ParseError::ExpectedName),
        }
    }

    /// Compiles into the register `i` of a local variable the value that
    /// starts with the token `t`, which `src` follows. A value that takes
    /// more than one instruction is computed above the local variables and
    /// then moved.
    #[verifier::opaque]
    pub open spec fn assign_local(self, t: TokenModel, src: Stream, i: int) -> Result<
        (Proto, Stream),
        ParseError,
    > {
        if plain(src.after(t)) {
            self.exp_after(t, src, i)
        } else {
            let above = self.locals.len() as int;
            match self.exp_after(t, src, above) {
                Ok((p, after)) => Ok((p.emit(ByteCode::Move(i as u8, above as u8)), after)),
                Err(e) => Err(e),
            }
        }
    }

    /// The instruction that sets the global named by constant `dst` to the
    /// value that the token `t` is by itself: a literal or a variable.
    pub open spec fn set_global(self, t: TokenModel, dst: u8) -> Result<
        (Proto, ByteCode),
        ParseError,
    > {
        match t {
            Tok::Nil => self.set_global_const(dst, Val::Nil),
            Tok::True => self.set_global_const(dst, Val::Boolean(true)),
            Tok::False => self.set_global_const(dst, Val::Boolean(false)),
            Tok::Integer(i) => self.set_global_const(dst, Val::Integer(i)),
            Tok::Float(d) => self.set_global_const(dst, Val::Float(d)),
            Tok::String(s) => self.set_global_const(dst, Val::String(s)),
            Tok::Name(name) => match self.get_local(name) {
                Some(i) => match register(i) {
                    Ok(src) => Ok((self, ByteCode::SetGlobal(dst, src))),
                    Err(e) => Err(e),
                },
                None => match self.global_name(name) {
                    Ok((p, i)) => Ok((p, ByteCode::SetGlobalGlobal(dst, i))),
                    Err(e) => Err(e),
                },
            },
            _ => Err(ParseError::ExpectedExpression),
        }
    }

    /// Compiles the setting of the global named by constant `dst` to the
    /// value that starts with the token `t`, which `src` follows. A value
    /// that takes more than one instruction is computed above the local
    /// variables and then set.
    #[verifier::opaque]
    pub open spec fn assign_global(self, t: TokenModel, src: Stream, dst: u8) -> Result<
        (Proto, Stream),
        ParseError,
    > {
        if plain(src.after(t)) {
            match self.set_global(t, dst) {
                Ok((p, code)) => Ok((p.emit(code), src)),
                Err(e) => Err(e),
            }
        } else {
            let above = self.locals.len() as int;
            match self.exp_after(t, src, above) {
                Ok((p, after)) => Ok((p.emit(ByteCode::SetGlobal(dst, above as u8)), after)),
                Err(e) => Err(e),
            }
        }
    }

    /// Compiles an assignment to the variable `var`; `src` starts with `=`.
    #[verifier::opaque]
    pub open spec fn assignment(self, src: Stream, var: Seq<u8>) -> Result<
        (Proto, Stream),
        ParseError,
    > {
        let value = src.rest();
        let target: Result<(Proto, Option<int>, u8), ParseError> = match self.get_local(var) {
            Some(i) => Ok((self, Some(i), 0u8)),
            None => match self.global_name(var) {
                Ok((p, dst)) => Ok((p, None, dst)),
                Err(e) => Err(e),
            },
        };
        match (target, value.first()) {
            (Err(e), _) => Err(e),
            (_, Err(e)) => Err(ParseError::Lex(e)),
            (_, Ok(None)) => Err(ParseError::ExpectedExpression),
            (Ok((p, Some(i), _)), Ok(Some(t))) => p.assign_local(t, value.rest(), i),
            (Ok((p, None, dst)), Ok(Some(t))) => p.assign_global(t, value.rest(), dst),
        }
    }

    /// The instruction that sets the global named by constant `dst` to the
    /// constant `v`.
    pub open spec fn set_global_const(self, dst: u8, v: ValueModel) -> Result<
        (Proto, ByteCode),
        ParseError,
    > {
        let (p, i) = self.add_const(v);
        if i > 0xff {
            Err(ParseError::TooManyConstants)
        } else {
            Ok((p, ByteCode::SetGlobalConst(dst, i as u8)))
        }
    }

    /// Compiles the statement that starts with the token `t`, which `src`
    /// follows: an assignment, a call, a declaration of a local variable, or
    /// a lone `;`.
    #[verifier::opaque]
    pub open spec fn statement(self, t: TokenModel, src: Stream) -> Result<
        (Proto, Stream),
        ParseError,
    > {
        match t {
            Tok::Name(name) => match src.first() {
                Err(e) => Err(ParseError::Lex(e)),
                Ok(Some(Tok::Assign)) => self.assignment(src, name),
                _ => self.function_call(src, name),
            },
            Tok::Local => self.local(src),
            Tok::SemiColon => Ok((self, src)),
            _ => Err(ParseError::UnexpectedToken),
        }
    }

    /// Compiles the statements of `src` up to its end.
    #[verifier::opaque]
    pub open spec fn chunk(self, src: Stream) -> Result<Proto, ParseError>
        decreases src.tokens.len(),
    {
        match src.first() {
            Err(e) => Err(ParseError::Lex(e)),
            Ok(None) => Ok(self),
            Ok(Some(t)) => match self.statement(t, src.rest()) {
                Err(e) => Err(e),
                Ok((p, after)) => if after.tokens.len() < src.tokens.len() {
                    p.chunk(after)
                } else {
                    Err(ParseError::UnexpectedToken)
                },
            },
        }
    }
}

/// How an instruction names the key of a table.
#[derive(Clone, Copy, Debug, PartialEq, Eq, Structural)]
pub enum KeyRef {
    /// The key is the value of this register.
    Register(u8),
    /// The key is the string at this place of the constant pool.
    Field(u8),
    /// The key is this integer.
    Integer(u8),
}

/// The instruction that reads the key `key` of the table in register `t`
/// into register `dst`.
pub open spec fn get_code(dst: u8, t: u8, key: KeyRef) -> ByteCode {
    match key {
        KeyRef::Register(k) => ByteCode::GetTable(dst, t, k),
        KeyRef::Field(k) => ByteCode::GetField(dst, t, k),
        KeyRef::Integer(k) => ByteCode::GetInt(dst, t, k),
    }
}

/// The instruction that sets the key `key` of the table in register `t` to
/// the value of register `src`.
pub open spec fn set_code(t: u8, key: KeyRef, src: u8) -> ByteCode {
    match key {
        KeyRef::Register(k) => ByteCode::SetTable(t, k, src),
        KeyRef::Field(k) => ByteCode::SetField(t, k, src),
        KeyRef::Integer(k) => ByteCode::SetInt(t, k, src),
    }
}

/// Whether `src` starts with `[` or `.`, as a key does.
pub open spec fn starts_key(src: Stream) -> bool {
    src.first() == Ok::<Option<TokenModel>, LexError>(Some(Tok::SqurL)) || src.first() == Ok::<
        Option<TokenModel>,
        LexError,
    >(Some(Tok::Dot))
}

/// Whether `src` starts with `(` or with a string, as the arguments of a
/// call do.
pub open spec fn starts_args(src: Stream) -> bool {
    src.first() matches Ok(Some(t)) && (t is ParL || t is String)
}

/// Whether `src` starts as a key or as the arguments of a call do.
pub open spec fn starts_suffix(src: Stream) -> bool {
    starts_key(src) || starts_args(src)
}

/// Whether the expression at the start of `src` takes one instruction and
/// no register but its own: whether it is neither a table constructor nor a
/// variable with a key or a call.
pub open spec fn plain(src: Stream) -> bool {
    match src.first() {
        Ok(Some(Tok::CurlyL)) => false,
        Ok(Some(Tok::Name(_))) => !starts_suffix(src.rest()),
        _ => true,
    }
}

/// A number of fields as a hint in an instruction: 255 stands for more.
pub open spec fn hint(n: int) -> u8 {
    if n < 255 {
        n as u8
    } else {
        255
    }
}

/// What follows a field of a table constructor, from where the next field
/// or the closing `}` is read: a separator, `,` or `;`, is passed over.
pub open spec fn after_field(src: Stream) -> Result<Stream, ParseError> {
    match src.first() {
        Err(e) => Err(ParseError::Lex(e)),
        Ok(Some(Tok::Comma)) | Ok(Some(Tok::SemiColon)) => Ok(src.rest()),
        Ok(Some(Tok::CurlyR)) => Ok(src),
        _ => Err(ParseError::ExpectedRightCurly),
    }
}

/// `h` registers, or `dst + 1` where register `dst` is the one after them.
pub open spec fn grown(h: int, dst: int) -> int {
    if dst < h {
        h
    } else {
        dst + 1
    }
}

impl Proto {
    /// Whether the constant at place `c` is there and is a string, as a
    /// name is.
    pub open spec fn is_name(self, c: int) -> bool {
        0 <= c < self.constants.len() && self.constants[c] is String
    }

    /// The number of registers that the stack has at least after the
    /// instruction `code`, where it has at least `h` before it; none where
    /// the instruction may then read a register that holds nothing, write
    /// beyond the top of the stack, or name a constant that is not there
    /// or is no name where one is wanted.
    pub open spec fn height_after(self, code: ByteCode, h: int) -> Option<int> {
        match code {
            ByteCode::GetGlobal(dst, name) => if self.is_name(name as int) && dst <= h {
                Some(grown(h, dst as int))
            } else {
                None
            },
            ByteCode::SetGlobal(name, src) => if self.is_name(name as int) && src < h {
                Some(h)
            } else {
                None
            },
            ByteCode::SetGlobalConst(name, c) => if self.is_name(name as int) && c
                < self.constants.len() {
                Some(h)
            } else {
                None
            },
            ByteCode::SetGlobalGlobal(name, src) => if self.is_name(name as int) && self.is_name(
                src as int,
            ) {
                Some(h)
            } else {
                None
            },
            ByteCode::LoadConst(dst, c) => if c < self.constants.len() && dst <= h {
                Some(grown(h, dst as int))
            } else {
                None
            },
            ByteCode::LoadNil(dst) | ByteCode::LoadBool(dst, _) | ByteCode::LoadInt(dst, _)
            | ByteCode::NewTable(dst, _, _) => if dst <= h {
                Some(grown(h, dst as int))
            } else {
                None
            },
            ByteCode::Move(dst, src) => if src < h && dst <= h {
                Some(grown(h, dst as int))
            } else {
                None
            },
            ByteCode::Call(func, count) => if func + count < h {
                Some(func as int)
            } else {
                None
            },
            ByteCode::CallSet(dst, func, count) => if func + count < h && dst <= func {
                Some(grown(func as int, dst as int))
            } else {
                None
            },
            ByteCode::SetTable(t, key, src) => if t < h && key < h && src < h {
                Some(h)
            } else {
                None
            },
            ByteCode::SetField(t, key, src) => if t < h && self.is_name(key as int) && src < h {
                Some(h)
            } else {
                None
            },
            ByteCode::SetInt(t, _, src) => if t < h && src < h {
                Some(h)
            } else {
                None
            },
            ByteCode::SetList(t, n) => if t + n < h {
                Some(t + 1)
            } else {
                None
            },
            ByteCode::GetTable(dst, t, key) => if t < h && key < h && dst <= h {
                Some(grown(h, dst as int))
            } else {
                None
            },
            ByteCode::GetField(dst, t, key) => if t < h && self.is_name(key as int) && dst <= h {
                Some(grown(h, dst as int))
            } else {
                None
            },
            ByteCode::GetInt(dst, t, _) => if t < h && dst <= h {
                Some(grown(h, dst as int))
            } else {
                None
            },
        }
    }

    /// The number of registers that the stack has at least after the first
    /// `n` instructions, run from an empty stack; none where one of them
    /// may reach out of range.
    pub open spec fn height(self, n: int) -> Option<int>
        decreases n,
    {
        if n <= 0 {
            Some(0)
        } else {
            match self.height(n - 1) {
                Some(h) => self.height_after(self.byte_codes[n - 1], h),
                None => None,
            }
        }
    }

    /// The number of registers that the stack has at least after all the
    /// instructions.
    pub open spec fn top(self) -> Option<int> {
        self.height(self.byte_codes.len() as int)
    }

    /// No instruction reaches out of range, in any run from an empty stack.
    pub open spec fn in_range(self) -> bool {
        self.top() is Some
    }
}

/// Where the first `n` instructions stay in range, fewer of them do.
pub proof fn lemma_height_before(p: Proto, n: int, m: int)
    requires
        0 <= m <= n,
        p.height(n) is Some,
    ensures
        p.height(m) is Some,
        p.height(m)->0 >= 0,
    decreases n,
{
    if m < n {
        lemma_height_before(p, n - 1, m);
    } else if n > 0 {
        lemma_height_before(p, n - 1, n - 1);
    }
}

/// The height after some instructions stays what it is when instructions
/// come after them and constants after the constants.
pub proof fn lemma_height_stable(p: Proto, q: Proto, n: int)
    requires
        0 <= n <= p.byte_codes.len(),
        p.byte_codes.len() <= q.byte_codes.len(),
        forall|i: int| 0 <= i < n ==> p.byte_codes[i] == q.byte_codes[i],
        p.constants.is_prefix_of(q.constants),
        p.height(n) is Some,
    ensures
        q.height(n) == p.height(n),
    decreases n,
{
    if n > 0 {
        lemma_height_before(p, n, n - 1);
        lemma_height_stable(p, q, n - 1);
        assert(forall|c: int| p.is_name(c) ==> q.is_name(c)) by {
            assert forall|c: int| p.is_name(c) implies q.is_name(c) by {
                assert(q.constants[c] == p.constants[c]);
            }
        }
    }
}

/// The hints of a `NewTable` instruction change no height.
pub proof fn lemma_height_hints(p: Proto, at: int, narray: u8, nmap: u8, n: int)
    requires
        0 <= at < p.byte_codes.len(),
        p.byte_codes[at] matches ByteCode::NewTable(_, _, _),
        0 <= n <= p.byte_codes.len(),
    ensures
        p.patch(at, ByteCode::NewTable(p.byte_codes[at]->NewTable_0, narray, nmap)).height(n)
            == p.height(n),
    decreases n,
{
    if n > 0 {
        lemma_height_hints(p, at, narray, nmap, n - 1);
    }
}

/// What the bytes `input` compile to.
pub open spec fn compile(input: Seq<u8>) -> Result<Proto, ParseError> {
    Proto::empty().chunk(stream_of(input))
}


/// The views of a sequence of names, one for one.
pub open spec fn names_view(s: Seq<Vec<u8>>) -> Seq<Seq<u8>> {
    s.map_values(|n: Vec<u8>| n@)
}

/// From its start on, `first_index` finds the first place that holds `v`.
pub proof fn lemma_first_index(cs: Seq<ValueModel>, v: ValueModel, from: int)
    requires
        0 <= from <= cs.len(),
    ensures
        from <= first_index(cs, v, from) <= cs.len(),
        first_index(cs, v, from) < cs.len() ==> cs[first_index(cs, v, from)] == v,
        forall|j: int| from <= j < first_index(cs, v, from) ==> cs[j] != v,
    decreases cs.len() - from,
{
    if from < cs.len() && cs[from] != v {
        lemma_first_index(cs, v, from + 1);
    }
}

/// `last_index` finds the last place that holds `name`.
pub proof fn lemma_last_index(names: Seq<Seq<u8>>, name: Seq<u8>)
    ensures
        match last_index(names, name) {
            Some(i) => 0 <= i < names.len() && names[i] == name && forall|j: int|
                i < j < names.len() ==> names[j] != name,
            None => forall|j: int| 0 <= j < names.len() ==> names[j] != name,
        },
    decreases names.len(),
{
    if names.len() > 0 && names.last() != name {
        let front = names.drop_last();
        lemma_last_index(front, name);
        assert(forall|j: int| 0 <= j < front.len() ==> front[j] == names[j]);
    }
}

/// A value that is added to the pool a second time gets the place that it
/// got the first time, and the pool stays as it was after the first.
pub proof fn law_add_const_twice(p: Proto, v: ValueModel)
    ensures
        p.add_const(v).0.add_const(v) == p.add_const(v),
{
    lemma_first_index(p.constants, v, 0);
    let (q, i) = p.add_const(v);
    lemma_first_index(q.constants, v, 0);
    let j = first_index(q.constants, v, 0);
    assert(q.constants[i] == v);
    if j < i {
        assert(q.constants[j] == p.constants[j]);
    }
    assert(j == i);
}

/// The place that `add_const` gives holds the value, the constants that
/// were there are there still, and a pool without a value that stands twice
/// stays one.
pub proof fn law_add_const_keeps(p: Proto, v: ValueModel)
    ensures
        0 <= p.add_const(v).1 < p.add_const(v).0.constants.len(),
        p.add_const(v).0.constants[p.add_const(v).1] == v,
        p.constants.is_prefix_of(p.add_const(v).0.constants),
        distinct(p.constants) ==> distinct(p.add_const(v).0.constants),
{
    lemma_first_index(p.constants, v, 0);
}

/// A name that was just declared resolves to that declaration's register,
/// whatever was declared under the same name before.
pub proof fn law_shadowing(p: Proto, name: Seq<u8>)
    ensures
        p.declare(name).get_local(name) == Some(p.locals.len() as int),
{
}

/// The declaration of one name leaves the register of every other name as
/// it was.
pub proof fn law_declaration_of_another(p: Proto, name: Seq<u8>, other: Seq<u8>)
    requires
        other != name,
    ensures
        p.declare(other).get_local(name) == p.get_local(name),
{
    assert(p.locals.push(other).drop_last() =~= p.locals);
}

/// A name resolves to the last of the registers that were declared under
/// it, and to none where none was.
pub proof fn law_get_local(p: Proto, name: Seq<u8>)
    ensures
        match p.get_local(name) {
            Some(i) => 0 <= i < p.locals.len() && p.locals[i] == name && forall|j: int|
                i < j < p.locals.len() ==> p.locals[j] != name,
            None => forall|j: int| 0 <= j < p.locals.len() ==> p.locals[j] != name,
        },
{
    lemma_last_index(p.locals, name);
}

/// An expression takes at least one token.
pub proof fn law_load_exp_consumes(p: Proto, src: Stream, dst: int)
    ensures
        p.load_exp(src, dst) matches Ok((_, after)) ==> after.tokens.len() < src.tokens.len(),
    decreases src.tokens.len(), 2int,
{
    reveal(Proto::load_exp);
    reveal(Proto::exp_after);
    if let Ok(Some(t)) = src.first() {
        lemma_exp_after_consumes(p, t, src.rest(), dst);
    }
}

/// What follows the first token of an expression takes no token back.
pub proof fn lemma_exp_after_consumes(p: Proto, t: TokenModel, src: Stream, dst: int)
    ensures
        p.exp_after(t, src, dst) matches Ok((_, after)) ==> after.tokens.len() <= src.tokens.len(),
    decreases src.tokens.len(), 4int,
{
    reveal(Proto::exp_after);
    reveal(Proto::suffixes);
    reveal(Proto::fields);
    match t {
        Tok::Name(name) => {
            if let Ok((q, code)) = p.load_var(dst, name) {
                lemma_suffixes_consume(q.emit(code), src, dst);
            }
        },
        Tok::CurlyL => {
            lemma_fields_consume(p.emit(ByteCode::NewTable(dst as u8, 0, 0)), src, dst, 0, 0, 0);
        },
        _ => {},
    }
}

/// A key takes at least one token.
pub proof fn lemma_key_consumes(p: Proto, src: Stream, r: int)
    ensures
        p.key(src, r) matches Ok((_, after, _)) ==> after.tokens.len() < src.tokens.len(),
    decreases src.tokens.len(), 0int,
{
    reveal(Proto::key);
    reveal(Proto::load_exp);
    if src.first() == Ok::<Option<TokenModel>, LexError>(Some(Tok::SqurL)) {
        law_load_exp_consumes(p, src.rest(), r + 1);
    }
}

/// The arguments of a call take at least one token.
pub proof fn lemma_args_consume(p: Proto, src: Stream, func: int)
    ensures
        p.args(src, func) matches Ok((_, after, _)) ==> after.tokens.len() < src.tokens.len(),
    decreases src.tokens.len(), 0int,
{
    reveal(Proto::args);
    reveal(Proto::arguments);
    if src.first() == Ok::<Option<TokenModel>, LexError>(Some(Tok::ParL)) {
        lemma_arguments_consume(p, src.rest(), func, 0);
    }
}

/// The keys and calls that follow a variable take no token back.
pub proof fn lemma_suffixes_consume(p: Proto, src: Stream, dst: int)
    ensures
        p.suffixes(src, dst) matches Ok((_, after)) ==> after.tokens.len() <= src.tokens.len(),
    decreases src.tokens.len(), 1int,
{
    reveal(Proto::suffixes);
    reveal(Proto::key);
    reveal(Proto::args);
    if starts_key(src) {
        lemma_key_consumes(p, src, dst);
        if let Ok((q, after, k)) = p.key(src, dst) {
            lemma_suffixes_consume(q.emit(get_code(dst as u8, dst as u8, k)), after, dst);
        }
    } else if starts_args(src) {
        lemma_args_consume(p, src, dst);
        if let Ok((q, after, count)) = p.args(src, dst) {
            lemma_suffixes_consume(
                q.emit(ByteCode::CallSet(dst as u8, dst as u8, count as u8)),
                after,
                dst,
            );
        }
    }
}

/// A field of a table constructor takes no token back.
pub proof fn lemma_field_after_consumes(p: Proto, t: TokenModel, src: Stream, dst: int, free: int)
    ensures
        p.field_after(t, src, dst, free) matches Ok((_, after, _)) ==> after.tokens.len()
            <= src.tokens.len(),
    decreases src.tokens.len(), 6int,
{
    reveal(Proto::field_after);
    reveal(Proto::record_field);
    reveal(Proto::bracket_field);
    reveal(Proto::exp_after);
    reveal(Proto::load_exp);
    match t {
        Tok::Name(name) if src.first() == Ok::<Option<TokenModel>, LexError>(
            Some(Tok::Assign),
        ) => {
            if let Ok((q, c)) = p.global_name(name) {
                law_load_exp_consumes(q, src.rest(), free);
            }
        },
        Tok::SqurL => {
            law_load_exp_consumes(p, src, free);
            if let Ok((q, after)) = p.load_exp(src, free) {
                law_load_exp_consumes(q, after.rest().rest(), free + 1);
            }
        },
        _ => {
            lemma_exp_after_consumes(p, t, src, free);
        },
    }
}

/// The fields of a table constructor, through the closing `}`, take at
/// least one token.
pub proof fn lemma_fields_consume(
    p: Proto,
    src: Stream,
    dst: int,
    pending: int,
    narray: int,
    nmap: int,
)
    ensures
        p.fields(src, dst, pending, narray, nmap) matches Ok((_, after, _, _))
            ==> after.tokens.len() < src.tokens.len(),
    decreases src.tokens.len(), 3int,
{
    reveal(Proto::fields);
    reveal(Proto::field_after);
    if let Ok(Some(t)) = src.first() {
        if t != Tok::<Seq<u8>>::CurlyR {
            lemma_field_after_consumes(p, t, src.rest(), dst, dst + 1 + pending);
            if let Ok((q, after, listed)) = p.field_after(t, src.rest(), dst, dst + 1 + pending) {
                if let Ok(next) = after_field(after) {
                    let full = listed && pending + 1 == 50;
                    let q1 = if full {
                        q.flush(dst, 50)
                    } else {
                        q
                    };
                    let waiting = if full {
                        0
                    } else if listed {
                        pending + 1
                    } else {
                        pending
                    };
                    let na = if listed {
                        narray + 1
                    } else {
                        narray
                    };
                    let nm = if listed {
                        nmap
                    } else {
                        nmap + 1
                    };
                    lemma_fields_consume(q1, next, dst, waiting, na, nm);
                }
            }
        }
    }
}

/// The arguments of a call, through the closing `)`, take at least one
/// token.
pub proof fn lemma_arguments_consume(p: Proto, src: Stream, func: int, count: int)
    ensures
        p.arguments(src, func, count) matches Ok((_, after, _)) ==> after.tokens.len()
            < src.tokens.len(),
    decreases src.tokens.len(), 3int,
{
    reveal(Proto::arguments);
    reveal(Proto::load_exp);
    law_load_exp_consumes(p, src, func + 1 + count);
    if let Ok((q, after)) = p.load_exp(src, func + 1 + count) {
        if after.first() == Ok::<Option<TokenModel>, LexError>(Some(Tok::Comma)) {
            lemma_arguments_consume(q, after.rest(), func, count + 1);
        }
    }
}

/// The rest of a statement that started with a variable takes at least one
/// token.
pub proof fn lemma_target_consumes(p: Proto, src: Stream, r: int)
    ensures
        p.target(src, r) matches Ok((_, after)) ==> after.tokens.len() < src.tokens.len(),
    decreases src.tokens.len(),
{
    reveal(Proto::target);
    if starts_key(src) {
        lemma_key_consumes(p, src, r);
        if let Ok((q, after, k)) = p.key(src, r) {
            if after.first() == Ok::<Option<TokenModel>, LexError>(Some(Tok::Assign)) {
                let v = if k is Register {
                    r + 2
                } else {
                    r + 1
                };
                law_load_exp_consumes(q, after.rest(), v);
            } else {
                lemma_target_consumes(q.emit(get_code(r as u8, r as u8, k)), after, r);
            }
        }
    } else {
        lemma_args_consume(p, src, r);
        if let Ok((q, after, count)) = p.args(src, r) {
            if starts_suffix(after) {
                lemma_target_consumes(
                    q.emit(ByteCode::CallSet(r as u8, r as u8, count as u8)),
                    after,
                    r,
                );
            }
        }
    }
}

/// An assignment takes at least the token that it starts with.
pub proof fn lemma_assignment_consumes(p: Proto, src: Stream, var: Seq<u8>)
    ensures
        p.assignment(src, var) matches Ok((_, after)) ==> after.tokens.len() <= src.tokens.len(),
{
    reveal(Proto::assignment);
    reveal(Proto::assign_local);
    reveal(Proto::assign_global);
    let value = src.rest();
    if let Ok(Some(t)) = value.first() {
        match p.get_local(var) {
            Some(i) => {
                lemma_exp_after_consumes(p, t, value.rest(), i);
                lemma_exp_after_consumes(p, t, value.rest(), p.locals.len() as int);
            },
            None => {
                if let Ok((q, dst)) = p.global_name(var) {
                    lemma_exp_after_consumes(q, t, value.rest(), q.locals.len() as int);
                }
            },
        }
    }
}

/// A statement takes no token back: what follows it is no longer than what
/// followed its first token.
pub proof fn law_statement_consumes(p: Proto, t: TokenModel, src: Stream)
    ensures
        p.statement(t, src) matches Ok((_, after)) ==> after.tokens.len() <= src.tokens.len(),
{
    reveal(Proto::statement);
    reveal(Proto::function_call);
    reveal(Proto::local);
    match t {
        Tok::Name(name) => {
            if src.first() == Ok::<Option<TokenModel>, LexError>(Some(Tok::Assign)) {
                lemma_assignment_consumes(p, src, name);
            } else {
                if let Ok((q, code)) = p.load_var(p.locals.len() as int, name) {
                    lemma_target_consumes(q.emit(code), src, p.locals.len() as int);
                }
            }
        },
        Tok::Local => {
            law_load_exp_consumes(p, src.rest().rest(), p.locals.len() as int);
        },
        _ => {},
    }
}

/// The statements of a program are compiled one after the other: where
/// the first of them compiles, the program is what the statements after it
/// make of what the first made.
pub proof fn law_chunk_unfolds(p: Proto, src: Stream)
    ensures
        src.first() matches Ok(Some(t)) ==> p.chunk(src) == match p.statement(t, src.rest()) {
            Ok((q, after)) => q.chunk(after),
            Err(e) => Err(e),
        },
        src.first() matches Ok(None) ==> p.chunk(src) == Ok::<Proto, ParseError>(p),
        src.first() matches Err(e) ==> p.chunk(src) == Err::<Proto, ParseError>(
            ParseError::Lex(e),
        ),
{
    reveal(Proto::chunk);
    if let Ok(Some(t)) = src.first() {
        law_statement_consumes(p, t, src.rest());
    }
}

/// At the closing `}`, the fields of a table constructor end: the listed
/// items that wait are put into the table.
pub proof fn lemma_fields_end(
    p: Proto,
    src: Stream,
    dst: int,
    pending: int,
    narray: int,
    nmap: int,
)
    ensures
        src.first() == Ok::<Option<TokenModel>, LexError>(Some(Tok::CurlyR)) ==> p.fields(
            src,
            dst,
            pending,
            narray,
            nmap,
        ) == Ok::<(Proto, Stream, int, int), ParseError>(
            (p.flush(dst, pending), src.rest(), narray, nmap),
        ),
{
    reveal(Proto::fields);
}

/// The place of the first value of `cs` equal to `c`, or the length of `cs`.
fn find_const(cs: &Vec<Value>, c: &Value) -> (i: usize)
    ensures
        i == first_index(values_view(cs@), c@, 0),
        i <= cs.len(),
{
    let mut i: usize = 0;
    while i < cs.len()
        invariant
            i <= cs.len(),
            first_index(values_view(cs@), c@, 0) == first_index(values_view(cs@), c@, i as int),
        decreases cs.len() - i,
    {
        if cs[i] == *c {
            return i;
        }
        i += 1;
    }
    i
}

/// The last place where `names` holds `name`.
fn find_local(names: &Vec<Vec<u8>>, name: &Vec<u8>) -> (r: Option<usize>)
    ensures
        match r {
            Some(i) => last_index(names_view(names@), name@) == Some(i as int) && i < names.len(),
            None => last_index(names_view(names@), name@) is None,
        },
{
    let mut i: usize = names.len();
    assert(names_view(names@).subrange(0, i as int) =~= names_view(names@));
    while i > 0
        invariant
            i <= names.len(),
            last_index(names_view(names@), name@) == last_index(
                names_view(names@).subrange(0, i as int),
                name@,
            ),
        decreases i,
    {
        assert(names_view(names@).subrange(0, i as int).drop_last() =~= names_view(
            names@,
        ).subrange(0, i - 1));
        i -= 1;
        if bytes_eq(&names[i], name) {
            return Some(i);
        }
    }
    None
}

/// `n` as the number of a register.
fn to_register(n: usize) -> (r: Result<u8, ParseError>)
    ensures
        r == register(n as int),
{
    if n <= 255 {
        Ok(n as u8)
    } else {
        Err(ParseError::TooManyRegisters)
    }
}

/// A program in the making, and the program once `load` has made it: the
/// constant pool and the instructions. `locals` holds the names of the
/// local variables, each at the place of its register.
#[derive(Debug)]
pub struct ParseProto {
    pub constants: Vec<Value>,
    pub byte_codes: Vec<ByteCode>,
    pub locals: Vec<Vec<u8>>,
    pub lex: Lex,
}

impl View for ParseProto {
    type V = Proto;

    open spec fn view(&self) -> Proto {
        Proto {
            constants: values_view(self.constants@),
            byte_codes: self.byte_codes@,
            locals: names_view(self.locals@),
        }
    }
}

impl ParseProto {
    /// The tokens that are yet to be compiled.
    pub open spec fn pending(&self) -> Stream {
        self.lex.remaining()
    }

    /// `r` and the state `self` are what `m` says: the program and the
    /// pending tokens that it gives, or its error.
    pub open spec fn did(&self, r: Result<(), ParseError>, m: Result<(Proto, Stream), ParseError>) -> bool {
        match m {
            Ok((p, s)) => r is Ok && self@ == p && self.pending() == s,
            Err(e) => r == Err::<(), ParseError>(e),
        }
    }

    /// The number of registers that the stack has at least after the
    /// instructions compiled so far.
    pub open spec fn level(&self) -> int {
        self@.top()->0
    }

    /// What holds between the steps of a compilation: no constant stands
    /// twice, the instructions so far stay in range, and they leave at
    /// least `floor` registers and at least the registers of the local
    /// variables.
    pub open spec fn ready(&self, floor: int) -> bool {
        &&& distinct(self@.constants)
        &&& self@.top() is Some
        &&& self.level() >= floor
        &&& self.level() >= self@.locals.len()
    }

    /// What a step of a compilation keeps of the state `before` it: the
    /// constants and the instructions that were there, in their places, and
    /// the local variables; and no token comes back.
    pub open spec fn kept(&self, before: &ParseProto) -> bool {
        &&& before@.constants.is_prefix_of(self@.constants)
        &&& before@.byte_codes.is_prefix_of(self@.byte_codes)
        &&& before@.locals == self@.locals
        &&& self.pending().tokens.len() <= before.pending().tokens.len()
    }

    /// Compiles `input`: gives the program, or why `input` is none. No
    /// constant stands twice in the program, and none of its instructions
    /// reaches a register or a constant out of range.
    pub fn load(input: Vec<u8>) -> (r: Result<ParseProto, ParseError>)
        ensures
            match compile(input@) {
                Ok(p) => r matches Ok(proto) && proto@ == p,
                Err(e) => r matches Err(x) && x == e,
            },
            r matches Ok(proto) ==> distinct(proto@.constants) && proto@.in_range(),
    {
        let mut proto = ParseProto {
            constants: Vec::new(),
            byte_codes: Vec::new(),
            locals: Vec::new(),
            lex: Lex::new(input),
        };
        assert(proto@ =~= Proto::empty()) by {
            assert(proto@.constants =~= Seq::empty());
            assert(proto@.locals =~= Seq::empty());
        }
        match proto.chunk() {
            Ok(()) => Ok(proto),
            Err(e) => Err(e),
        }
    }

    /// Compiles the pending statements up to the end of the input.
    fn chunk(&mut self) -> (r: Result<(), ParseError>)
        requires
            old(self).ready(0),
        ensures
            match old(self)@.chunk(old(self).pending()) {
                Ok(p) => r is Ok && final(self)@ == p,
                Err(e) => r == Err::<(), ParseError>(e),
            },
            r is Ok ==> final(self).ready(0) && final(self).pending().tokens.len() <= old(self).pending().tokens.len(),
    {
        proof {
            reveal(Proto::chunk);
        }
        loop
            invariant
                old(self)@.chunk(old(self).pending()) == self@.chunk(self.pending()),
                self.ready(0),
            decreases self.pending().tokens.len(),
        {
            proof {
                reveal(Proto::chunk);
            }
            let t = match self.lex.next() {
                Ok(t) => t,
                Err(e) => {
                    return Err(ParseError::Lex(e));
                },
            };
            let t = match t {
                Some(t) => t,
                None => {
                    return Ok(());
                },
            };
            if let Err(e) = self.statement(t) {
                return Err(e);
            }
        }
    }

    /// Appends the instruction `code`.
    fn emit(&mut self, code: ByteCode)
        requires
            old(self)@.top() is Some,
            old(self)@.height_after(code, old(self).level()) is Some,
        ensures
            final(self)@ == old(self)@.emit(code),
            final(self).pending() == old(self).pending(),
            final(self)@.top() == old(self)@.height_after(code, old(self).level()),
            final(self).kept(old(self)),
    {
        proof {
            lemma_height_stable(
                self@,
                self@.emit(code),
                self@.byte_codes.len() as int,
            );
        }
        self.byte_codes.push(code);
    }

    /// Whether the pending tokens start with `[` or `.`.
    fn at_key(&mut self) -> (r: bool)
        ensures
            r == starts_key(old(self).pending()),
            final(self)@ == old(self)@,
            final(self).pending() == old(self).pending(),
    {
        match self.lex.peek() {
            Ok(Some(Tok::SqurL)) => true,
            Ok(Some(Tok::Dot)) => true,
            _ => false,
        }
    }

    /// Whether the pending tokens start as a key or as the arguments of a
    /// call do.
    fn at_suffix(&mut self) -> (r: bool)
        ensures
            r == starts_suffix(old(self).pending()),
            final(self)@ == old(self)@,
            final(self).pending() == old(self).pending(),
    {
        match self.lex.peek() {
            Ok(Some(Tok::SqurL)) => true,
            Ok(Some(Tok::Dot)) => true,
            Ok(Some(Tok::ParL)) => true,
            Ok(Some(Tok::String(_))) => true,
            _ => false,
        }
    }

    /// Whether the pending tokens start with `=`.
    fn at_assign(&mut self) -> (r: bool)
        ensures
            r == (old(self).pending().first() == Ok::<Option<TokenModel>, LexError>(
                Some(Tok::Assign),
            )),
            final(self)@ == old(self)@,
            final(self).pending() == old(self).pending(),
    {
        match self.lex.peek() {
            Ok(Some(Tok::Assign)) => true,
            _ => false,
        }
    }

    /// Compiles the statement that starts with the token `t`, which the
    /// pending tokens follow.
    fn statement(&mut self, t: Token) -> (r: Result<(), ParseError>)
        requires
            old(self).ready(0),
        ensures
            final(self).did(r, old(self)@.statement(t@, old(self).pending())),
            r is Ok ==> final(self).ready(0) && final(self).pending().tokens.len() <= old(self).pending().tokens.len(),
    {
        proof {
            reveal(Proto::statement);
        }
        match t {
            Tok::Name(name) => {
                let assign = match self.lex.peek() {
                    Ok(Some(Tok::Assign)) => true,
                    Ok(_) => false,
                    Err(e) => {
                        return Err(ParseError::Lex(e));
                    },
                };
                if assign {
                    self.assignment(name)
                } else {
                    self.function_call(name)
                }
            },
            Tok::Local => self.local(),
            Tok::SemiColon => Ok(()),
            _ => Err(ParseError::UnexpectedToken),
        }
    }

    /// Compiles the statement that starts with the variable `name` and is
    /// no assignment to it.
    fn function_call(&mut self, name: Vec<u8>) -> (r: Result<(), ParseError>)
        requires
            old(self).ready(0),
        ensures
            final(self).did(r, old(self)@.function_call(old(self).pending(), name@)),
            r is Ok ==> final(self).ready(0) && final(self).pending().tokens.len() <= old(self).pending().tokens.len(),
    {
        proof {
            reveal(Proto::function_call);
        }
        let func = self.locals.len();
        let code = match self.load_var(func, name) {
            Ok(code) => code,
            Err(e) => {
                return Err(e);
            },
        };
        self.emit(code);
        self.target(func)
    }

    /// Compiles the rest of a statement that started with a variable, now
    /// in register `table`, the first above the local variables.
    fn target(&mut self, table: usize) -> (r: Result<(), ParseError>)
        requires
            old(self).ready(table + 1),
            table == old(self).locals.len(),
            table <= 255,
        ensures
            final(self).did(r, old(self)@.target(old(self).pending(), table as int)),
            r is Ok ==> final(self).ready(0) && final(self).kept(old(self)),
    {
        proof {
            reveal(Proto::target);
        }
        loop
            invariant
                table <= 255,
                table == self.locals.len(),
                self.ready(table + 1),
                self.kept(old(self)),
                old(self)@.target(old(self).pending(), table as int) == self@.target(
                    self.pending(),
                    table as int,
                ),
            decreases self.pending().tokens.len(),
        {
            proof {
                reveal(Proto::target);
            }
            if self.at_key() {
                let k = match self.key(table) {
                    Ok(k) => k,
                    Err(e) => {
                        return Err(e);
                    },
                };
                if self.at_assign() {
                    let _ = self.lex.next();
                    let v = match k {
                        KeyRef::Register(_) => table + 2,
                        _ => table + 1,
                    };
                    let ghost named = *self;
                    if let Err(e) = self.load_exp(v) {
                        return Err(e);
                    }
                    proof {
                        if let KeyRef::Field(c) = k {
                            assert(self@.constants[c as int] == named@.constants[c as int]);
                        }
                    }
                    self.emit(set_instruction(table as u8, k, v as u8));
                    return Ok(());
                }
                self.emit(get_instruction(table as u8, table as u8, k));
            } else {
                let count = match self.args(table) {
                    Ok(count) => count,
                    Err(e) => {
                        return Err(e);
                    },
                };
                if !self.at_suffix() {
                    self.emit(ByteCode::Call(table as u8, count as u8));
                    return Ok(());
                }
                self.emit(ByteCode::CallSet(table as u8, table as u8, count as u8));
            }
        }
    }

    /// Compiles the arguments of a call of the function in register `func`,
    /// and gives their number.
    fn args(&mut self, func: usize) -> (r: Result<usize, ParseError>)
        requires
            old(self).ready(func + 1),
            func >= old(self).locals.len(),
            func <= 255,
        ensures
            match old(self)@.args(old(self).pending(), func as int) {
                Ok((p, s, n)) => r == Ok::<usize, ParseError>(n as usize) && final(self)@ == p
                    && final(self).pending() == s && 0 <= n <= 255 - func,
                Err(e) => r == Err::<usize, ParseError>(e),
            },
            r matches Ok(n) ==> final(self).ready(func + 1 + n) && final(self).kept(old(self))
                && final(self).pending().tokens.len() < old(self).pending().tokens.len(),
        decreases old(self).pending().tokens.len(), 0int,
    {
        proof {
            reveal(Proto::args);
            reveal(Proto::arguments);
        }
        let t = match self.lex.next() {
            Ok(t) => t,
            Err(e) => {
                return Err(ParseError::Lex(e));
            },
        };
        match t {
            Some(Tok::ParL) => {
                let closed = match self.lex.peek() {
                    Ok(Some(Tok::ParR)) => true,
                    _ => false,
                };
                if closed {
                    let _ = self.lex.next();
                    Ok(0)
                } else {
                    self.arguments(func)
                }
            },
            Some(Tok::String(s)) => {
                let code = match self.load_const(func + 1, Val::String(s)) {
                    Ok(code) => code,
                    Err(e) => {
                        return Err(e);
                    },
                };
                self.emit(code);
                Ok(1)
            },
            _ => Err(ParseError::ExpectedArguments),
        }
    }

    /// Compiles the arguments of a call through the closing `)`, and gives
    /// their number. The function is in register `func`.
    fn arguments(&mut self, func: usize) -> (r: Result<usize, ParseError>)
        requires
            old(self).ready(func + 1),
            func >= old(self).locals.len(),
            func <= 255,
        ensures
            match old(self)@.arguments(old(self).pending(), func as int, 0) {
                Ok((p, s, n)) => r == Ok::<usize, ParseError>(n as usize) && final(self)@ == p
                    && final(self).pending() == s && 0 < n <= 255 - func,
                Err(e) => r == Err::<usize, ParseError>(e),
            },
            r matches Ok(n) ==> final(self).ready(func + 1 + n) && final(self).kept(old(self)),
        decreases old(self).pending().tokens.len(), 3int,
    {
        proof {
            reveal(Proto::arguments);
            reveal(Proto::load_exp);
        }
        let mut count: usize = 0;
        loop
            invariant
                func <= 255,
                count <= 255,
                func >= self.locals.len(),
                self.ready(func + 1 + count),
                self.kept(old(self)),
                old(self)@.arguments(old(self).pending(), func as int, 0) == self@.arguments(
                    self.pending(),
                    func as int,
                    count as int,
                ),
            decreases self.pending().tokens.len(),
        {
            proof {
                reveal(Proto::arguments);
                reveal(Proto::load_exp);
            }
            if let Err(e) = self.load_exp(func + 1 + count) {
                return Err(e);
            }
            count += 1;
            match self.lex.next() {
                Err(e) => {
                    return Err(ParseError::Lex(e));
                },
                Ok(Some(Tok::ParR)) => {
                    return Ok(count);
                },
                Ok(Some(Tok::Comma)) => {},
                Ok(_) => {
                    return Err(ParseError::ExpectedRightParen);
                },
            }
        }
    }

    /// Compiles `Name = exp` after the word `local`.
    fn local(&mut self) -> (r: Result<(), ParseError>)
        requires
            old(self).ready(0),
        ensures
            final(self).did(r, old(self)@.local(old(self).pending())),
            r is Ok ==> final(self).ready(0) && final(self).pending().tokens.len() <= old(self).pending().tokens.len(),
    {
        proof {
            reveal(Proto::local);
        }
        let var = match self.lex.next() {
            Ok(Some(Tok::Name(var))) => var,
            Ok(_) => {
                return Err(ParseError::ExpectedName);
            },
            Err(e) => {
                return Err(ParseError::Lex(e));
            },
        };
        match self.lex.next() {
            Ok(Some(Tok::Assign)) => {},
            Ok(_) => {
                return Err(ParseError::ExpectedAssign);
            },
            Err(e) => {
                return Err(ParseError::Lex(e));
            },
        }
        if let Err(e) = self.load_exp(self.locals.len()) {
            return Err(e);
        }
        proof {
            assert(names_view(self.locals@.push(var)) =~= names_view(self.locals@).push(var@));
            lemma_height_stable(self@, self@.declare(var@), self@.byte_codes.len() as int);
        }
        self.locals.push(var);
        Ok(())
    }

    /// Whether the expression that starts with the token `t`, which the
    /// pending tokens follow, takes one instruction only.
    fn is_plain(&mut self, t: &Token) -> (r: bool)
        ensures
            r == plain(old(self).pending().after(t@)),
            final(self)@ == old(self)@,
            final(self).pending() == old(self).pending(),
    {
        proof {
            let s = self.pending();
            assert(s.after(t@).first() == Ok::<Option<TokenModel>, LexError>(Some(t@)));
            assert(s.after(t@).rest().tokens =~= s.tokens);
        }
        match t {
            Tok::CurlyL => false,
            Tok::Name(_) => !self.at_suffix(),
            _ => true,
        }
    }

    /// Compiles an assignment to the variable `var`; the pending tokens
    /// start with `=`.
    fn assignment(&mut self, var: Vec<u8>) -> (r: Result<(), ParseError>)
        requires
            old(self).ready(0),
        ensures
            final(self).did(r, old(self)@.assignment(old(self).pending(), var@)),
            r is Ok ==> final(self).ready(0) && final(self).pending().tokens.len() <= old(self).pending().tokens.len(),
    {
        proof {
            reveal(Proto::assignment);
        }
        let _ = self.lex.next();
        let target = self.get_local(&var);
        let global = match target {
            Some(_) => 0,
            None => match self.global_name(var) {
                Ok(dst) => dst,
                Err(e) => {
                    return Err(e);
                },
            },
        };
        let t = match self.lex.next() {
            Ok(Some(t)) => t,
            Ok(None) => {
                return Err(ParseError::ExpectedExpression);
            },
            Err(e) => {
                return Err(ParseError::Lex(e));
            },
        };
        match target {
            Some(i) => self.assign_local(t, i),
            None => self.assign_global(t, global),
        }
    }

    /// Compiles into the register `i` of a local variable the value that
    /// starts with the token `t`, which the pending tokens follow.
    fn assign_local(&mut self, t: Token, i: usize) -> (r: Result<(), ParseError>)
        requires
            old(self).ready(0),
            i < old(self).locals.len(),
        ensures
            final(self).did(r, old(self)@.assign_local(t@, old(self).pending(), i as int)),
            r is Ok ==> final(self).ready(0) && final(self).pending().tokens.len() <= old(self).pending().tokens.len(),
    {
        proof {
            reveal(Proto::assign_local);
        }
        if self.is_plain(&t) {
            self.exp_after(t, i)
        } else {
            let above = self.locals.len();
            if let Err(e) = self.exp_after(t, above) {
                return Err(e);
            }
            self.emit(ByteCode::Move(i as u8, above as u8));
            Ok(())
        }
    }

    /// The instruction that sets the global named by constant `dst` to the
    /// value that the token `t` is by itself.
    fn set_global(&mut self, t: Token, dst: u8) -> (r: Result<ByteCode, ParseError>)
        requires
            old(self).ready(0),
            old(self)@.is_name(dst as int),
        ensures
            match old(self)@.set_global(t@, dst) {
                Ok((p, code)) => r == Ok::<ByteCode, ParseError>(code) && final(self)@ == p
                    && final(self)@.height_after(code, final(self).level()) == Some(
                    final(self).level(),
                ),
                Err(e) => r == Err::<ByteCode, ParseError>(e),
            },
            final(self).pending() == old(self).pending(),
            final(self).kept(old(self)),
            final(self).ready(0),
            final(self).level() == old(self).level(),
    {
        match t {
            Tok::Nil => self.set_global_const(dst, Val::Nil),
            Tok::True => self.set_global_const(dst, Val::Boolean(true)),
            Tok::False => self.set_global_const(dst, Val::Boolean(false)),
            Tok::Integer(i) => self.set_global_const(dst, Val::Integer(i)),
            Tok::Float(d) => self.set_global_const(dst, Val::Float(d)),
            Tok::String(s) => self.set_global_const(dst, Val::String(s)),
            Tok::Name(name) => {
                if let Some(i) = self.get_local(&name) {
                    match to_register(i) {
                        Ok(src) => Ok(ByteCode::SetGlobal(dst, src)),
                        Err(e) => Err(e),
                    }
                } else {
                    let ghost before = *self;
                    match self.global_name(name) {
                        Ok(i) => {
                            proof {
                                assert(self@.constants[dst as int] == before@.constants[dst as int]);
                            }
                            Ok(ByteCode::SetGlobalGlobal(dst, i))
                        },
                        Err(e) => Err(e),
                    }
                }
            },
            _ => Err(ParseError::ExpectedExpression),
        }
    }

    /// Compiles the setting of the global named by constant `dst` to the
    /// value that starts with the token `t`, which the pending tokens
    /// follow.
    fn assign_global(&mut self, t: Token, dst: u8) -> (r: Result<(), ParseError>)
        requires
            old(self).ready(0),
            old(self)@.is_name(dst as int),
        ensures
            final(self).did(r, old(self)@.assign_global(t@, old(self).pending(), dst)),
            r is Ok ==> final(self).ready(0) && final(self).pending().tokens.len() <= old(self).pending().tokens.len(),
    {
        proof {
            reveal(Proto::assign_global);
        }
        if self.is_plain(&t) {
            match self.set_global(t, dst) {
                Ok(code) => {
                    self.emit(code);
                    Ok(())
                },
                Err(e) => Err(e),
            }
        } else {
            let above = self.locals.len();
            let ghost before = *self;
            if let Err(e) = self.exp_after(t, above) {
                return Err(e);
            }
            proof {
                assert(self@.constants[dst as int] == before@.constants[dst as int]);
            }
            self.emit(ByteCode::SetGlobal(dst, above as u8));
            Ok(())
        }
    }

    /// Puts `c` into the constant pool unless a constant equal to it is
    /// there, and gives its place.
    pub fn add_const(&mut self, c: Value) -> (i: usize)
        ensures
            (final(self)@, i as int) == old(self)@.add_const(c@),
            i < final(self).constants.len(),
            final(self)@.constants[i as int] == c@,
            final(self).lex == old(self).lex,
            final(self).kept(old(self)),
            distinct(old(self)@.constants) ==> distinct(final(self)@.constants),
            old(self)@.top() is Some ==> final(self)@.top() == old(self)@.top(),
    {
        let i = find_const(&self.constants, &c);
        proof {
            lemma_first_index(self@.constants, c@, 0);
        }
        if i == self.constants.len() {
            proof {
                assert(values_view(self.constants@.push(c)) =~= values_view(self.constants@).push(
                    c@,
                ));
                if self@.top() is Some {
                    lemma_height_stable(
                        self@,
                        self@.add_const(c@).0,
                        self@.byte_codes.len() as int,
                    );
                }
            }
            self.constants.push(c);
        }
        i
    }

    /// The instruction that sets the global named by constant `dst` to `c`.
    fn set_global_const(&mut self, dst: u8, c: Value) -> (r: Result<ByteCode, ParseError>)
        requires
            old(self).ready(0),
            old(self)@.is_name(dst as int),
        ensures
            match old(self)@.set_global_const(dst, c@) {
                Ok((p, code)) => r == Ok::<ByteCode, ParseError>(code) && final(self)@ == p
                    && final(self)@.height_after(code, final(self).level()) == Some(
                    final(self).level(),
                ),
                Err(e) => r == Err::<ByteCode, ParseError>(e),
            },
            final(self).pending() == old(self).pending(),
            final(self).kept(old(self)),
            final(self).ready(0),
            final(self).level() == old(self).level(),
    {
        let i = self.add_const(c);
        if i > 0xff {
            Err(ParseError::TooManyConstants)
        } else {
            Ok(ByteCode::SetGlobalConst(dst, i as u8))
        }
    }

    /// The place of the name `name` in the constant pool.
    fn global_name(&mut self, name: Vec<u8>) -> (r: Result<u8, ParseError>)
        requires
            old(self).ready(0),
        ensures
            match old(self)@.global_name(name@) {
                Ok((p, i)) => r == Ok::<u8, ParseError>(i) && final(self)@ == p && final(self)@.is_name(i as int),
                Err(e) => r == Err::<u8, ParseError>(e),
            },
            final(self).pending() == old(self).pending(),
            final(self).kept(old(self)),
            final(self).ready(0),
            final(self).level() == old(self).level(),
    {
        let i = self.add_const(Val::String(name));
        if i > 0xff {
            Err(ParseError::TooManyConstants)
        } else {
            Ok(i as u8)
        }
    }

    /// The instruction that loads the constant `c` into register `dst`.
    fn load_const(&mut self, dst: usize, c: Value) -> (r: Result<ByteCode, ParseError>)
        requires
            old(self).ready(dst as int),
        ensures
            match old(self)@.load_const(dst as int, c@) {
                Ok((p, code)) => r == Ok::<ByteCode, ParseError>(code) && final(self)@ == p
                    && final(self)@.height_after(code, final(self).level()) == Some(
                    grown(final(self).level(), dst as int),
                ),
                Err(e) => r == Err::<ByteCode, ParseError>(e),
            },
            final(self).pending() == old(self).pending(),
            final(self).kept(old(self)),
            final(self).ready(dst as int),
            final(self).level() == old(self).level(),
    {
        let i = self.add_const(c);
        if dst > 255 {
            Err(ParseError::TooManyRegisters)
        } else if i > 0xffff {
            Err(ParseError::TooManyConstants)
        } else {
            Ok(ByteCode::LoadConst(dst as u8, i as u16))
        }
    }

    /// The instruction that loads the variable `name` into register `dst`.
    fn load_var(&mut self, dst: usize, name: Vec<u8>) -> (r: Result<ByteCode, ParseError>)
        requires
            old(self).ready(dst as int),
        ensures
            match old(self)@.load_var(dst as int, name@) {
                Ok((p, code)) => r == Ok::<ByteCode, ParseError>(code) && final(self)@ == p && dst
                    <= 255 && final(self)@.height_after(code, final(self).level()) == Some(
                    grown(final(self).level(), dst as int),
                ),
                Err(e) => r == Err::<ByteCode, ParseError>(e),
            },
            final(self).pending() == old(self).pending(),
            final(self).kept(old(self)),
            final(self).ready(dst as int),
            final(self).level() == old(self).level(),
    {
        if dst > 255 {
            return Err(ParseError::TooManyRegisters);
        }
        if let Some(i) = self.get_local(&name) {
            match to_register(i) {
                Ok(src) => Ok(ByteCode::Move(dst as u8, src)),
                Err(e) => Err(e),
            }
        } else {
            match self.global_name(name) {
                Ok(i) => Ok(ByteCode::GetGlobal(dst as u8, i)),
                Err(e) => Err(e),
            }
        }
    }

    /// The register of the local variable `name`: that of its latest
    /// declaration.
    pub fn get_local(&self, name: &Vec<u8>) -> (r: Option<usize>)
        ensures
            match r {
                Some(i) => self@.get_local(name@) == Some(i as int) && i < self.locals.len(),
                None => self@.get_local(name@) is None,
            },
    {
        find_local(&self.locals, name)
    }

    /// Compiles the expression at the start of the pending tokens into
    /// register `dst`.
    fn load_exp(&mut self, dst: usize) -> (r: Result<(), ParseError>)
        requires
            old(self).ready(dst as int),
            dst >= old(self).locals.len(),
        ensures
            final(self).did(r, old(self)@.load_exp(old(self).pending(), dst as int)),
            r is Ok ==> final(self).ready(dst + 1) && final(self).kept(old(self)) && dst <= 255
                && final(self).pending().tokens.len() < old(self).pending().tokens.len(),
        decreases old(self).pending().tokens.len(), 2int,
    {
        proof {
            reveal(Proto::exp_after);
            reveal(Proto::load_exp);
        }
        let t = match self.lex.next() {
            Ok(Some(t)) => t,
            Ok(None) => {
                return Err(ParseError::ExpectedExpression);
            },
            Err(e) => {
                return Err(ParseError::Lex(e));
            },
        };
        self.exp_after(t, dst)
    }

    /// Appends the instruction that loads the constant `c` into register
    /// `dst`.
    fn emit_const(&mut self, dst: usize, c: Value) -> (r: Result<(), ParseError>)
        requires
            old(self).ready(dst as int),
        ensures
            final(self).did(r, old(self)@.emit_const(old(self).pending(), dst as int, c@)),
            r is Ok ==> final(self).ready(dst + 1) && final(self).kept(old(self)) && final(self).level() >= old(self).level(),
    {
        match self.load_const(dst, c) {
            Ok(code) => {
                self.emit(code);
                Ok(())
            },
            Err(e) => Err(e),
        }
    }

    /// Compiles into register `dst` the expression that starts with the
    /// token `t`, which the pending tokens follow. Below the local
    /// variables' top, only an expression of one instruction is compiled.
    fn exp_after(&mut self, t: Token, dst: usize) -> (r: Result<(), ParseError>)
        requires
            old(self).ready(dst as int),
            dst >= old(self).locals.len() || plain(old(self).pending().after(t@)),
        ensures
            final(self).did(r, old(self)@.exp_after(t@, old(self).pending(), dst as int)),
            r is Ok ==> final(self).ready(dst + 1) && final(self).kept(old(self)) && dst <= 255,
            r is Ok && plain(old(self).pending().after(t@)) ==> final(self).level() >= old(self).level(),
        decreases old(self).pending().tokens.len(), 4int,
    {
        proof {
            reveal(Proto::suffixes);
            reveal(Proto::fields);
            reveal(Proto::exp_after);
        }
        proof {
            let s = old(self).pending();
            assert(s.after(t@).first() == Ok::<Option<TokenModel>, LexError>(Some(t@)));
            assert(s.after(t@).rest().tokens =~= s.tokens);
        }
        if dst > 255 {
            return Err(ParseError::TooManyRegisters);
        }
        match t {
            Tok::Nil => {
                self.emit(ByteCode::LoadNil(dst as u8));
                Ok(())
            },
            Tok::True => {
                self.emit(ByteCode::LoadBool(dst as u8, true));
                Ok(())
            },
            Tok::False => {
                self.emit(ByteCode::LoadBool(dst as u8, false));
                Ok(())
            },
            Tok::Integer(i) => {
                if -32768 <= i && i <= 32767 {
                    self.emit(ByteCode::LoadInt(dst as u8, i as i16));
                    Ok(())
                } else {
                    self.emit_const(dst, Val::Integer(i))
                }
            },
            Tok::Float(d) => self.emit_const(dst, Val::Float(d)),
            Tok::String(s) => self.emit_const(dst, Val::String(s)),
            Tok::Name(name) => {
                let code = match self.load_var(dst, name) {
                    Ok(code) => code,
                    Err(e) => {
                        return Err(e);
                    },
                };
                self.emit(code);
                self.suffixes(dst)
            },
            Tok::CurlyL => {
                let at = self.byte_codes.len();
                self.emit(ByteCode::NewTable(dst as u8, 0, 0));
                let ghost made = *self;
                match self.fields(dst) {
                    Ok((narray, nmap)) => {
                        proof {
                            assert(self@.byte_codes[at as int] == made@.byte_codes[at as int]);
                            lemma_height_hints(
                                self@,
                                at as int,
                                narray,
                                nmap,
                                self@.byte_codes.len() as int,
                            );
                        }
                        self.byte_codes[at] = ByteCode::NewTable(dst as u8, narray, nmap);
                        Ok(())
                    },
                    Err(e) => Err(e),
                }
            },
            _ => Err(ParseError::ExpectedExpression),
        }
    }

    /// Compiles the key at the start of the pending tokens, of the table in
    /// register `table`, and gives how the instruction is to name it.
    fn key(&mut self, table: usize) -> (r: Result<KeyRef, ParseError>)
        requires
            old(self).ready(table + 1),
            table >= old(self).locals.len(),
            table <= 255,
        ensures
            match old(self)@.key(old(self).pending(), table as int) {
                Ok((p, s, k)) => r == Ok::<KeyRef, ParseError>(k) && final(self)@ == p && final(self).pending() == s,
                Err(e) => r == Err::<KeyRef, ParseError>(e),
            },
            r matches Ok(k) ==> final(self).ready(table + 1) && final(self).kept(old(self))
                && final(self).pending().tokens.len() < old(self).pending().tokens.len() && (match k {
                KeyRef::Register(key) => key == table + 1 && final(self).level() >= table + 2,
                KeyRef::Field(c) => final(self)@.is_name(c as int),
                KeyRef::Integer(_) => true,
            }),
        decreases old(self).pending().tokens.len(), 0int,
    {
        proof {
            reveal(Proto::load_exp);
            reveal(Proto::key);
        }
        let t = match self.lex.next() {
            Ok(t) => t,
            Err(e) => {
                return Err(ParseError::Lex(e));
            },
        };
        match t {
            Some(Tok::SqurL) => {
                let small = match self.lex.peek() {
                    Ok(Some(Tok::Integer(i))) => {
                        if 0 <= *i && *i <= 255 {
                            Some(*i as u8)
                        } else {
                            None
                        }
                    },
                    _ => None,
                };
                match small {
                    Some(i) => {
                        let _ = self.lex.next();
                        match self.lex.next() {
                            Err(e) => Err(ParseError::Lex(e)),
                            Ok(Some(Tok::SqurR)) => Ok(KeyRef::Integer(i)),
                            Ok(_) => Err(ParseError::ExpectedRightSquare),
                        }
                    },
                    None => {
                        if let Err(e) = self.load_exp(table + 1) {
                            return Err(e);
                        }
                        match self.lex.next() {
                            Err(e) => Err(ParseError::Lex(e)),
                            Ok(Some(Tok::SqurR)) => Ok(KeyRef::Register((table + 1) as u8)),
                            Ok(_) => Err(ParseError::ExpectedRightSquare),
                        }
                    },
                }
            },
            Some(Tok::Dot) => {
                match self.lex.next() {
                    Err(e) => Err(ParseError::Lex(e)),
                    Ok(Some(Tok::Name(name))) => match self.global_name(name) {
                        Ok(c) => Ok(KeyRef::Field(c)),
                        Err(e) => Err(e),
                    },
                    Ok(_) => Err(ParseError::ExpectedName),
                }
            },
            _ => Err(ParseError::UnexpectedToken),
        }
    }

    /// Compiles what follows a variable in an expression, keys and calls.
    fn suffixes(&mut self, dst: usize) -> (r: Result<(), ParseError>)
        requires
            old(self).ready(dst + 1),
            dst >= old(self).locals.len() || !starts_suffix(old(self).pending()),
            dst <= 255,
        ensures
            final(self).did(r, old(self)@.suffixes(old(self).pending(), dst as int)),
            r is Ok ==> final(self).ready(dst + 1) && final(self).kept(old(self)),
            r is Ok && !starts_suffix(old(self).pending()) ==> final(self).level() == old(self).level(),
        decreases old(self).pending().tokens.len(), 1int,
    {
        proof {
            reveal(Proto::suffixes);
            reveal(Proto::key);
            reveal(Proto::args);
        }
        if !self.at_suffix() {
            return Ok(());
        }
        loop
            invariant
                dst <= 255,
                dst >= self.locals.len(),
                self.ready(dst + 1),
                self.kept(old(self)),
                old(self)@.suffixes(old(self).pending(), dst as int) == self@.suffixes(
                    self.pending(),
                    dst as int,
                ),
            decreases self.pending().tokens.len(),
        {
            proof {
                reveal(Proto::suffixes);
                reveal(Proto::key);
                reveal(Proto::args);
            }
            if self.at_key() {
                let k = match self.key(dst) {
                    Ok(k) => k,
                    Err(e) => {
                        return Err(e);
                    },
                };
                self.emit(get_instruction(dst as u8, dst as u8, k));
            } else if self.at_suffix() {
                let count = match self.args(dst) {
                    Ok(count) => count,
                    Err(e) => {
                        return Err(e);
                    },
                };
                self.emit(ByteCode::CallSet(dst as u8, dst as u8, count as u8));
            } else {
                return Ok(());
            }
        }
    }

    /// Appends the instruction that puts the `pending` listed items into
    /// the table in register `dst`, where there are any.
    fn flush(&mut self, dst: usize, pending: usize)
        requires
            old(self).ready(dst + 1 + pending),
            dst >= old(self).locals.len(),
            dst <= 255,
            pending <= 50,
        ensures
            final(self)@ == old(self)@.flush(dst as int, pending as int),
            final(self).pending() == old(self).pending(),
            final(self).ready(dst + 1),
            final(self).kept(old(self)),
    {
        if pending > 0 {
            self.emit(ByteCode::SetList(dst as u8, pending as u8));
        }
    }

    /// Compiles the field `Name = exp` of a table constructor, from the
    /// expression on.
    fn record_field(&mut self, name: Vec<u8>, dst: usize, free: usize) -> (r: Result<
        (),
        ParseError,
    >)
        requires
            old(self).ready(free as int),
            old(self).locals.len() <= dst < free,
            dst <= 255,
        ensures
            final(self).did(
                r,
                old(self)@.record_field(old(self).pending(), name@, dst as int, free as int),
            ),
            r is Ok ==> final(self).kept(old(self)) && final(self).ready(free as int),
        decreases old(self).pending().tokens.len(), 5int,
    {
        proof {
            reveal(Proto::load_exp);
            reveal(Proto::record_field);
        }
        let c = match self.global_name(name) {
            Ok(c) => c,
            Err(e) => {
                return Err(e);
            },
        };
        let ghost named = *self;
        if let Err(e) = self.load_exp(free) {
            return Err(e);
        }
        proof {
            assert(self@.constants[c as int] == named@.constants[c as int]);
        }
        self.emit(ByteCode::SetField(dst as u8, c, free as u8));
        Ok(())
    }

    /// Compiles the field `[exp] = exp` of a table constructor, from the
    /// first expression on.
    fn bracket_field(&mut self, dst: usize, free: usize) -> (r: Result<(), ParseError>)
        requires
            old(self).ready(free as int),
            old(self).locals.len() <= dst < free,
            dst <= 255,
        ensures
            final(self).did(
                r,
                old(self)@.bracket_field(old(self).pending(), dst as int, free as int),
            ),
            r is Ok ==> final(self).kept(old(self)) && final(self).ready(free as int),
        decreases old(self).pending().tokens.len(), 5int,
    {
        proof {
            reveal(Proto::load_exp);
            reveal(Proto::bracket_field);
        }
        if let Err(e) = self.load_exp(free) {
            return Err(e);
        }
        match self.lex.next() {
            Err(e) => {
                return Err(ParseError::Lex(e));
            },
            Ok(Some(Tok::SqurR)) => {},
            Ok(_) => {
                return Err(ParseError::ExpectedRightSquare);
            },
        }
        match self.lex.next() {
            Err(e) => {
                return Err(ParseError::Lex(e));
            },
            Ok(Some(Tok::Assign)) => {},
            Ok(_) => {
                return Err(ParseError::ExpectedAssign);
            },
        }
        if let Err(e) = self.load_exp(free + 1) {
            return Err(e);
        }
        self.emit(ByteCode::SetTable(dst as u8, free as u8, (free + 1) as u8));
        Ok(())
    }

    /// Compiles the field of a table constructor that starts with the token
    /// `t`, which the pending tokens follow; says whether it is a listed
    /// item, left in register `free`.
    fn field_after(&mut self, t: Token, dst: usize, free: usize) -> (r: Result<bool, ParseError>)
        requires
            old(self).ready(free as int),
            old(self).locals.len() <= dst < free,
            dst <= 255,
        ensures
            match old(self)@.field_after(t@, old(self).pending(), dst as int, free as int) {
                Ok((p, s, listed)) => r == Ok::<bool, ParseError>(listed) && final(self)@ == p
                    && final(self).pending() == s,
                Err(e) => r == Err::<bool, ParseError>(e),
            },
            r matches Ok(listed) ==> final(self).kept(old(self)) && final(self).ready(
                if listed {
                    free + 1
                } else {
                    free as int
                },
            ),
        decreases old(self).pending().tokens.len(), 6int,
    {
        proof {
            reveal(Proto::record_field);
            reveal(Proto::bracket_field);
            reveal(Proto::exp_after);
            reveal(Proto::field_after);
        }
        match t {
            Tok::SqurL => {
                match self.bracket_field(dst, free) {
                    Ok(()) => Ok(false),
                    Err(e) => Err(e),
                }
            },
            Tok::Name(name) => {
                if self.at_assign() {
                    let _ = self.lex.next();
                    match self.record_field(name, dst, free) {
                        Ok(()) => Ok(false),
                        Err(e) => Err(e),
                    }
                } else {
                    match self.exp_after(Tok::Name(name), free) {
                        Ok(()) => Ok(true),
                        Err(e) => Err(e),
                    }
                }
            },
            other => {
                match self.exp_after(other, free) {
                    Ok(()) => Ok(true),
                    Err(e) => Err(e),
                }
            },
        }
    }

    /// Compiles the fields of a table constructor through the closing `}`,
    /// for the table in register `dst`; gives the numbers of its listed and
    /// of its keyed fields, each as a hint.
    fn fields(&mut self, dst: usize) -> (r: Result<(u8, u8), ParseError>)
        requires
            old(self).ready(dst + 1),
            dst >= old(self).locals.len(),
            dst <= 255,
        ensures
            match old(self)@.fields(old(self).pending(), dst as int, 0, 0, 0) {
                Ok((p, s, narray, nmap)) => r == Ok::<(u8, u8), ParseError>(
                    (hint(narray), hint(nmap)),
                ) && final(self)@ == p && final(self).pending() == s,
                Err(e) => r == Err::<(u8, u8), ParseError>(e),
            },
            r is Ok ==> final(self).ready(dst + 1) && final(self).kept(old(self)),
        decreases old(self).pending().tokens.len(), 3int,
    {
        proof {
            reveal(Proto::field_after);
            reveal(Proto::fields);
        }
        let mut pending: usize = 0;
        let mut narray: u8 = 0;
        let mut nmap: u8 = 0;
        let ghost mut listed: int = 0;
        let ghost mut keyed: int = 0;
        loop
            invariant
                dst <= 255,
                dst >= self.locals.len(),
                pending < 50,
                0 <= listed,
                0 <= keyed,
                narray == hint(listed),
                nmap == hint(keyed),
                self.ready(dst + 1 + pending),
                self.kept(old(self)),
                old(self)@.fields(old(self).pending(), dst as int, 0, 0, 0) == self@.fields(
                    self.pending(),
                    dst as int,
                    pending as int,
                    listed,
                    keyed,
                ),
            decreases self.pending().tokens.len(),
        {
            proof {
                reveal(Proto::field_after);
                reveal(Proto::fields);
            }
            let t = match self.lex.next() {
                Ok(Some(t)) => t,
                Ok(None) => {
                    return Err(ParseError::ExpectedExpression);
                },
                Err(e) => {
                    return Err(ParseError::Lex(e));
                },
            };
            if let Tok::CurlyR = t {
                self.flush(dst, pending);
                return Ok((narray, nmap));
            }
            let is_listed = match self.field_after(t, dst, dst + 1 + pending) {
                Ok(is_listed) => is_listed,
                Err(e) => {
                    return Err(e);
                },
            };
            if is_listed {
                pending += 1;
                if narray < 255 {
                    narray += 1;
                }
                proof {
                    listed = listed + 1;
                }
                if pending == 50 {
                    self.flush(dst, 50);
                    pending = 0;
                }
            } else {
                if nmap < 255 {
                    nmap += 1;
                }
                proof {
                    keyed = keyed + 1;
                }
            }
            proof {
                lemma_fields_end(self@, self.pending(), dst as int, pending as int, listed, keyed);
            }
            match self.lex.next() {
                Err(e) => {
                    return Err(ParseError::Lex(e));
                },
                Ok(Some(Tok::Comma)) => {},
                Ok(Some(Tok::SemiColon)) => {},
                Ok(Some(Tok::CurlyR)) => {
                    self.flush(dst, pending);
                    return Ok((narray, nmap));
                },
                Ok(_) => {
                    return Err(ParseError::ExpectedRightCurly);
                },
            }
        }
    }
}

/// The instruction that reads the key `key` of the table in register `t`
/// into register `dst`.
fn get_instruction(dst: u8, t: u8, key: KeyRef) -> (code: ByteCode)
    ensures
        code == get_code(dst, t, key),
{
    match key {
        KeyRef::Register(k) => ByteCode::GetTable(dst, t, k),
        KeyRef::Field(k) => ByteCode::GetField(dst, t, k),
        KeyRef::Integer(k) => ByteCode::GetInt(dst, t, k),
    }
}

/// The instruction that sets the key `key` of the table in register `t` to
/// the value of register `src`.
fn set_instruction(t: u8, key: KeyRef, src: u8) -> (code: ByteCode)
    ensures
        code == set_code(t, key, src),
{
    match key {
        KeyRef::Register(k) => ByteCode::SetTable(t, k, src),
        KeyRef::Field(k) => ByteCode::SetField(t, k, src),
        KeyRef::Integer(k) => ByteCode::SetInt(t, k, src),
    }
}

} // verus!
