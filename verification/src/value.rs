//! The values that a program computes with.
use vstd::prelude::*;
use vstd::string::{StrSliceExecFns, StringSliceAdditionalSpecFns};
use crate::number::{int_text, nat_text, write_int, write_nat, Decimal};

verus! {

/// A function that the library itself provides.
#[derive(Clone, Copy, Debug, PartialEq, Eq, Structural)]
pub enum Native {
    /// Writes its arguments, separated by tabs, as one line of output.
    Print,
    /// Gives the name of its argument's type.
    Type,
    /// Gives the three values that step through a table's array part.
    Ipairs,
    /// One step through a table's array part.
    IpairsAux,
    /// Makes a new counter, and gives the function that counts on it.
    NewCounter,
    /// Counts one more on the counter at this place among the state's
    /// counters, and writes the count as a line of output.
    Counter(usize),
}

/// A value, with strings held as `S`: as `Vec<u8>` in a running program
/// ([`Value`]) and as `Seq<u8>` in contracts ([`ValueModel`]).
#[derive(Debug)]
pub enum Val<S> {
    Nil,
    Boolean(bool),
    Integer(i64),
    Float(Decimal),
    String(S),
    Function(Native),
    /// A table, named by its place among the state's tables. Every copy of
    /// the value names the same table.
    Table(usize),
}

/// A value of a running program.
pub type Value = Val<Vec<u8>>;

/// What a [`Value`] is, as contracts speak of it.
pub type ValueModel = Val<Seq<u8>>;

impl View for Val<Vec<u8>> {
    type V = Val<Seq<u8>>;

    open spec fn view(&self) -> Val<Seq<u8>> {
        match *self {
            Val::Nil => Val::Nil,
            Val::Boolean(b) => Val::Boolean(b),
            Val::Integer(i) => Val::Integer(i),
            Val::Float(d) => Val::Float(d),
            Val::String(s) => Val::String(s@),
            Val::Function(f) => Val::Function(f),
            Val::Table(t) => Val::Table(t),
        }
    }
}

/// The views of a sequence of values, one for one.
pub open spec fn values_view(s: Seq<Value>) -> Seq<ValueModel> {
    s.map_values(|v: Value| v@)
}

/// Whether `a` and `b` hold the same bytes.
pub fn bytes_eq(a: &Vec<u8>, b: &Vec<u8>) -> (r: bool)
    ensures
        r == (a@ == b@),
{
    if a.len() != b.len() {
        return false;
    }
    let mut i: usize = 0;
    while i < a.len()
        invariant
            a.len() == b.len(),
            i <= a.len(),
            forall|j: int| 0 <= j < i ==> a@[j] == b@[j],
        decreases a.len() - i,
    {
        if a[i] != b[i] {
            return false;
        }
        i += 1;
    }
    assert(a@ =~= b@);
    true
}

/// Appends the bytes of `s` to `out`.
pub fn write_bytes(s: &Vec<u8>, out: &mut Vec<u8>)
    ensures
        final(out)@ == old(out)@ + s@,
{
    let ghost before = out@;
    let mut i: usize = 0;
    while i < s.len()
        invariant
            i <= s.len(),
            out@ == before + s@.subrange(0, i as int),
        decreases s.len() - i,
    {
        out.push(s[i]);
        i += 1;
        assert(out@ =~= before + s@.subrange(0, i as int));
    }
    assert(out@ =~= before + s@);
}

/// Equality of values is equality of their views: the same variant with the
/// same contents, strings compared byte by byte.
impl PartialEq for Val<Vec<u8>> {
    fn eq(&self, other: &Self) -> (r: bool) {
        match (self, other) {
            (Val::Nil, Val::Nil) => true,
            (Val::Boolean(a), Val::Boolean(b)) => *a == *b,
            (Val::Integer(a), Val::Integer(b)) => *a == *b,
            (Val::Float(a), Val::Float(b)) => a.whole == b.whole && a.frac == b.frac && a.scale
                == b.scale,
            (Val::String(a), Val::String(b)) => bytes_eq(a, b),
            (Val::Function(a), Val::Function(b)) => *a == *b,
            (Val::Table(a), Val::Table(b)) => *a == *b,
            _ => false,
        }
    }
}

impl vstd::std_specs::cmp::PartialEqSpecImpl for Val<Vec<u8>> {
    open spec fn obeys_eq_spec() -> bool {
        true
    }

    open spec fn eq_spec(&self, other: &Self) -> bool {
        self@ == other@
    }
}

impl Clone for Val<Vec<u8>> {
    fn clone(&self) -> (r: Self)
        ensures
            r@ == self@,
    {
        match self {
            Val::Nil => Val::Nil,
            Val::Boolean(b) => Val::Boolean(*b),
            Val::Integer(i) => Val::Integer(*i),
            Val::Float(d) => Val::Float(*d),
            Val::String(s) => Val::String(s.clone()),
            Val::Function(f) => Val::Function(*f),
            Val::Table(t) => Val::Table(*t),
        }
    }
}

impl Native {
    /// The name under which the function is known.
    pub open spec fn name(self) -> Seq<u8> {
        match self {
            Native::Print => "print".spec_bytes(),
            Native::Type => "type".spec_bytes(),
            Native::Ipairs => "ipairs".spec_bytes(),
            Native::IpairsAux => "ipairs_aux".spec_bytes(),
            Native::NewCounter => "test_new_counter".spec_bytes(),
            Native::Counter(_) => "counter".spec_bytes(),
        }
    }

    /// Gives `self.name()`.
    pub fn name_bytes(self) -> (r: Vec<u8>)
        ensures
            r@ == self.name(),
    {
        match self {
            Native::Print => "print".as_bytes_vec(),
            Native::Type => "type".as_bytes_vec(),
            Native::Ipairs => "ipairs".as_bytes_vec(),
            Native::IpairsAux => "ipairs_aux".as_bytes_vec(),
            Native::NewCounter => "test_new_counter".as_bytes_vec(),
            Native::Counter(_) => "counter".as_bytes_vec(),
        }
    }
}

impl Val<Seq<u8>> {
    /// The name of the value's type, as the language's `type` gives it.
    pub open spec fn kind_name(self) -> Seq<u8> {
        match self {
            Val::Nil => "nil".spec_bytes(),
            Val::Boolean(_) => "boolean".spec_bytes(),
            Val::Integer(_) | Val::Float(_) => "number".spec_bytes(),
            Val::String(_) => "string".spec_bytes(),
            Val::Function(_) => "function".spec_bytes(),
            Val::Table(_) => "table".spec_bytes(),
        }
    }

    /// The text that printing the value writes.
    pub open spec fn text(self) -> Seq<u8> {
        match self {
            Val::Nil => "nil".spec_bytes(),
            Val::Boolean(b) => if b {
                "true".spec_bytes()
            } else {
                "false".spec_bytes()
            },
            Val::Integer(i) => int_text(i as int),
            Val::Float(d) => d.text(),
            Val::String(s) => s,
            Val::Function(f) => self.kind_name() + ": ".spec_bytes() + f.name(),
            Val::Table(t) => self.kind_name() + ": ".spec_bytes() + nat_text(t as nat),
        }
    }
}

impl Val<Vec<u8>> {
    /// The name of the value's type.
    pub fn ty(&self) -> (r: Vec<u8>)
        ensures
            r@ == self@.kind_name(),
    {
        match self {
            Val::Nil => "nil".as_bytes_vec(),
            Val::Boolean(_) => "boolean".as_bytes_vec(),
            Val::Integer(_) | Val::Float(_) => "number".as_bytes_vec(),
            Val::String(_) => "string".as_bytes_vec(),
            Val::Function(_) => "function".as_bytes_vec(),
            Val::Table(_) => "table".as_bytes_vec(),
        }
    }

    /// Appends the value's text to `out`.
    pub fn write_text(&self, out: &mut Vec<u8>)
        ensures
            final(out)@ == old(out)@ + self@.text(),
    {
        let ghost before = out@;
        match self {
            Val::Nil => {
                write_bytes(&"nil".as_bytes_vec(), out);
            },
            Val::Boolean(b) => {
                if *b {
                    write_bytes(&"true".as_bytes_vec(), out);
                } else {
                    write_bytes(&"false".as_bytes_vec(), out);
                }
            },
            Val::Integer(i) => {
                write_int(*i, out);
            },
            Val::Float(d) => {
                d.write_text(out);
            },
            Val::String(s) => {
                write_bytes(s, out);
            },
            Val::Function(f) => {
                write_bytes(&self.ty(), out);
                write_bytes(&": ".as_bytes_vec(), out);
                write_bytes(&f.name_bytes(), out);
                assert(out@ =~= before + self@.text());
            },
            Val::Table(t) => {
                write_bytes(&self.ty(), out);
                write_bytes(&": ".as_bytes_vec(), out);
                write_nat(*t as u64, out);
                assert(out@ =~= before + self@.text());
            },
        }
    }

    /// The value's text.
    pub fn to_text(&self) -> (r: Vec<u8>)
        ensures
            r@ == self@.text(),
    {
        let mut out: Vec<u8> = Vec::new();
        self.write_text(&mut out);
        assert(out@ =~= self@.text());
        out
    }
}

} // verus!
