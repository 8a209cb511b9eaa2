//! Numbers as the language writes them: decimal digits in, decimal digits out.
use vstd::prelude::*;

verus! {

/// Whether `b` is one of the bytes `0` to `9`.
pub open spec fn is_digit(b: u8) -> bool {
    '0' as u8 <= b <= '9' as u8
}

/// The number that the decimal digits `s[from..to]` spell, most significant first.
pub open spec fn digits_value(s: Seq<u8>, from: int, to: int) -> nat
    decreases to - from,
{
    if to <= from {
        0
    } else {
        digits_value(s, from, to - 1) * 10 + (s[to - 1] - '0' as u8) as nat
    }
}

/// A fraction stripped of the zeros at its end: the pair of the digits' number
/// and their count, for the digits' number `frac` written with `scale` digits.
pub open spec fn reduce(frac: nat, scale: nat) -> (nat, nat)
    decreases scale,
{
    if scale > 0 && frac % 10 == 0 {
        reduce(frac / 10, (scale - 1) as nat)
    } else {
        (frac, scale)
    }
}

/// A number with a fraction, held exactly as it was written in decimal:
/// `whole + frac / 10^scale`.
///
/// Two of them are equal as numbers exactly when their fields are equal,
/// as long as both are reduced, and every constructor here reduces.
#[derive(Clone, Copy, Debug, PartialEq, Eq, Structural)]
pub struct Decimal {
    pub whole: u64,
    pub frac: u64,
    pub scale: u64,
}

impl Decimal {
    /// No zero stands at the end of the fraction.
    pub open spec fn reduced(self) -> bool {
        self.scale == 0 || self.frac % 10 != 0
    }

    /// The decimal `whole + frac / 10^scale`, reduced.
    pub open spec fn of(whole: nat, frac: nat, scale: nat) -> Decimal {
        Decimal {
            whole: whole as u64,
            frac: reduce(frac, scale).0 as u64,
            scale: reduce(frac, scale).1 as u64,
        }
    }

    /// Builds the reduced decimal `whole + frac / 10^scale`.
    pub fn new(whole: u64, frac: u64, scale: u64) -> (d: Decimal)
        ensures
            d == Decimal::of(whole as nat, frac as nat, scale as nat),
            d.reduced(),
    {
        let mut f: u64 = frac;
        let mut n: u64 = scale;
        while n > 0 && f % 10 == 0
            invariant
                reduce(f as nat, n as nat) == reduce(frac as nat, scale as nat),
            decreases n,
        {
            f = f / 10;
            n = n - 1;
        }
        Decimal { whole, frac: f, scale: n }
    }

    /// The text of this number: the whole part, a point, and the fraction's
    /// digits (a single `0` where there are none).
    pub open spec fn text(self) -> Seq<u8> {
        nat_text(self.whole as nat) + seq!['.' as u8] + if self.scale == 0 {
            seq!['0' as u8]
        } else {
            frac_text(self.frac as nat, self.scale as nat)
        }
    }

    /// Appends `self.text()` to `out`.
    pub fn write_text(&self, out: &mut Vec<u8>)
        ensures
            final(out)@ == old(out)@ + self.text(),
    {
        let ghost before = out@;
        write_nat(self.whole, out);
        out.push('.' as u8);
        if self.scale == 0 {
            out.push('0' as u8);
            assert(out@ =~= before + self.text());
        } else {
            write_frac(self.frac, self.scale, out);
            assert(out@ =~= before + self.text());
        }
    }
}

/// The decimal text of `n`, without leading zeros.
pub open spec fn nat_text(n: nat) -> Seq<u8>
    decreases n,
{
    if n < 10 {
        seq![('0' as u8 + n) as u8]
    } else {
        nat_text(n / 10).push(('0' as u8 + n % 10) as u8)
    }
}

/// The last `scale` decimal digits of `frac`, zeros in front where it has fewer.
pub open spec fn frac_text(frac: nat, scale: nat) -> Seq<u8>
    decreases scale,
{
    if scale == 0 {
        Seq::empty()
    } else {
        frac_text(frac / 10, (scale - 1) as nat).push(('0' as u8 + frac % 10) as u8)
    }
}

/// The decimal text of `i`, with a minus sign in front of a negative number.
pub open spec fn int_text(i: int) -> Seq<u8> {
    if i < 0 {
        seq!['-' as u8] + nat_text((-i) as nat)
    } else {
        nat_text(i as nat)
    }
}

/// Appends to `out` the bytes of `digits` from the last to the first.
fn write_reversed(digits: &Vec<u8>, out: &mut Vec<u8>)
    ensures
        final(out)@ == old(out)@ + digits@.reverse(),
{
    let ghost before = out@;
    let mut i: usize = digits.len();
    while i > 0
        invariant
            i <= digits.len(),
            out@ == before + digits@.reverse().subrange(0, digits.len() - i),
        decreases i,
    {
        i = i - 1;
        out.push(digits[i]);
        assert(out@ =~= before + digits@.reverse().subrange(0, digits.len() - i));
    }
    assert(out@ =~= before + digits@.reverse());
}

/// Appends `nat_text(n)` to `out`.
pub fn write_nat(n: u64, out: &mut Vec<u8>)
    ensures
        final(out)@ == old(out)@ + nat_text(n as nat),
{
    let mut low: Vec<u8> = Vec::new();
    let mut rest: u64 = n;
    while rest >= 10
        invariant
            nat_text(n as nat) == nat_text(rest as nat) + low@.reverse(),
        decreases rest,
    {
        let d: u8 = (rest % 10) as u8;
        proof {
            let next = low@.push(('0' as u8 + d) as u8);
            assert(next.reverse() =~= seq![('0' as u8 + d) as u8] + low@.reverse());
            assert(nat_text(rest as nat) + low@.reverse() =~= nat_text((rest / 10) as nat)
                + next.reverse());
        }
        low.push('0' as u8 + d);
        rest = rest / 10;
    }
    proof {
        let next = low@.push(('0' as u8 + rest) as u8);
        assert(next.reverse() =~= seq![('0' as u8 + rest) as u8] + low@.reverse());
        assert(nat_text(n as nat) =~= next.reverse());
    }
    low.push('0' as u8 + rest as u8);
    write_reversed(&low, out);
}

/// Appends `frac_text(frac, scale)` to `out`.
pub fn write_frac(frac: u64, scale: u64, out: &mut Vec<u8>)
    ensures
        final(out)@ == old(out)@ + frac_text(frac as nat, scale as nat),
{
    let mut low: Vec<u8> = Vec::new();
    let mut rest: u64 = frac;
    let mut left: u64 = scale;
    while left > 0
        invariant
            frac_text(frac as nat, scale as nat) == frac_text(rest as nat, left as nat)
                + low@.reverse(),
        decreases left,
    {
        let d: u8 = (rest % 10) as u8;
        proof {
            let next = low@.push(('0' as u8 + d) as u8);
            assert(next.reverse() =~= seq![('0' as u8 + d) as u8] + low@.reverse());
            assert(frac_text(rest as nat, left as nat) + low@.reverse() =~= frac_text(
                (rest / 10) as nat,
                (left - 1) as nat,
            ) + next.reverse());
        }
        low.push('0' as u8 + d);
        rest = rest / 10;
        left = left - 1;
    }
    assert(frac_text(frac as nat, scale as nat) =~= low@.reverse());
    write_reversed(&low, out);
}

/// Appends `int_text(i)` to `out`.
pub fn write_int(i: i64, out: &mut Vec<u8>)
    ensures
        final(out)@ == old(out)@ + int_text(i as int),
{
    let ghost before = out@;
    if i < 0 {
        out.push('-' as u8);
        let m: u64 = if i == i64::MIN {
            9223372036854775808u64
        } else {
            (-i) as u64
        };
        write_nat(m, out);
        assert(out@ =~= before + int_text(i as int));
    } else {
        write_nat(i as u64, out);
    }
}


/// Ten to the power `n`.
pub open spec fn pow10(n: nat) -> nat
    decreases n,
{
    if n == 0 {
        1
    } else {
        10 * pow10((n - 1) as nat)
    }
}

impl Decimal {
    /// The fraction is less than one: its digits' number has no more than
    /// `scale` digits.
    pub open spec fn proper(self) -> bool {
        self.frac < pow10(self.scale as nat)
    }

    /// Whether `self` and `other` are the same number: whether
    /// `whole + frac / 10^scale` is the same for both, with the division
    /// cleared away.
    pub open spec fn same_number(self, other: Decimal) -> bool {
        (self.whole * pow10(self.scale as nat) + self.frac) * pow10(other.scale as nat) == (
        other.whole * pow10(other.scale as nat) + other.frac) * pow10(self.scale as nat)
    }
}

/// A power of ten is positive.
pub proof fn lemma_pow10_positive(n: nat)
    ensures
        pow10(n) > 0,
    decreases n,
{
    if n > 0 {
        lemma_pow10_positive((n - 1) as nat);
    }
}

/// To strip the zeros at the end of a fraction keeps the number that it
/// is, leaves no zero at its end, and keeps it less than one.
pub proof fn law_reduce_keeps_number(frac: nat, scale: nat)
    ensures
        frac * pow10(reduce(frac, scale).1) == reduce(frac, scale).0 * pow10(scale),
        reduce(frac, scale).1 <= scale,
        reduce(frac, scale).0 <= frac,
        reduce(frac, scale).1 == 0 || reduce(frac, scale).0 % 10 != 0,
        frac < pow10(scale) ==> reduce(frac, scale).0 < pow10(reduce(frac, scale).1),
    decreases scale,
{
    if scale > 0 && frac % 10 == 0 {
        let f = frac / 10;
        let n = (scale - 1) as nat;
        law_reduce_keeps_number(f, n);
        let (rf, rn) = reduce(f, n);
        let a = pow10(rn);
        let b = pow10(n);
        assert(frac == 10 * f);
        assert(frac * a == rf * (10 * b)) by (nonlinear_arith)
            requires
                f * a == rf * b,
                frac == 10 * f,
        ;
    }
}

/// Numbers with no multiple of ten among them, each times a power of ten,
/// are equal only where the numbers and the powers are.
pub proof fn lemma_powers_cancel(f1: nat, f2: nat, a: nat, b: nat)
    requires
        f1 % 10 != 0,
        f2 % 10 != 0,
        f1 * pow10(a) == f2 * pow10(b),
    ensures
        a == b,
        f1 == f2,
    decreases a,
{
    if a == 0 {
        if b > 0 {
            let q = pow10((b - 1) as nat);
            assert(f1 == 10 * (f2 * q)) by (nonlinear_arith)
                requires
                    f1 * 1 == f2 * (10 * q),
            ;
        }
    } else if b == 0 {
        let q = pow10((a - 1) as nat);
        assert(f2 == 10 * (f1 * q)) by (nonlinear_arith)
            requires
                f1 * (10 * q) == f2 * 1,
        ;
    } else {
        let p = pow10((a - 1) as nat);
        let q = pow10((b - 1) as nat);
        assert(f1 * p == f2 * q) by (nonlinear_arith)
            requires
                f1 * (10 * p) == f2 * (10 * q),
        ;
        lemma_powers_cancel(f1, f2, (a - 1) as nat, (b - 1) as nat);
    }
}

/// Two decimals that are reduced, with fractions less than one, are the
/// same number exactly when they are equal: when their fields are.
pub proof fn law_equal_numbers_are_equal(a: Decimal, b: Decimal)
    requires
        a.reduced(),
        a.proper(),
        b.reduced(),
        b.proper(),
    ensures
        a.same_number(b) <==> a == b,
{
    if a.same_number(b) {
        let pa = pow10(a.scale as nat);
        let pb = pow10(b.scale as nat);
        lemma_pow10_positive(a.scale as nat);
        lemma_pow10_positive(b.scale as nat);
        let (wa, fa, wb, fb) = (a.whole as nat, a.frac as nat, b.whole as nat, b.frac as nat);
        assert(wa == wb && fa * pb == fb * pa) by (nonlinear_arith)
            requires
                (wa * pa + fa) * pb == (wb * pb + fb) * pa,
                fa < pa,
                fb < pb,
                pa > 0,
                pb > 0,
        ;
        if fa % 10 != 0 && fb % 10 != 0 {
            lemma_powers_cancel(fa, fb, b.scale as nat, a.scale as nat);
        } else if fa % 10 == 0 {
            assert(fb * pa == 0) by (nonlinear_arith)
                requires
                    fa * pb == fb * pa,
                    fa == 0,
            ;
            assert(fb == 0) by (nonlinear_arith)
                requires
                    fb * pa == 0,
                    pa > 0,
            ;
        } else {
            assert(fa * pb == 0) by (nonlinear_arith)
                requires
                    fa * pb == fb * pa,
                    fb == 0,
            ;
            assert(fa == 0) by (nonlinear_arith)
                requires
                    fa * pb == 0,
                    pb > 0,
            ;
        }
    }
}

} // verus!
