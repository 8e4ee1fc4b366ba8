use vstd::prelude::*;

verus! {

/// Units per whole: a `Fixed` holds nine fractional digits.
pub const SCALE: i128 = 1_000_000_000;

/// Largest magnitude, in units, of a price, a quantity or the volume resting
/// in a book (ten billion billion whole units).
pub const MAX_UNITS: i128 = 10_000_000_000_000_000_000_000_000_000;

/// A signed fixed-point decimal: `units / SCALE`. Sums and differences of
/// values within `MAX_UNITS` are exact.
#[derive(Clone, Copy, Debug, PartialEq, Eq, Structural, Hash, PartialOrd, Ord)]
pub struct Fixed {
    pub units: i128,
}

impl Fixed {
    /// The value in units.
    pub open spec fn val(self) -> int {
        self.units as int
    }

    /// The value is a magnitude that the book can hold.
    pub open spec fn in_range(self) -> bool {
        -MAX_UNITS <= self.units <= MAX_UNITS
    }

    pub fn zero() -> (r: Fixed)
        ensures
            r.val() == 0,
    {
        Fixed { units: 0 }
    }

    /// The whole number `n`.
    pub fn from_int(n: i64) -> (r: Fixed)
        ensures
            r.val() == n * SCALE,
    {
        assert(-9_223_372_036_854_775_808 * 1_000_000_000 <= n * 1_000_000_000 <= 9_223_372_036_854_775_807
            * 1_000_000_000) by (nonlinear_arith)
            requires
                -9_223_372_036_854_775_808 <= n <= 9_223_372_036_854_775_807,
        ;
        Fixed { units: (n as i128) * SCALE }
    }

    /// The value with the given number of units.
    pub fn from_units(units: i128) -> (r: Fixed)
        ensures
            r.units == units,
    {
        Fixed { units }
    }

    pub fn is_zero(&self) -> (r: bool)
        ensures
            r == (self.val() == 0),
    {
        self.units == 0
    }

    pub fn is_positive(&self) -> (r: bool)
        ensures
            r == (self.val() > 0),
    {
        self.units > 0
    }

    /// Exact sum of two values of the book's range.
    pub fn plus(self, o: Fixed) -> (r: Fixed)
        requires
            self.in_range(),
            o.in_range(),
        ensures
            r.val() == self.val() + o.val(),
    {
        Fixed { units: self.units + o.units }
    }

    /// Exact difference of two values of the book's range.
    pub fn minus(self, o: Fixed) -> (r: Fixed)
        requires
            self.in_range(),
            o.in_range(),
        ensures
            r.val() == self.val() - o.val(),
    {
        Fixed { units: self.units - o.units }
    }

    /// The smaller of two values.
    pub fn min(self, o: Fixed) -> (r: Fixed)
        ensures
            r.val() == if self.val() <= o.val() { self.val() } else { o.val() },
    {
        if self.units <= o.units {
            self
        } else {
            o
        }
    }
}


/// ASCII digits of `n`, most significant first.
pub open spec fn digits(n: nat) -> Seq<u8>
    decreases n,
{
    if n < 10 {
        seq![(48 + n) as u8]
    } else {
        digits(n / 10).push((48 + n % 10) as u8)
    }
}

/// The last `k` decimal digits of `f`, with leading zeros.
pub open spec fn padded_digits(f: nat, k: nat) -> Seq<u8>
    decreases k,
{
    if k == 0 {
        Seq::empty()
    } else {
        padded_digits(f / 10, (k - 1) as nat).push((48 + f % 10) as u8)
    }
}

/// `s` without its trailing `0` digits.
pub open spec fn trim_zeros(s: Seq<u8>) -> Seq<u8>
    decreases s.len(),
{
    if s.len() > 0 && s.last() == 48u8 {
        trim_zeros(s.drop_last())
    } else {
        s
    }
}

/// The canonical text of `units / SCALE` in ASCII: a minus sign for a
/// negative value, the whole part, then a point and the fraction without
/// trailing zeros when there is one (`100`, `0.25`, `-2.5`).
pub open spec fn decimal_bytes(units: int) -> Seq<u8> {
    let a: nat = if units < 0 { (-units) as nat } else { units as nat };
    let frac = trim_zeros(padded_digits(a % 1_000_000_000, 9));
    (if units < 0 { seq![45u8] } else { Seq::<u8>::empty() }) + digits(a / 1_000_000_000) + (if frac.len()
        == 0 {
        Seq::<u8>::empty()
    } else {
        seq![46u8] + frac
    })
}

fn push_digits(n: u128, out: &mut Vec<u8>)
    ensures
        final(out)@ == old(out)@ + digits(n as nat),
    decreases n,
{
    if n < 10 {
        out.push((48 + n) as u8);
    } else {
        push_digits(n / 10, out);
        out.push((48 + n % 10) as u8);
        proof {
            assert(final(out)@ =~= old(out)@ + digits(n as nat));
        }
    }
}

fn push_padded(f: u128, k: u32, out: &mut Vec<u8>)
    ensures
        final(out)@ == old(out)@ + padded_digits(f as nat, k as nat),
    decreases k,
{
    if k == 0 {
        proof {
            assert(final(out)@ =~= old(out)@ + padded_digits(f as nat, k as nat));
        }
    } else {
        push_padded(f / 10, k - 1, out);
        out.push((48 + f % 10) as u8);
        proof {
            assert(final(out)@ =~= old(out)@ + padded_digits(f as nat, k as nat));
        }
    }
}

/// The canonical text of a value, such as `100` or `0.25`, in ASCII.
pub fn fixed_text(p: Fixed) -> (r: Vec<u8>)
    requires
        p.in_range(),
    ensures
        r@ == decimal_bytes(p.val()),
{
    let a: u128 = if p.units < 0 { (-p.units) as u128 } else { p.units as u128 };
    let mut frac: Vec<u8> = Vec::new();
    push_padded(a % 1_000_000_000, 9, &mut frac);
    let ghost f0 = frac@;
    proof {
        assert(f0 =~= padded_digits((a % 1_000_000_000) as nat, 9));
    }
    while frac.len() > 0 && frac[frac.len() - 1] == 48
        invariant
            trim_zeros(frac@) == trim_zeros(f0),
        decreases frac@.len(),
    {
        let ghost before = frac@;
        proof {
            assert(before.last() == 48u8);
        }
        frac.pop();
        proof {
            assert(frac@ =~= before.drop_last());
        }
    }
    let ghost t = frac@;
    proof {
        assert(trim_zeros(t) == t);
        assert(t == trim_zeros(padded_digits((a % 1_000_000_000) as nat, 9)));
    }
    let mut out: Vec<u8> = Vec::new();
    if p.units < 0 {
        out.push(45);
    }
    let ghost sign = out@;
    push_digits(a / 1_000_000_000, &mut out);
    let ghost whole = out@;
    if frac.len() > 0 {
        out.push(46);
        out.append(&mut frac);
        proof {
            assert(out@ =~= whole + (seq![46u8] + t));
        }
    } else {
        proof {
            assert(out@ =~= whole + Seq::<u8>::empty());
        }
    }
    proof {
        let av: nat = if p.val() < 0 { (-p.val()) as nat } else { p.val() as nat };
        assert(av == a as nat);
        assert(sign =~= (if p.units < 0 { seq![45u8] } else { Seq::<u8>::empty() }));
    }
    out
}

} // verus!
