//! Fixed-point money amounts.
//!
//! Every amount in the ledger is an exact multiple of one ten-thousandth:
//! `units` counts ten-thousandths, so four fraction digits are always
//! representable. Alongside the numeric value, an amount carries a display
//! `scale`: how many fraction digits are shown when it is printed. A fresh
//! balance prints as `0.0000` (scale four); every balance that has been
//! recomputed is rendered with the fewest fraction digits that show it
//! exactly, so a balance of two whole units prints as `2`.

use vstd::prelude::*;

verus! {

/// Largest magnitude, in ten-thousandths, that a balance may reach.
/// Events that would push a balance past this bound are ignored, like any
/// other event the account refuses.
pub const UNITS_LIMIT: i128 = 100_000_000_000_000_000_000_000_000_000_000_000;

/// Largest magnitude, in ten-thousandths, of a single parsed amount:
/// up to eighteen integer digits and four fraction digits.
pub const MAX_AMOUNT_UNITS: i128 = 10_000_000_000_000_000_000_000;

/// Mathematical model of a [`Fixed`] value.
pub ghost struct FixedV {
    /// The value in ten-thousandths.
    pub units: int,
    /// How many fraction digits are shown when the value is printed.
    pub scale: nat,
}

/// A fixed-point amount with four fraction digits of precision and a
/// display scale between zero and four.
#[derive(Clone, Copy, Debug, PartialEq, Eq, Structural)]
pub struct Fixed {
    /// The value in ten-thousandths.
    pub units: i128,
    /// How many fraction digits are shown when the value is printed.
    pub scale: u8,
}

impl View for Fixed {
    type V = FixedV;

    open spec fn view(&self) -> FixedV {
        FixedV { units: self.units as int, scale: self.scale as nat }
    }
}

pub open spec fn pow10(k: nat) -> nat
    decreases k,
{
    if k == 0 {
        1
    } else {
        10 * pow10((k - 1) as nat)
    }
}

pub open spec fn abs_units(u: int) -> nat {
    if u >= 0 {
        u as nat
    } else {
        (-u) as nat
    }
}

/// The fewest fraction digits that show a magnitude of `m` ten-thousandths
/// exactly.
pub open spec fn min_scale(m: nat) -> nat {
    if m % 10000 == 0 {
        0
    } else if m % 1000 == 0 {
        1
    } else if m % 100 == 0 {
        2
    } else if m % 10 == 0 {
        3
    } else {
        4
    }
}

/// Well-formedness of an amount: the scale is at most four, the value is
/// within bounds, and the digits beyond the scale are all zero, so the
/// printed form is exact.
pub open spec fn fixed_wf(v: FixedV) -> bool {
    &&& v.scale <= 4
    &&& -(UNITS_LIMIT as int) <= v.units <= UNITS_LIMIT as int
    &&& abs_units(v.units) % pow10((4 - v.scale) as nat) == 0
}

/// The canonical form of `u` ten-thousandths: shown with the fewest
/// fraction digits that are exact.
pub open spec fn fixed_of(u: int) -> FixedV {
    FixedV { units: u, scale: min_scale(abs_units(u)) }
}

/// A fresh balance: exact zero, shown with all four fraction digits.
pub open spec fn zero_fixed() -> FixedV {
    FixedV { units: 0, scale: 4 }
}

pub proof fn lemma_fixed_of_wf(u: int)
    requires
        -(UNITS_LIMIT as int) <= u <= UNITS_LIMIT as int,
    ensures
        fixed_wf(fixed_of(u)),
        fixed_of(u).units == u,
{
    reveal_with_fuel(pow10, 5);
}

pub proof fn lemma_zero_fixed_wf()
    ensures
        fixed_wf(zero_fixed()),
        zero_fixed().units == 0,
{
    reveal_with_fuel(pow10, 5);
}

/// Zero with all four fraction digits shown: the state of a new balance.
pub fn fixed_zero() -> (r: Fixed)
    ensures
        r@ == zero_fixed(),
        fixed_wf(r@),
{
    proof {
        lemma_zero_fixed_wf();
    }
    Fixed { units: 0, scale: 4 }
}

/// Magnitude of `u` as an unsigned value.
fn magnitude(u: i128) -> (m: u128)
    requires
        u != i128::MIN,
    ensures
        m == abs_units(u as int),
{
    if u < 0 {
        (-u) as u128
    } else {
        u as u128
    }
}

/// Packs `u` ten-thousandths into its canonical form, with the fewest
/// fraction digits that show it exactly.
pub fn make_fixed(u: i128) -> (r: Fixed)
    requires
        -UNITS_LIMIT <= u <= UNITS_LIMIT,
    ensures
        r@ == fixed_of(u as int),
        fixed_wf(r@),
{
    let m: u128 = magnitude(u);
    let s: u8 = if m % 10000 == 0 {
        0
    } else if m % 1000 == 0 {
        1
    } else if m % 100 == 0 {
        2
    } else if m % 10 == 0 {
        3
    } else {
        4
    };
    proof {
        lemma_fixed_of_wf(u as int);
    }
    Fixed { units: u, scale: s }
}

/// Decimal digits of `n`, most significant first, no leading zeros.
pub open spec fn spec_digits(n: nat) -> Seq<u8>
    decreases n,
{
    if n < 10 {
        seq![(48 + n) as u8]
    } else {
        spec_digits(n / 10).push((48 + n % 10) as u8)
    }
}

/// The low `k` decimal digits of `f`, zero padded to exactly `k` digits,
/// most significant first.
pub open spec fn spec_frac_digits(f: nat, k: nat) -> Seq<u8>
    decreases k,
{
    if k == 0 {
        Seq::empty()
    } else {
        spec_frac_digits(f / 10, (k - 1) as nat).push((48 + f % 10) as u8)
    }
}

/// How an amount is rendered: optional minus sign, the integer part, and,
/// when the scale is nonzero, a point followed by exactly `scale` fraction
/// digits.
pub open spec fn spec_fmt_fixed(v: FixedV) -> Seq<u8> {
    let m: nat = abs_units(v.units);
    let sign: Seq<u8> = if v.units < 0 {
        seq![45u8]
    } else {
        Seq::empty()
    };
    let frac: Seq<u8> = if v.scale == 0 {
        Seq::empty()
    } else {
        seq![46u8] + spec_frac_digits((m % 10000) / pow10((4 - v.scale) as nat), v.scale)
    };
    sign + spec_digits(m / 10000) + frac
}

/// Appends the contents of `ds` to `out` in reverse order.
fn push_reversed(out: &mut Vec<u8>, ds: &Vec<u8>)
    ensures
        final(out)@ == old(out)@ + ds@.reverse(),
{
    let mut j: usize = ds.len();
    proof {
        assert(out@ =~= old(out)@ + ds@.skip(j as int).reverse());
    }
    while j > 0
        invariant
            j <= ds.len(),
            out@ == old(out)@ + ds@.skip(j as int).reverse(),
        decreases j,
    {
        j = j - 1;
        out.push(ds[j]);
        proof {
            assert(ds@.skip(j as int).reverse() =~= ds@.skip(j as int + 1).reverse().push(ds@[j as int]));
        }
    }
    proof {
        assert(ds@.skip(0).reverse() =~= ds@.reverse());
    }
}

/// Appends the decimal digits of `n`.
pub fn push_number(out: &mut Vec<u8>, n: u128)
    ensures
        final(out)@ == old(out)@ + spec_digits(n as nat),
{
    let mut ds: Vec<u8> = Vec::new();
    let mut m: u128 = n;
    proof {
        assert(spec_digits(n as nat) =~= spec_digits(m as nat) + ds@.reverse());
    }
    while m >= 10
        invariant
            spec_digits(n as nat) == spec_digits(m as nat) + ds@.reverse(),
        decreases m,
    {
        let ghost pre: nat = m as nat;
        let ghost pre_ds: Seq<u8> = ds@;
        ds.push(48 + (m % 10) as u8);
        m = m / 10;
        proof {
            assert(spec_digits(pre) == spec_digits(pre / 10).push((48 + pre % 10) as u8));
            assert(ds@.reverse() =~= seq![(48 + pre % 10) as u8] + pre_ds.reverse());
            assert(spec_digits(pre / 10).push((48 + pre % 10) as u8) + pre_ds.reverse()
                =~= spec_digits(pre / 10) + (seq![(48 + pre % 10) as u8] + pre_ds.reverse()));
        }
    }
    let ghost pre_ds: Seq<u8> = ds@;
    ds.push(48 + (m as u8));
    proof {
        assert(spec_digits(m as nat) == seq![(48 + m as nat) as u8]);
        assert(ds@.reverse() =~= seq![(48 + m as nat) as u8] + pre_ds.reverse());
        assert(spec_digits(n as nat) =~= ds@.reverse());
    }
    push_reversed(out, &ds);
}

/// Appends exactly `k` digits: the low `k` digits of `f`, zero padded.
fn push_padded(out: &mut Vec<u8>, f: u128, k: u8)
    ensures
        final(out)@ == old(out)@ + spec_frac_digits(f as nat, k as nat),
{
    let mut ds: Vec<u8> = Vec::new();
    let mut m: u128 = f;
    let mut i: u8 = 0;
    proof {
        assert(spec_frac_digits(f as nat, k as nat)
            =~= spec_frac_digits(m as nat, (k - i) as nat) + ds@.reverse());
    }
    while i < k
        invariant
            i <= k,
            spec_frac_digits(f as nat, k as nat)
                == spec_frac_digits(m as nat, (k - i) as nat) + ds@.reverse(),
        decreases k - i,
    {
        let ghost pre: nat = m as nat;
        let ghost pre_k: nat = (k - i) as nat;
        let ghost pre_ds: Seq<u8> = ds@;
        ds.push(48 + (m % 10) as u8);
        m = m / 10;
        i = i + 1;
        proof {
            assert(spec_frac_digits(pre, pre_k)
                == spec_frac_digits(pre / 10, (pre_k - 1) as nat).push((48 + pre % 10) as u8));
            assert(ds@.reverse() =~= seq![(48 + pre % 10) as u8] + pre_ds.reverse());
            assert(spec_frac_digits(pre / 10, (pre_k - 1) as nat).push((48 + pre % 10) as u8)
                + pre_ds.reverse()
                =~= spec_frac_digits(pre / 10, (pre_k - 1) as nat)
                + (seq![(48 + pre % 10) as u8] + pre_ds.reverse()));
        }
    }
    push_reversed(out, &ds);
}

/// Appends the rendering of `x`: sign, integer part, and fraction digits
/// according to its display scale.
pub fn push_fixed(out: &mut Vec<u8>, x: Fixed)
    requires
        fixed_wf(x@),
    ensures
        final(out)@ == old(out)@ + spec_fmt_fixed(x@),
{
    let ghost start: Seq<u8> = out@;
    let m: u128 = magnitude(x.units);
    if x.units < 0 {
        out.push(45);
    }
    let ghost with_sign: Seq<u8> = out@;
    push_number(out, m / 10000);
    if x.scale > 0 {
        out.push(46);
        let p: u128 = if x.scale == 1 {
            1000
        } else if x.scale == 2 {
            100
        } else if x.scale == 3 {
            10
        } else {
            1
        };
        proof {
            reveal_with_fuel(pow10, 5);
            assert(p as nat == pow10((4 - x@.scale) as nat));
        }
        push_padded(out, (m % 10000) / p, x.scale);
    }
    proof {
        assert(out@ =~= start + spec_fmt_fixed(x@));
    }
}

} // verus!
