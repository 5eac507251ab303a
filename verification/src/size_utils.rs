//! Byte counts in human-readable form, in units of 1024.

use vstd::prelude::*;
use crate::text::{decimal_digits, digit_char, push_decimal};

verus! {

/// A byte count that can be shown as `<value> <unit>`.
#[derive(Debug, Clone, Copy)]
pub struct HumanSize(pub u64);

/// The index of the unit a size is shown in: the largest power of 1024 that
/// the size reaches, and the sixth unit at most.
pub open spec fn unit_index(size: nat) -> nat {
    if size < 1024 {
        0
    } else if size < 1048576 {
        1
    } else if size < 1073741824 {
        2
    } else if size < 1099511627776 {
        3
    } else if size < 1125899906842624 {
        4
    } else {
        5
    }
}

/// How many bytes one of unit `k` holds: 1024 to the power `k`.
pub open spec fn unit_scale(k: nat) -> nat {
    if k == 0 {
        1
    } else if k == 1 {
        1024
    } else if k == 2 {
        1048576
    } else if k == 3 {
        1073741824
    } else if k == 4 {
        1099511627776
    } else {
        1125899906842624
    }
}

/// The name of unit `k`.
pub open spec fn unit_name(k: nat) -> Seq<char> {
    if k == 0 {
        seq!['B']
    } else if k == 1 {
        seq!['K', 'B']
    } else if k == 2 {
        seq!['M', 'B']
    } else if k == 3 {
        seq!['G', 'B']
    } else if k == 4 {
        seq!['T', 'B']
    } else {
        seq!['P', 'B']
    }
}

/// The integer nearest to `num / den`; of two equally near, the even one.
pub open spec fn round_half_even(num: nat, den: nat) -> nat {
    let q = num / den;
    let r = num % den;
    if 2 * r > den || (2 * r == den && q % 2 == 1) {
        q + 1
    } else {
        q
    }
}

/// The distance between neighbouring values that have 53 significant bits,
/// around `n`: 1 below 2^53, and twice as much with each further bit.
pub open spec fn precision_step(n: nat) -> nat
    decreases n,
{
    if n < 0x20_0000_0000_0000 {
        1
    } else {
        2 * precision_step(n / 2)
    }
}

/// `n` rounded to 53 significant bits, the precision of the arithmetic in
/// which sizes are scaled. Sizes below 2^53 are exact.
pub open spec fn with_53_bits(n: nat) -> nat {
    round_half_even(n, precision_step(n)) * precision_step(n)
}

/// The size in tenths of its unit, rounded to the nearest tenth.
pub open spec fn tenths(size: nat) -> nat {
    round_half_even(with_53_bits(size) * 10, unit_scale(unit_index(size)))
}

/// The text of a size: whole bytes below 1024, else one decimal place and
/// the unit. The unit is chosen before rounding, so `1024.0 KB` can occur.
pub open spec fn human_text(size: nat) -> Seq<char> {
    let k = unit_index(size);
    if k == 0 {
        decimal_digits(size) + seq![' '] + unit_name(0)
    } else {
        decimal_digits(tenths(size) / 10) + seq!['.', digit_char(tenths(size) % 10), ' ']
            + unit_name(k)
    }
}

fn nearest_quotient(num: u128, den: u128) -> (q: u128)
    requires
        0 < den <= 0x1_0000_0000_0000_0000,
        num <= 0x1_0000_0000_0000_0000_0000,
    ensures
        q == round_half_even(num as nat, den as nat),
        q <= num / den + 1,
{
    let q = num / den;
    let r = num % den;
    if 2 * r > den || (2 * r == den && q % 2 == 1) {
        q + 1
    } else {
        q
    }
}

fn step_of(size: u64) -> (d: u64)
    ensures
        d == precision_step(size as nat),
        1 <= d <= 4096,
{
    let mut m: u64 = size;
    let mut d: u64 = 1;
    while m >= 0x20_0000_0000_0000
        invariant
            1 <= d <= 4096,
            m * d <= size,
            precision_step(size as nat) == d * precision_step(m as nat),
        decreases m,
    {
        assert(d < 2048) by (nonlinear_arith)
            requires
                m >= 0x20_0000_0000_0000,
                m * d <= 0xffff_ffff_ffff_ffff,
                d >= 1,
        ;
        let ghost m0 = m;
        let ghost d0 = d;
        m = m / 2;
        d = d * 2;
        assert(m * d <= m0 * d0) by (nonlinear_arith)
            requires
                m * 2 <= m0,
                d == d0 * 2,
                d0 >= 1,
        ;
        assert(d0 * precision_step(m0 as nat) == d * precision_step(m as nat)) by {
            assert(precision_step(m0 as nat) == 2 * precision_step(m as nat));
            assert(d0 * (2 * precision_step(m as nat)) == (d0 * 2) * precision_step(m as nat))
                by (nonlinear_arith);
        }
    }
    proof {
        let p = precision_step(m as nat);
        assert(p == 1);
        assert(d * p == d) by (nonlinear_arith)
            requires
                p == 1,
        ;
    }
    d
}

impl HumanSize {
    /// Wraps a byte count.
    pub fn new(size: u64) -> (r: Self)
        ensures
            r.0 == size,
    {
        HumanSize(size)
    }

    /// The size as text, such as `0 B`, `1023 B`, `1.0 KB` or `1.5 GB`.
    pub fn format(&self) -> (r: String)
        ensures
            r@ == human_text(self.0 as nat),
    {
        let size = self.0;
        let mut out = String::new();
        proof {
            reveal_strlit(" ");
            reveal_strlit(".");
            reveal_strlit("B");
            reveal_strlit("KB");
            reveal_strlit("MB");
            reveal_strlit("GB");
            reveal_strlit("TB");
            reveal_strlit("PB");
        }
        if size < 1024 {
            push_decimal(&mut out, size);
            out.append(" ");
            out.append("B");
            assert(out@ =~= human_text(size as nat));
            return out;
        }
        let d = step_of(size);
        let whole = nearest_quotient(size as u128, d as u128);
        assert(whole * d <= size + d) by (nonlinear_arith)
            requires
                whole <= (size as u128) / (d as u128) + 1,
                d >= 1,
        ;
        let exact: u128 = whole * (d as u128);
        let t: u128 = if size < 1048576 {
            nearest_quotient(exact * 10, 1024)
        } else if size < 1073741824 {
            nearest_quotient(exact * 10, 1048576)
        } else if size < 1099511627776 {
            nearest_quotient(exact * 10, 1073741824)
        } else if size < 1125899906842624 {
            nearest_quotient(exact * 10, 1099511627776)
        } else {
            nearest_quotient(exact * 10, 1125899906842624)
        };
        assert(t == tenths(size as nat));
        push_decimal(&mut out, (t / 10) as u64);
        out.append(".");
        push_decimal(&mut out, (t % 10) as u64);
        out.append(" ");
        if size < 1048576 {
            out.append("KB");
        } else if size < 1073741824 {
            out.append("MB");
        } else if size < 1099511627776 {
            out.append("GB");
        } else if size < 1125899906842624 {
            out.append("TB");
        } else {
            out.append("PB");
        }
        assert(out@ =~= human_text(size as nat));
        out
    }
}

} // verus!
