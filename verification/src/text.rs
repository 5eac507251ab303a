//! Small verified helpers on strings: comparison, decimal numerals, padding.

use vstd::prelude::*;
use vstd::std_specs::iter::IteratorSpec;

verus! {

/// The lowercase form of a string, as `str::to_lowercase` of the standard
/// library computes it from the Unicode tables.
pub uninterp spec fn lowercase_of(s: Seq<char>) -> Seq<char>;

/// Calls `str::to_lowercase`. The result is a function of the characters of
/// `s` alone; nothing else is claimed of it.
#[verifier::external_body]
pub(crate) fn lowercase(s: &str) -> (r: String)
    ensures
        r@ == lowercase_of(s@),
{
    s.to_lowercase()
}

/// Whether two strings hold the same characters.
pub fn same_text(a: &str, b: &str) -> (r: bool)
    ensures
        r == (a@ == b@),
{
    let mut ia = a.chars();
    let mut ib = b.chars();
    let ghost mut k: int = 0;
    loop
        invariant
            0 <= k <= a@.len(),
            k <= b@.len(),
            a@.take(k) == b@.take(k),
            ia.remaining() == a@.skip(k),
            ib.remaining() == b@.skip(k),
            ia.obeys_prophetic_iter_laws(),
            ib.obeys_prophetic_iter_laws(),
        decreases a@.len() - k,
    {
        let ca = ia.next();
        let cb = ib.next();
        match (ca, cb) {
            (None, None) => {
                assert(a@ == a@.take(k));
                assert(b@ == b@.take(k));
                return true;
            },
            (Some(x), Some(y)) => {
                if x != y {
                    assert(a@[k] == x);
                    assert(b@[k] == y);
                    return false;
                }
                proof {
                    assert(a@.take(k + 1) == a@.take(k).push(x));
                    assert(b@.take(k + 1) == b@.take(k).push(y));
                    assert(a@.skip(k).drop_first() == a@.skip(k + 1));
                    assert(b@.skip(k).drop_first() == b@.skip(k + 1));
                    k = k + 1;
                }
            },
            _ => {
                return false;
            },
        }
    }
}

/// Whether `s` is empty or not, and if not, whether it begins with `c`.
pub fn starts_with_char(s: &str, c: char) -> (r: bool)
    ensures
        r == (s@.len() > 0 && s@[0] == c),
{
    let mut it = s.chars();
    match it.next() {
        Some(first) => first == c,
        None => false,
    }
}

/// The decimal digit for a value below ten.
pub open spec fn digit_char(d: nat) -> char {
    if d == 0 {
        '0'
    } else if d == 1 {
        '1'
    } else if d == 2 {
        '2'
    } else if d == 3 {
        '3'
    } else if d == 4 {
        '4'
    } else if d == 5 {
        '5'
    } else if d == 6 {
        '6'
    } else if d == 7 {
        '7'
    } else if d == 8 {
        '8'
    } else {
        '9'
    }
}

/// The decimal numeral of `n`, without leading zeros.
pub open spec fn decimal_digits(n: nat) -> Seq<char>
    decreases n,
{
    if n < 10 {
        seq![digit_char(n)]
    } else {
        decimal_digits(n / 10).push(digit_char(n % 10))
    }
}

fn digit_text(d: u64) -> (r: &'static str)
    requires
        d < 10,
    ensures
        r@ == seq![digit_char(d as nat)],
{
    proof {
        reveal_strlit("0");
        reveal_strlit("1");
        reveal_strlit("2");
        reveal_strlit("3");
        reveal_strlit("4");
        reveal_strlit("5");
        reveal_strlit("6");
        reveal_strlit("7");
        reveal_strlit("8");
        reveal_strlit("9");
    }
    let r = if d == 0 {
        "0"
    } else if d == 1 {
        "1"
    } else if d == 2 {
        "2"
    } else if d == 3 {
        "3"
    } else if d == 4 {
        "4"
    } else if d == 5 {
        "5"
    } else if d == 6 {
        "6"
    } else if d == 7 {
        "7"
    } else if d == 8 {
        "8"
    } else {
        "9"
    };
    assert(r@ =~= seq![digit_char(d as nat)]);
    r
}

/// Appends the decimal numeral of `n` to `out`.
pub fn push_decimal(out: &mut String, n: u64)
    ensures
        final(out)@ == old(out)@ + decimal_digits(n as nat),
    decreases n,
{
    if n >= 10 {
        push_decimal(out, n / 10);
    }
    out.append(digit_text(n % 10));
    assert(final(out)@ =~= old(out)@ + decimal_digits(n as nat));
}

/// The decimal numeral of `n` as a string.
pub fn decimal_text(n: u64) -> (r: String)
    ensures
        r@ == decimal_digits(n as nat),
{
    let mut out = String::new();
    push_decimal(&mut out, n);
    assert(out@ =~= decimal_digits(n as nat));
    out
}

/// `n` spaces.
pub open spec fn spaces(n: nat) -> Seq<char> {
    Seq::new(n, |i: int| ' ')
}

/// `s` followed by as many spaces as it takes to reach `width` characters;
/// `s` itself where it is that long already.
pub open spec fn padded_right(s: Seq<char>, width: nat) -> Seq<char> {
    if s.len() >= width {
        s
    } else {
        s + spaces((width - s.len()) as nat)
    }
}

/// `s` preceded by as many spaces as it takes to reach `width` characters;
/// `s` itself where it is that long already.
pub open spec fn padded_left(s: Seq<char>, width: nat) -> Seq<char> {
    if s.len() >= width {
        s
    } else {
        spaces((width - s.len()) as nat) + s
    }
}

/// Appends `n` spaces to `out`.
pub fn push_spaces(out: &mut String, n: usize)
    ensures
        final(out)@ == old(out)@ + spaces(n as nat),
{
    let mut i: usize = 0;
    while i < n
        invariant
            i <= n,
            out@ == old(out)@ + spaces(i as nat),
        decreases n - i,
    {
        proof {
            reveal_strlit(" ");
        }
        out.append(" ");
        i = i + 1;
        assert(out@ =~= old(out)@ + spaces(i as nat));
    }
}

/// Appends `s`, left-aligned in a column of `width` characters, to `out`.
pub fn push_padded_right(out: &mut String, s: &str, width: usize)
    ensures
        final(out)@ == old(out)@ + padded_right(s@, width as nat),
{
    let len = s.unicode_len();
    out.append(s);
    if len < width {
        push_spaces(out, width - len);
    }
    assert(final(out)@ =~= old(out)@ + padded_right(s@, width as nat));
}

/// Appends `s`, right-aligned in a column of `width` characters, to `out`.
pub fn push_padded_left(out: &mut String, s: &str, width: usize)
    ensures
        final(out)@ == old(out)@ + padded_left(s@, width as nat),
{
    let len = s.unicode_len();
    if len < width {
        push_spaces(out, width - len);
    }
    out.append(s);
    assert(final(out)@ =~= old(out)@ + padded_left(s@, width as nat));
}

} // verus!
