//! Text for people: file sizes and error chains.
use vstd::prelude::*;
use crate::text::{decimal, digit_char, join, push_char, push_decimal, push_str, views};

verus! {

/// `n / d` rounded to the nearest integer, ties to the even one.
pub open spec fn round_half_even(n: nat, d: nat) -> nat {
    let q = n / d;
    let r = n % d;
    if 2 * r > d || (2 * r == d && q % 2 == 1) {
        q + 1
    } else {
        q
    }
}

/// The smallest power of two `unit * 2^k` (`k >= 0`) whose limit `lim * 2^k`
/// exceeds `b`.
pub open spec fn rounding_unit(b: nat, unit: nat, lim: nat) -> nat
    decreases (if b + 1 >= lim {
        b + 1 - lim
    } else {
        0
    }),
{
    if lim == 0 || b < lim {
        unit
    } else {
        rounding_unit(b, 2 * unit, 2 * lim)
    }
}

/// The largest integer that a double holds exactly in all its digits: 2^53.
pub open spec fn exact_double_limit() -> nat {
    9007199254740992
}

/// The double nearest to `b`, as `b as f64` gives it: `b` itself below 2^53,
/// else `b` rounded to 53 significant bits, ties to even.
pub open spec fn as_double(b: nat) -> nat {
    let u = rounding_unit(b, 1, exact_double_limit());
    round_half_even(b, u) * u
}

/// `n / d` with one decimal, as `{:.1}` writes an exact value: rounded to
/// the nearest tenth, ties to even.
pub open spec fn one_decimal(n: nat, d: nat) -> Seq<char> {
    let t = round_half_even(10 * n, d);
    decimal(t / 10) + seq!['.', digit_char((t % 10) as int)]
}

/// A size in bytes for people: bytes below 1 KiB, else KB, MB or GB (powers
/// of 1024) with one decimal.
pub open spec fn file_size_text(bytes: nat) -> Seq<char> {
    if bytes < 1024 {
        decimal(bytes) + " B"@
    } else if bytes < 1048576 {
        one_decimal(bytes, 1024) + " KB"@
    } else if bytes < 1073741824 {
        one_decimal(bytes, 1048576) + " MB"@
    } else {
        one_decimal(as_double(bytes), 1073741824) + " GB"@
    }
}

/// `n / d` rounded to the nearest integer, ties to even.
fn rounded_quotient(n: u128, d: u128) -> (q: u128)
    requires
        d > 0,
        d <= 0x1_0000_0000_0000_0000,
        n < 0x1_0000_0000_0000_0000_0000_0000,
    ensures
        q == round_half_even(n as nat, d as nat),
{
    let q = n / d;
    let r = n % d;
    if 2 * r > d || (2 * r == d && q % 2 == 1) {
        q + 1
    } else {
        q
    }
}

/// The double nearest to `b` (see `as_double`), as an integer.
fn nearest_double(b: u64) -> (v: u128)
    ensures
        v == as_double(b as nat),
        v <= 0x1_0000_0000_0000_1000,
{
    let mut unit: u128 = 1;
    let mut lim: u128 = 9007199254740992;
    while (b as u128) >= lim
        invariant
            lim == unit * 9007199254740992,
            1 <= unit < 4096,
            rounding_unit(b as nat, 1, exact_double_limit()) == rounding_unit(b as nat, unit as nat, lim as nat),
        decreases 4096 - unit,
    {
        assert((b as int) < 0x1_0000_0000_0000_0000);
        unit = unit * 2;
        lim = lim * 2;
    }
    assert(rounding_unit(b as nat, unit as nat, lim as nat) == unit);
    let q = rounded_quotient(b as u128, unit);
    assert(q * unit <= 0x1_0000_0000_0000_1000) by (nonlinear_arith)
        requires
            q == round_half_even(b as nat, unit as nat),
            (b as int) < 0x1_0000_0000_0000_0000,
            1 <= unit < 4096,
    {
        let qq = (b as nat) / (unit as nat);
        assert(qq * unit <= b);
        assert(q <= qq + 1);
        assert(q * unit <= qq * unit + unit);
    }
    q * unit
}

/// Appends `n / d` with one decimal (see `one_decimal`).
fn push_one_decimal(out: &mut String, n: u128, d: u128)
    requires
        1024 <= d <= 0x1_0000_0000,
        n <= 0x1_0000_0000_0000_1000,
    ensures
        final(out)@ == old(out)@ + one_decimal(n as nat, d as nat),
{
    let t = rounded_quotient(10 * n, d);
    assert(t / 10 < 0x1_0000_0000_0000_0000) by (nonlinear_arith)
        requires
            t == round_half_even((10 * n) as nat, d as nat),
            n <= 0x1_0000_0000_0000_1000,
            1024 <= d,
    {
        let q = ((10 * n) as nat) / (d as nat);
        assert(q * d <= 10 * n);
        assert(q <= 10 * n / 1024) by {
            assert(q * 1024 <= q * d);
        }
        assert(t <= q + 1);
    }
    let whole = (t / 10) as u64;
    let d10 = (t % 10) as u8;
    push_decimal(out, whole);
    push_char(out, '.');
    push_char(out, (48u8 + d10) as char);
    assert(seq!['.', digit_char((t % 10) as int)] =~= seq!['.'].push(digit_char((t % 10) as int)));
}

/// A size in bytes for people (see `file_size_text`).
pub fn format_file_size(bytes: u64) -> (r: String)
    ensures
        r@ == file_size_text(bytes as nat),
{
    let mut r = String::new();
    if bytes < 1024 {
        push_decimal(&mut r, bytes);
        push_str(&mut r, " B");
    } else if bytes < 1048576 {
        push_one_decimal(&mut r, bytes as u128, 1024);
        push_str(&mut r, " KB");
    } else if bytes < 1073741824 {
        push_one_decimal(&mut r, bytes as u128, 1048576);
        push_str(&mut r, " MB");
    } else {
        let v = nearest_double(bytes);
        push_one_decimal(&mut r, v, 1073741824);
        push_str(&mut r, " GB");
    }
    r
}

/// How many causes an error message shows, the error itself included.
pub open spec fn shown_causes(n: nat) -> int {
    if n < 6 {
        n as int
    } else {
        6
    }
}

/// The message of an error followed by those of its causes, each on a line
/// of its own after `Caused by: `, at most six in all; `messages` holds the
/// error's message and then those of its causes, outermost first.
pub fn format_error(messages: &Vec<String>) -> (r: String)
    ensures
        r@ == join(views(messages@).take(shown_causes(messages@.len())), "\nCaused by: "@),
{
    let n: usize = if messages.len() < 6 {
        messages.len()
    } else {
        6
    };
    let ghost pv = views(messages@);
    let mut r = String::new();
    let mut i: usize = 0;
    while i < n
        invariant
            n <= messages@.len(),
            n == shown_causes(messages@.len()),
            i <= n,
            pv == views(messages@),
            r@ == join(pv.take(i as int), "\nCaused by: "@),
        decreases n - i,
    {
        if i > 0 {
            push_str(&mut r, "\nCaused by: ");
        }
        push_str(&mut r, messages[i].as_str());
        proof {
            let t = pv.take(i + 1);
            assert(t.drop_last() =~= pv.take(i as int));
            assert(t.last() == messages@[i as int]@);
            if i == 0 {
                assert(join(t, "\nCaused by: "@) == t[0]);
            }
        }
        i = i + 1;
    }
    r
}

} // verus!
