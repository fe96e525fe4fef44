use vstd::prelude::*;
use vstd::string::*;

verus! {

/// The decimal digit `d`.
pub open spec fn digit_text(d: nat) -> Seq<char> {
    if d == 0 {
        "0"@
    } else if d == 1 {
        "1"@
    } else if d == 2 {
        "2"@
    } else if d == 3 {
        "3"@
    } else if d == 4 {
        "4"@
    } else if d == 5 {
        "5"@
    } else if d == 6 {
        "6"@
    } else if d == 7 {
        "7"@
    } else if d == 8 {
        "8"@
    } else {
        "9"@
    }
}

/// `n` in decimal, without leading zeros.
pub open spec fn nat_text(n: nat) -> Seq<char>
    decreases n,
{
    if n < 10 {
        digit_text(n)
    } else {
        nat_text(n / 10) + digit_text(n % 10)
    }
}

/// `x` in decimal, with a leading `-` where it is negative.
pub open spec fn int_text(x: int) -> Seq<char> {
    if x < 0 {
        "-"@ + nat_text((-x) as nat)
    } else {
        nat_text(x as nat)
    }
}

/// Appends `s` to `out`.
pub fn put(out: &mut String, s: &str)
    ensures
        final(out)@ == old(out)@ + s@,
{
    out.append(s);
}

fn digit_str(d: u128) -> (r: &'static str)
    requires
        d < 10,
    ensures
        r@ == digit_text(d as nat),
{
    if d == 0 {
        "0"
    } else if d == 1 {
        "1"
    } else if d == 2 {
        "2"
    } else if d == 3 {
        "3"
    } else if d == 4 {
        "4"
    } else if d == 5 {
        "5"
    } else if d == 6 {
        "6"
    } else if d == 7 {
        "7"
    } else if d == 8 {
        "8"
    } else {
        "9"
    }
}

/// Appends `n` in decimal to `out`.
pub fn put_nat(out: &mut String, n: u128)
    ensures
        final(out)@ == old(out)@ + nat_text(n as nat),
    decreases n,
{
    if n < 10 {
        put(out, digit_str(n));
    } else {
        put_nat(out, n / 10);
        put(out, digit_str(n % 10));
        assert(old(out)@ + nat_text((n / 10) as nat) + digit_text((n % 10) as nat) =~= old(out)@ + nat_text(n as nat));
    }
}

/// Appends `a - b` in decimal to `out`.
pub fn put_diff(out: &mut String, a: u128, b: u128)
    ensures
        final(out)@ == old(out)@ + int_text(a - b),
{
    if a >= b {
        put_nat(out, a - b);
    } else {
        put(out, "-");
        put_nat(out, b - a);
        assert(old(out)@ + "-"@ + nat_text((b - a) as nat) =~= old(out)@ + int_text(a - b));
    }
}

} // verus!
