//! Building message text.

use vstd::prelude::*;
use vstd::string::StringExecFns;

verus! {

pub open spec fn digit_char(d: nat) -> char {
    if d == 0 {
        '0'
    } else if d == 1 {
        '1'
    } else if d == 2 {
        '2'
    } else if d == 3 {
        '3'
    } else if d == 4 {
        '4'
    } else if d == 5 {
        '5'
    } else if d == 6 {
        '6'
    } else if d == 7 {
        '7'
    } else if d == 8 {
        '8'
    } else {
        '9'
    }
}

/// `n` in decimal notation.
pub open spec fn decimal(n: nat) -> Seq<char>
    decreases n,
{
    if n < 10 {
        seq![digit_char(n)]
    } else {
        decimal(n / 10).push(digit_char(n % 10))
    }
}

fn digit_text(d: u64) -> (s: &'static str)
    requires
        d < 10,
    ensures
        s@ == seq![digit_char(d as nat)],
{
    proof {
        reveal_strlit("0");
        reveal_strlit("1");
        reveal_strlit("2");
        reveal_strlit("3");
        reveal_strlit("4");
        reveal_strlit("5");
        reveal_strlit("6");
        reveal_strlit("7");
        reveal_strlit("8");
        reveal_strlit("9");
    }
    let s = match d {
        0 => "0",
        1 => "1",
        2 => "2",
        3 => "3",
        4 => "4",
        5 => "5",
        6 => "6",
        7 => "7",
        8 => "8",
        _ => "9",
    };
    assert(s@ =~= seq![digit_char(d as nat)]);
    s
}

/// Appends `n` in decimal notation.
pub fn append_number(out: &mut String, n: u64)
    ensures
        final(out)@ == old(out)@ + decimal(n as nat),
    decreases n,
{
    if n < 10 {
        out.append(digit_text(n));
    } else {
        append_number(out, n / 10);
        out.append(digit_text(n % 10));
        assert(out@ =~= old(out)@ + decimal(n as nat));
    }
}

/// Appends a large number in decimal notation.
pub fn append_large(out: &mut String, n: u128)
    ensures
        final(out)@ == old(out)@ + decimal(n as nat),
    decreases n,
{
    if n < 10 {
        out.append(digit_text(n as u64));
    } else {
        append_large(out, n / 10);
        out.append(digit_text((n % 10) as u64));
        proof {
            let d = seq![digit_char((n % 10) as nat)];
            assert(old(out)@ + decimal((n / 10) as nat) + d =~= old(out)@ + decimal(n as nat));
        }
    }
}

/// The whole number nearest to `n / d`, the even one where two are as near.
pub open spec fn nearest(n: nat, d: nat) -> nat {
    let (q, r) = (n / d, n % d);
    if 2 * r > d || (2 * r == d && q % 2 == 1) {
        q + 1
    } else {
        q
    }
}

/// The whole number nearest to `n / d`.
pub fn round_nearest(n: u128, d: u128) -> (r: u128)
    requires
        d > 0,
    ensures
        r == nearest(n as nat, d as nat),
        r <= n,
{
    let (whole, part): (u128, u128) = (n / d, n % d);
    proof {
        let (a, b, q, m) = (n as int, d as int, whole as int, part as int);
        vstd::arithmetic::div_mod::lemma_fundamental_div_mod(a, b);
        assert(b * q >= q) by (nonlinear_arith)
            requires
                b >= 1,
                q >= 0,
        ;
    }
    let rest: u128 = d - part;
    if part > rest || (part == rest && whole % 2 == 1) {
        whole + 1
    } else {
        whole
    }
}

/// `n / d` rounded to a whole number.
pub open spec fn rounded(n: nat, d: nat) -> Seq<char> {
    decimal(nearest(n, d))
}

/// `n / d` rounded to one decimal.
pub open spec fn with_tenths(n: nat, d: nat) -> Seq<char> {
    let t = nearest(10 * n, d);
    decimal(t / 10) + "."@ + decimal(t % 10)
}

/// `n / d` rounded to two decimals.
pub open spec fn with_hundredths(n: nat, d: nat) -> Seq<char> {
    let t = nearest(100 * n, d);
    decimal(t / 100) + "."@ + decimal(t / 10 % 10) + decimal(t % 10)
}

/// Appends `n / d` rounded to a whole number.
pub fn append_rounded(out: &mut String, n: u128, d: u128)
    requires
        d > 0,
    ensures
        final(out)@ == old(out)@ + rounded(n as nat, d as nat),
{
    append_large(out, round_nearest(n, d));
}

/// Appends `n / d` rounded to one decimal.
pub fn append_tenths(out: &mut String, n: u128, d: u128)
    requires
        d > 0,
        10 * n <= u128::MAX,
    ensures
        final(out)@ == old(out)@ + with_tenths(n as nat, d as nat),
{
    let t: u128 = round_nearest(10 * n, d);
    append_large(out, t / 10);
    out.append(".");
    append_large(out, t % 10);
    assert(out@ =~= old(out)@ + with_tenths(n as nat, d as nat));
}

/// Appends `n / d` rounded to two decimals.
pub fn append_hundredths(out: &mut String, n: u128, d: u128)
    requires
        d > 0,
        100 * n <= u128::MAX,
    ensures
        final(out)@ == old(out)@ + with_hundredths(n as nat, d as nat),
{
    let t: u128 = round_nearest(100 * n, d);
    append_large(out, t / 100);
    out.append(".");
    append_large(out, t / 10 % 10);
    append_large(out, t % 10);
    assert(out@ =~= old(out)@ + with_hundredths(n as nat, d as nat));
}

} // verus!
