//! Decimal rendering of readings.
//!
//! A reading is kept as a whole number of millidegrees; the report shows it
//! in degrees.  The whole degrees are printed in full, and a fractional
//! part, when there is one, follows a dot with its trailing zeros dropped:
//! 21500 millidegrees reads "21.5", 46000 reads "46", -500 reads "-0.5".

use vstd::prelude::*;

verus! {

/// The character for one decimal digit value.
pub open spec fn digit_char(d: int) -> char {
    if d == 0 {
        '0'
    } else if d == 1 {
        '1'
    } else if d == 2 {
        '2'
    } else if d == 3 {
        '3'
    } else if d == 4 {
        '4'
    } else if d == 5 {
        '5'
    } else if d == 6 {
        '6'
    } else if d == 7 {
        '7'
    } else if d == 8 {
        '8'
    } else {
        '9'
    }
}

/// The decimal digits of a number, most significant first.
pub open spec fn dec_str(n: nat) -> Seq<char>
    decreases n,
{
    if n < 10 {
        seq![digit_char(n as int)]
    } else {
        dec_str(n / 10) + seq![digit_char((n % 10) as int)]
    }
}

/// The fractional digits for a millidegree remainder in 1..=999,
/// with trailing zeros dropped.
pub open spec fn frac_str(f: int) -> Seq<char> {
    let d1 = digit_char(f / 100);
    let d2 = digit_char((f / 10) % 10);
    let d3 = digit_char(f % 10);
    if f % 10 != 0 {
        seq![d1, d2, d3]
    } else if (f / 10) % 10 != 0 {
        seq![d1, d2]
    } else {
        seq![d1]
    }
}

/// Degrees text for a nonnegative millidegree count.
pub open spec fn milli_mag_str(m: int) -> Seq<char> {
    if m % 1000 == 0 {
        dec_str((m / 1000) as nat)
    } else {
        dec_str((m / 1000) as nat) + seq!['.'] + frac_str(m % 1000)
    }
}

/// Degrees text for a millidegree count.
pub open spec fn milli_str(m: int) -> Seq<char> {
    if m < 0 {
        seq!['-'] + milli_mag_str(-m)
    } else {
        milli_mag_str(m)
    }
}

/// The text of one decimal digit.
fn digit_str(d: u8) -> (r: &'static str)
    requires
        d < 10,
    ensures
        r@ =~= seq![digit_char(d as int)],
{
    proof {
        reveal_strlit("0");
        reveal_strlit("1");
        reveal_strlit("2");
        reveal_strlit("3");
        reveal_strlit("4");
        reveal_strlit("5");
        reveal_strlit("6");
        reveal_strlit("7");
        reveal_strlit("8");
        reveal_strlit("9");
    }
    match d {
        0 => "0",
        1 => "1",
        2 => "2",
        3 => "3",
        4 => "4",
        5 => "5",
        6 => "6",
        7 => "7",
        8 => "8",
        _ => "9",
    }
}

/// The decimal digits of `n`, most significant first.
pub fn format_u64(n: u64) -> (r: String)
    ensures
        r@ == dec_str(n as nat),
    decreases n,
{
    if n < 10 {
        String::from_str(digit_str(n as u8))
    } else {
        let mut out = format_u64(n / 10);
        out.append(digit_str((n % 10) as u8));
        out
    }
}

/// Degrees text for `m` millidegrees.
pub fn format_milli(m: i64) -> (r: String)
    ensures
        r@ == milli_str(m as int),
{
    let mag: u64 = if m < 0 {
        proof {
            assert(0 <= -(m as int) <= u64::MAX);
        }
        (-(m as i128)) as u64
    } else {
        m as u64
    };
    let ghost mm: int = if m < 0 {
        -(m as int)
    } else {
        m as int
    };
    let whole: u64 = mag / 1000;
    let frac: u64 = mag % 1000;
    let mut out: String = if m < 0 {
        proof {
            reveal_strlit("-");
        }
        String::from_str("-")
    } else {
        String::new()
    };
    let ghost sign: Seq<char> = out@;
    let w = format_u64(whole);
    out.append(w.as_str());
    if frac == 0 {
        proof {
            assert(out@ =~= milli_str(m as int));
        }
        return out;
    }
    proof {
        reveal_strlit(".");
    }
    out.append(".");
    let ghost head: Seq<char> = out@;
    let d1 = (frac / 100) as u8;
    let d2 = ((frac / 10) % 10) as u8;
    let d3 = (frac % 10) as u8;
    out.append(digit_str(d1));
    if d3 != 0 {
        out.append(digit_str(d2));
        out.append(digit_str(d3));
        proof {
            assert(out@ =~= head + frac_str(frac as int));
        }
    } else if d2 != 0 {
        out.append(digit_str(d2));
        proof {
            assert(out@ =~= head + frac_str(frac as int));
        }
    } else {
        proof {
            assert(out@ =~= head + frac_str(frac as int));
        }
    }
    proof {
        assert((frac / 10) as int == (frac as int) / 10);
        assert(out@ =~= sign + milli_mag_str(mm));
        assert(out@ =~= milli_str(m as int));
    }
    out
}

} // verus!
