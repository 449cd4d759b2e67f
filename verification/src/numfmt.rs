//! Decimal formatting: plain and zero-padded numbers, and the
//! `YYYY-MM-DD-HH-MM-SS-mmm` snapshot timestamp, whose lexicographic
//! order is chronological.

use vstd::prelude::*;

verus! {

/// The decimal digit character for `d`.
pub open spec fn digit_char(d: int) -> char {
    if d == 0 {
        '0'
    } else if d == 1 {
        '1'
    } else if d == 2 {
        '2'
    } else if d == 3 {
        '3'
    } else if d == 4 {
        '4'
    } else if d == 5 {
        '5'
    } else if d == 6 {
        '6'
    } else if d == 7 {
        '7'
    } else if d == 8 {
        '8'
    } else {
        '9'
    }
}

/// The decimal digits of `n`, most significant first, no leading zeros.
pub open spec fn dec_digits(n: int) -> Seq<char>
    decreases n,
{
    if n < 10 {
        seq![digit_char(if n < 0 {
            0
        } else {
            n
        })]
    } else {
        dec_digits(n / 10) + seq![digit_char(n % 10)]
    }
}

/// `n` zeros.
pub open spec fn zeros(n: int) -> Seq<char>
    decreases n,
{
    if n <= 0 {
        Seq::empty()
    } else {
        seq!['0'] + zeros(n - 1)
    }
}

/// The decimal digits of `n`, left-padded with zeros to at least `w`
/// characters.
pub open spec fn padded_digits(n: int, w: int) -> Seq<char> {
    zeros(w - dec_digits(n).len()) + dec_digits(n)
}

fn digit_str(d: u64) -> (r: &'static str)
    requires
        d < 10,
    ensures
        r@ == seq![digit_char(d as int)],
{
    proof {
        reveal_strlit("0");
        reveal_strlit("1");
        reveal_strlit("2");
        reveal_strlit("3");
        reveal_strlit("4");
        reveal_strlit("5");
        reveal_strlit("6");
        reveal_strlit("7");
        reveal_strlit("8");
        reveal_strlit("9");
    }
    match d {
        0 => "0",
        1 => "1",
        2 => "2",
        3 => "3",
        4 => "4",
        5 => "5",
        6 => "6",
        7 => "7",
        8 => "8",
        _ => "9",
    }
}

/// Formats `n` in decimal.
pub fn u64_to_string(n: u64) -> (r: String)
    ensures
        r@ == dec_digits(n as int),
    decreases n,
{
    if n < 10 {
        digit_str(n).to_owned()
    } else {
        let mut s = u64_to_string(n / 10);
        s.append(digit_str(n % 10));
        s
    }
}

/// Formats `n` in decimal.
pub fn usize_to_string(n: usize) -> (r: String)
    ensures
        r@ == dec_digits(n as int),
{
    u64_to_string(n as u64)
}

/// Formats `n` in decimal, left-padded with zeros to at least `w`
/// characters.
pub fn padded_u64(n: u64, w: usize) -> (r: String)
    ensures
        r@ == padded_digits(n as int, w as int),
{
    let digits = u64_to_string(n);
    let len = digits.as_str().unicode_len();
    let pad = if w > len {
        w - len
    } else {
        0
    };
    let mut out = String::new();
    let mut k: usize = 0;
    while k < pad
        invariant
            k <= pad,
            out@ == zeros(k as int),
        decreases pad - k,
    {
        proof {
            reveal_strlit("0");
        }
        out.append("0");
        proof {
            lemma_zeros_snoc(k + 1);
            assert(out@ =~= zeros(k + 1));
        }
        k = k + 1;
    }
    out.append(digits.as_str());
    proof {
        assert(zeros(w - dec_digits(n as int).len()) =~= zeros(k as int));
        assert(out@ =~= padded_digits(n as int, w as int));
    }
    out
}

/// Zeros grow one at a time, at either end.
proof fn lemma_zeros_snoc(n: int)
    requires
        n >= 1,
    ensures
        zeros(n) == zeros(n - 1) + seq!['0'],
    decreases n,
{
    if n == 1 {
        assert(zeros(1) =~= zeros(0) + seq!['0']);
    } else {
        lemma_zeros_snoc(n - 1);
        assert(zeros(n) =~= zeros(n - 1) + seq!['0']);
    }
}

/// The snapshot directory name for one wall-clock instant:
/// year, month, day, hour, minute, second and millisecond, zero-padded
/// and separated by dashes.
pub open spec fn timestamp_spec(
    year: int,
    month: int,
    day: int,
    hour: int,
    minute: int,
    second: int,
    milli: int,
) -> Seq<char> {
    padded_digits(year, 4) + seq!['-'] + padded_digits(month, 2) + seq!['-'] + padded_digits(
        day,
        2,
    ) + seq!['-'] + padded_digits(hour, 2) + seq!['-'] + padded_digits(minute, 2) + seq!['-']
        + padded_digits(second, 2) + seq!['-'] + padded_digits(milli, 3)
}

/// Formats a snapshot timestamp, `YYYY-MM-DD-HH-MM-SS-mmm`.
pub fn format_timestamp(
    year: u64,
    month: u64,
    day: u64,
    hour: u64,
    minute: u64,
    second: u64,
    milli: u64,
) -> (r: String)
    ensures
        r@ == timestamp_spec(
            year as int,
            month as int,
            day as int,
            hour as int,
            minute as int,
            second as int,
            milli as int,
        ),
{
    proof {
        reveal_strlit("-");
    }
    let mut out = padded_u64(year, 4);
    out.append("-");
    let m = padded_u64(month, 2);
    out.append(m.as_str());
    out.append("-");
    let d = padded_u64(day, 2);
    out.append(d.as_str());
    out.append("-");
    let h = padded_u64(hour, 2);
    out.append(h.as_str());
    out.append("-");
    let mi = padded_u64(minute, 2);
    out.append(mi.as_str());
    out.append("-");
    let s = padded_u64(second, 2);
    out.append(s.as_str());
    out.append("-");
    let ms = padded_u64(milli, 3);
    out.append(ms.as_str());
    proof {
        assert(out@ =~= timestamp_spec(
            year as int,
            month as int,
            day as int,
            hour as int,
            minute as int,
            second as int,
            milli as int,
        ));
    }
    out
}

} // verus!
