//! Human-readable rendering of read-count statistics and relative dates.
use crate::progress::Date;
use vstd::prelude::*;
use vstd::string::StringExecFns;

verus! {

/// The decimal digit character for `d`.
pub open spec fn digit_char(d: int) -> char {
    ((48 + d) as u8) as char
}

/// The decimal representation of a non-negative number.
pub open spec fn dec_rep(n: int) -> Seq<char>
    decreases n,
{
    if n < 10 {
        seq![digit_char(n)]
    } else {
        dec_rep(n / 10).push(digit_char(n % 10))
    }
}

/// Relies on String::push: appends the one character.
#[verifier::external_body]
fn push_char(s: &mut String, c: char)
    ensures
        final(s)@ == old(s)@.push(c),
{
    s.push(c)
}

/// The decimal digits of `n`, most significant first.
fn u32_digits(n: u32) -> (r: Vec<u8>)
    ensures
        r@.len() >= 1,
        dec_rep(n as int) =~= r@.map(|i: int, d: u8| digit_char(d as int)),
        forall|i: int| 0 <= i < r@.len() ==> (#[trigger] r@[i]) < 10,
    decreases n,
{
    if n < 10 {
        let mut r: Vec<u8> = Vec::new();
        r.push(n as u8);
        proof {
            assert(dec_rep(n as int) =~= r@.map(|i: int, d: u8| digit_char(d as int)));
        }
        r
    } else {
        let mut r = u32_digits(n / 10);
        let ghost prefix = r@;
        r.push((n % 10) as u8);
        proof {
            assert(dec_rep(n as int) == dec_rep(n as int / 10).push(digit_char(n as int % 10)));
            assert(r@.map(|i: int, d: u8| digit_char(d as int)) =~= prefix.map(
                |i: int, d: u8| digit_char(d as int),
            ).push(digit_char((n % 10) as int)));
            assert(dec_rep(n as int) =~= r@.map(|i: int, d: u8| digit_char(d as int)));
        }
        r
    }
}

/// Appends the decimal rendering of `n`.
fn push_u32(s: &mut String, n: u32)
    ensures
        final(s)@ == old(s)@ + dec_rep(n as int),
{
    let digits = u32_digits(n);
    let ghost start = s@;
    let mut i: usize = 0;
    while i < digits.len()
        invariant
            0 <= i <= digits@.len(),
            forall|k: int| 0 <= k < digits@.len() ==> (#[trigger] digits@[k]) < 10,
            s@ == start + digits@.take(i as int).map(|k: int, d: u8| digit_char(d as int)),
        decreases digits@.len() - i,
    {
        let d = digits[i];
        push_char(s, (48 + d) as char);
        proof {
            assert(digits@.take(i as int + 1) =~= digits@.take(i as int).push(digits@[i as int]));
            assert(s@ =~= start + digits@.take(i as int + 1).map(
                |k: int, d: u8| digit_char(d as int),
            ));
        }
        i += 1;
    }
    proof {
        assert(digits@.take(digits@.len() as int) =~= digits@);
        assert(s@ =~= start + dec_rep(n as int));
    }
}

/// The percentage `more / total`, rounded half away from zero.
pub open spec fn rounded_percent(more: u32, total: u32) -> int
    recommends
        total > 0,
{
    (200 * more + total) / (2 * total)
}

/// The display text of a `(min, more, total)` read-count triple: `"0%"` for
/// an unread scope, `"Nx"` when no verse (or every verse) exceeds the
/// minimum, a rounded percentage for large scopes and a verse fraction for
/// small ones.
pub open spec fn spec_read_count_text(min: u32, more: u32, total: u32) -> Seq<char> {
    if min == 0 {
        "0%"@
    } else if more == 0 || more == total {
        dec_rep(min as int) + "x"@
    } else if total >= 100 {
        if rounded_percent(more, total) >= 100 {
            dec_rep(min as int) + "x"@
        } else {
            dec_rep(min as int) + "x + "@ + dec_rep(rounded_percent(more, total)) + "%"@
        }
    } else {
        dec_rep(min as int) + "x + "@ + dec_rep(more as int) + "/"@ + dec_rep(total as int)
            + " verses"@
    }
}

/// Renders a read-count triple for the dashboard.
pub fn format_read_count_text(min_read_count: u32, verses_read_more: u32, total_verses: u32) -> (r:
    String)
    requires
        verses_read_more <= total_verses,
    ensures
        r@ == spec_read_count_text(min_read_count, verses_read_more, total_verses),
{
    let mut s = String::new();
    if min_read_count == 0 {
        s.append("0%");
        proof {
            assert(s@ =~= "0%"@);
        }
        return s;
    }
    if verses_read_more == 0 || verses_read_more == total_verses {
        push_u32(&mut s, min_read_count);
        s.append("x");
        proof {
            assert(s@ =~= dec_rep(min_read_count as int) + "x"@);
        }
        return s;
    }
    if total_verses >= 100 {
        let num: u64 = 200u64 * (verses_read_more as u64) + (total_verses as u64);
        let den: u64 = 2u64 * (total_verses as u64);
        let pct64: u64 = num / den;
        proof {
            assert(num <= 201 * (total_verses as int)) by {
                assert(200 * (verses_read_more as int) <= 200 * (total_verses as int));
            }
            assert(pct64 <= 101) by (nonlinear_arith)
                requires
                    num <= 201 * (total_verses as int),
                    den == 2 * (total_verses as int),
                    total_verses >= 100,
                    pct64 == num as int / den as int,
            {}
            assert(pct64 == rounded_percent(verses_read_more, total_verses));
        }
        let pct = pct64 as u32;
        if pct >= 100 {
            push_u32(&mut s, min_read_count);
            s.append("x");
            proof {
                assert(s@ =~= dec_rep(min_read_count as int) + "x"@);
            }
            return s;
        }
        push_u32(&mut s, min_read_count);
        s.append("x + ");
        push_u32(&mut s, pct);
        s.append("%");
        proof {
            assert(s@ =~= dec_rep(min_read_count as int) + "x + "@ + dec_rep(
                rounded_percent(verses_read_more, total_verses),
            ) + "%"@);
        }
        return s;
    }
    push_u32(&mut s, min_read_count);
    s.append("x + ");
    push_u32(&mut s, verses_read_more);
    s.append("/");
    push_u32(&mut s, total_verses);
    s.append(" verses");
    proof {
        assert(s@ =~= dec_rep(min_read_count as int) + "x + "@ + dec_rep(verses_read_more as int)
            + "/"@ + dec_rep(total_verses as int) + " verses"@);
    }
    s
}

/// The sequence left-padded with zeroes to the width, kept as is when it is
/// already wide enough.
pub open spec fn zero_pad(s: Seq<char>, w: int) -> Seq<char> {
    if s.len() >= w {
        s
    } else {
        Seq::new((w - s.len()) as nat, |i: int| '0') + s
    }
}

/// A date in the `YYYY-MM-DD` shape, each part zero-padded.
pub open spec fn iso_date(d: Date) -> Seq<char> {
    zero_pad(dec_rep(d.year as int), 4) + "-"@ + zero_pad(dec_rep(d.month as int), 2) + "-"@
        + zero_pad(dec_rep(d.day as int), 2)
}

/// The natural-language rendering of how long ago a date was: a word for
/// the last two days, day counts within a week, then week and month
/// granularity, and the full date once more than two months have passed
/// (or for a day difference outside the table, such as a future date).
pub open spec fn spec_relative_date(days_ago: i64, date: Date) -> Seq<char> {
    if days_ago == 0 {
        "today"@
    } else if days_ago == 1 {
        "yesterday"@
    } else if 2 <= days_ago <= 7 {
        dec_rep(days_ago as int) + " days ago"@
    } else if 8 <= days_ago <= 14 {
        "last week"@
    } else if 15 <= days_ago <= 30 {
        if days_ago as int / 7 == 1 {
            "1 week ago"@
        } else {
            dec_rep(days_ago as int / 7) + " weeks ago"@
        }
    } else if 31 <= days_ago <= 60 {
        if days_ago as int / 30 == 1 {
            "1 month ago"@
        } else {
            dec_rep(days_ago as int / 30) + " months ago"@
        }
    } else {
        iso_date(date)
    }
}

/// Appends the decimal rendering of `n`, left-padded with zeroes to the
/// width.
fn push_u32_padded(s: &mut String, n: u32, width: usize)
    ensures
        final(s)@ == old(s)@ + zero_pad(dec_rep(n as int), width as int),
{
    let digits = u32_digits(n);
    let ghost start = s@;
    let ghost dl = digits@.len() as int;
    proof {
        assert(dec_rep(n as int).len() == dl) by {
            assert(dec_rep(n as int) =~= digits@.map(|i: int, d: u8| digit_char(d as int)));
        }
        assert(s@ =~= start + Seq::new(0nat, |i: int| '0'));
    }
    let mut k: usize = digits.len();
    while k < width
        invariant
            dl <= k,
            k <= width || k == dl,
            dl == digits@.len(),
            dl == dec_rep(n as int).len(),
            s@ == start + Seq::new((k - dl) as nat, |i: int| '0'),
        decreases width - k,
    {
        push_char(s, '0');
        proof {
            assert(s@ =~= start + Seq::new((k + 1 - dl) as nat, |i: int| '0'));
        }
        k += 1;
    }
    push_u32(s, n);
    proof {
        if dl >= width {
            assert(zero_pad(dec_rep(n as int), width as int) == dec_rep(n as int));
            assert(s@ =~= start + dec_rep(n as int));
        } else {
            assert(Seq::new((width - dl) as nat, |i: int| '0') + dec_rep(n as int) =~= zero_pad(
                dec_rep(n as int),
                width as int,
            ));
            assert(s@ =~= start + (Seq::new((width - dl) as nat, |i: int| '0') + dec_rep(
                n as int,
            )));
        }
        assert(s@ =~= start + zero_pad(dec_rep(n as int), width as int));
    }
}

/// Renders how long ago `date` was, given the day difference to today.
pub fn format_relative_date(days_ago: i64, date: Date) -> (r: String)
    ensures
        r@ == spec_relative_date(days_ago, date),
{
    let mut s = String::new();
    if days_ago == 0 {
        s.append("today");
        proof {
            assert(s@ =~= "today"@);
        }
        return s;
    }
    if days_ago == 1 {
        s.append("yesterday");
        proof {
            assert(s@ =~= "yesterday"@);
        }
        return s;
    }
    if 2 <= days_ago && days_ago <= 7 {
        push_u32(&mut s, days_ago as u32);
        s.append(" days ago");
        proof {
            assert(s@ =~= dec_rep(days_ago as int) + " days ago"@);
        }
        return s;
    }
    if 8 <= days_ago && days_ago <= 14 {
        s.append("last week");
        proof {
            assert(s@ =~= "last week"@);
        }
        return s;
    }
    if 15 <= days_ago && days_ago <= 30 {
        let weeks = (days_ago as u32) / 7;
        proof {
            assert(weeks as int == days_ago as int / 7);
        }
        if weeks == 1 {
            s.append("1 week ago");
            proof {
                assert(s@ =~= "1 week ago"@);
            }
        } else {
            push_u32(&mut s, weeks);
            s.append(" weeks ago");
            proof {
                assert(s@ =~= dec_rep(days_ago as int / 7) + " weeks ago"@);
            }
        }
        return s;
    }
    if 31 <= days_ago && days_ago <= 60 {
        let months = (days_ago as u32) / 30;
        proof {
            assert(months as int == days_ago as int / 30);
        }
        if months == 1 {
            s.append("1 month ago");
            proof {
                assert(s@ =~= "1 month ago"@);
            }
        } else {
            push_u32(&mut s, months);
            s.append(" months ago");
            proof {
                assert(s@ =~= dec_rep(days_ago as int / 30) + " months ago"@);
            }
        }
        return s;
    }
    push_u32_padded(&mut s, date.year, 4);
    s.append("-");
    push_u32_padded(&mut s, date.month, 2);
    s.append("-");
    push_u32_padded(&mut s, date.day, 2);
    proof {
        assert(s@ =~= iso_date(date));
    }
    s
}

} // verus!
