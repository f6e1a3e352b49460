//! Turning the report into display text: decimal digits, thousands
//! grouping, and the per-author report lines.

use vstd::prelude::*;
use vstd::string::*;
use num_format::{Locale, ToFormattedString};
use crate::report::{Report, ReportEntry};

verus! {

/// The character of one decimal digit.
pub open spec fn digit_char(d: nat) -> char {
    if d == 0 {
        '0'
    } else if d == 1 {
        '1'
    } else if d == 2 {
        '2'
    } else if d == 3 {
        '3'
    } else if d == 4 {
        '4'
    } else if d == 5 {
        '5'
    } else if d == 6 {
        '6'
    } else if d == 7 {
        '7'
    } else if d == 8 {
        '8'
    } else {
        '9'
    }
}

/// The decimal digits of a number, most significant first.
pub open spec fn dec_digits(n: nat) -> Seq<char>
    decreases n,
{
    if n < 10 {
        seq![digit_char(n)]
    } else {
        dec_digits(n / 10).push(digit_char(n % 10))
    }
}

/// Digits grouped in threes from the right, separated by commas.
pub open spec fn grouped(ds: Seq<char>) -> Seq<char>
    decreases ds.len(),
{
    if ds.len() <= 3 {
        ds
    } else {
        grouped(ds.take(ds.len() - 3)) + seq![','] + ds.skip(ds.len() - 3)
    }
}

/// The shape of one report line:
/// `author: <grouped count>, <whole>.<tenth>%`.
pub open spec fn spec_entry_line(author: Seq<char>, lines: nat, tenths: nat) -> Seq<char> {
    author + seq![':', ' '] + grouped(dec_digits(lines)) + seq![',', ' '] + dec_digits(tenths / 10)
        + seq!['.'] + seq![digit_char(tenths % 10)] + seq!['%']
}

/// One decimal digit as text.
fn digit_str(d: u64) -> (r: &'static str)
    requires
        d < 10,
    ensures
        r@ == seq![digit_char(d as nat)],
{
    if d == 0 {
        proof {
            reveal_strlit("0");
        }
        let s = "0";
        proof {
            assert(s@ =~= seq![digit_char(0)]);
        }
        s
    } else if d == 1 {
        proof {
            reveal_strlit("1");
        }
        let s = "1";
        proof {
            assert(s@ =~= seq![digit_char(1)]);
        }
        s
    } else if d == 2 {
        proof {
            reveal_strlit("2");
        }
        let s = "2";
        proof {
            assert(s@ =~= seq![digit_char(2)]);
        }
        s
    } else if d == 3 {
        proof {
            reveal_strlit("3");
        }
        let s = "3";
        proof {
            assert(s@ =~= seq![digit_char(3)]);
        }
        s
    } else if d == 4 {
        proof {
            reveal_strlit("4");
        }
        let s = "4";
        proof {
            assert(s@ =~= seq![digit_char(4)]);
        }
        s
    } else if d == 5 {
        proof {
            reveal_strlit("5");
        }
        let s = "5";
        proof {
            assert(s@ =~= seq![digit_char(5)]);
        }
        s
    } else if d == 6 {
        proof {
            reveal_strlit("6");
        }
        let s = "6";
        proof {
            assert(s@ =~= seq![digit_char(6)]);
        }
        s
    } else if d == 7 {
        proof {
            reveal_strlit("7");
        }
        let s = "7";
        proof {
            assert(s@ =~= seq![digit_char(7)]);
        }
        s
    } else if d == 8 {
        proof {
            reveal_strlit("8");
        }
        let s = "8";
        proof {
            assert(s@ =~= seq![digit_char(8)]);
        }
        s
    } else {
        proof {
            reveal_strlit("9");
        }
        let s = "9";
        proof {
            assert(s@ =~= seq![digit_char(9)]);
        }
        s
    }
}

/// A number as plain decimal text.
pub fn to_decimal(n: u64) -> (r: String)
    ensures
        r@ == dec_digits(n as nat),
    decreases n,
{
    if n < 10 {
        let s = digit_str(n);
        s.to_owned()
    } else {
        let mut r = to_decimal(n / 10);
        let d = digit_str(n % 10);
        r.append(d);
        proof {
            assert(r@ =~= dec_digits(n as nat));
        }
        r
    }
}

/// Relies on num_format's `ToFormattedString::to_formatted_string` with
/// `Locale::en`: the decimal digits of the integer, grouped in threes
/// from the right by commas.
#[verifier::external_body]
fn format_u64_en(n: u64) -> (r: String)
    ensures
        r@ == grouped(dec_digits(n as nat)),
{
    n.to_formatted_string(&Locale::en)
}

/// A count formatted for display: digits grouped in threes by commas.
pub fn format_count(n: u64) -> (r: String)
    ensures
        r@ == grouped(dec_digits(n as nat)),
{
    format_u64_en(n)
}

/// One report line for one entry.
pub fn render_entry_line(e: &ReportEntry) -> (out: String)
    ensures
        out@ == spec_entry_line(e.author@, e.lines as nat, e.percent_tenths as nat),
{
    let mut out = e.author.clone();
    proof {
        reveal_strlit(": ");
        reveal_strlit(", ");
        reveal_strlit(".");
        reveal_strlit("%");
        assert(": "@ =~= seq![':', ' ']);
        assert(", "@ =~= seq![',', ' ']);
        assert("."@ =~= seq!['.']);
        assert("%"@ =~= seq!['%']);
    }
    out.append(": ");
    let cnt = format_u64_en(e.lines);
    out.append(cnt.as_str());
    out.append(", ");
    let whole = to_decimal((e.percent_tenths / 10) as u64);
    out.append(whole.as_str());
    out.append(".");
    let frac = digit_str((e.percent_tenths % 10) as u64);
    out.append(frac);
    out.append("%");
    proof {
        assert(out@ =~= spec_entry_line(e.author@, e.lines as nat, e.percent_tenths as nat));
    }
    out
}

/// All report lines, in report order.
pub fn render_report(r: &Report) -> (out: Vec<String>)
    ensures
        out@.len() == r.entries@.len(),
        forall|i: int|
            0 <= i < out@.len() ==> out@[i]@ == spec_entry_line(
                r.entries@[i].author@,
                r.entries@[i].lines as nat,
                r.entries@[i].percent_tenths as nat,
            ),
{
    let n = r.entries.len();
    let mut out: Vec<String> = Vec::new();
    let mut i: usize = 0;
    while i < n
        invariant
            n == r.entries@.len(),
            0 <= i <= n,
            out@.len() == i,
            forall|x: int|
                0 <= x < i ==> out@[x]@ == spec_entry_line(
                    r.entries@[x].author@,
                    r.entries@[x].lines as nat,
                    r.entries@[x].percent_tenths as nat,
                ),
        decreases n - i,
    {
        let line = render_entry_line(&r.entries[i]);
        out.push(line);
        i = i + 1;
    }
    out
}

} // verus!
