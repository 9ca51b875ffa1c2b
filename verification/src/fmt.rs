//! Rendering the health ratio: a percentage with exactly two decimal places
//! and a trailing percent sign, computed and formatted in integer
//! arithmetic. The ratio is taken over compacted runs, not raw observations,
//! and is scaled to hundredths of a percent, rounded to nearest (halves
//! upward). With no runs at all the ratio renders as `0.00%`.

use vstd::prelude::*;
use vstd::string::StringExecFns;

verus! {

/// The decimal digit character for one digit value.
pub open spec fn digit_char(d: int) -> char {
    if d == 0 {
        '0'
    } else if d == 1 {
        '1'
    } else if d == 2 {
        '2'
    } else if d == 3 {
        '3'
    } else if d == 4 {
        '4'
    } else if d == 5 {
        '5'
    } else if d == 6 {
        '6'
    } else if d == 7 {
        '7'
    } else if d == 8 {
        '8'
    } else {
        '9'
    }
}

/// The decimal rendering of a non-negative integer, most significant digit
/// first, with no leading zeros (zero itself renders as one digit).
pub open spec fn dec_chars(n: int) -> Seq<char>
    decreases n,
{
    if n < 10 {
        seq![digit_char(n)]
    } else {
        dec_chars(n / 10).push(digit_char(n % 10))
    }
}

/// The ratio of healthy runs in hundredths of a percent, rounded to nearest
/// with halves upward.
pub open spec fn ratio_basis_points(ok: int, total: int) -> int {
    (ok * 10000 + total / 2) / total
}

/// The rendering of a ratio given in hundredths of a percent: the whole
/// percent part, a point, exactly two decimal digits, and a percent sign.
pub open spec fn ratio_chars(bp: int) -> Seq<char> {
    dec_chars(bp / 100) + seq!['.', digit_char((bp % 100) / 10), digit_char(bp % 10), '%']
}

/// The rendered health ratio of a website: the share of its runs that were
/// healthy, or zero when it has no runs at all.
pub open spec fn ok_ratio_chars(ok: int, total: int) -> Seq<char> {
    if total == 0 {
        ratio_chars(0)
    } else {
        ratio_chars(ratio_basis_points(ok, total))
    }
}

/// Appends one decimal digit.
fn push_digit(s: &mut String, d: u64)
    requires
        d < 10,
    ensures
        final(s)@ == old(s)@ + seq![digit_char(d as int)],
{
    let lit = match d {
        0 => "0",
        1 => "1",
        2 => "2",
        3 => "3",
        4 => "4",
        5 => "5",
        6 => "6",
        7 => "7",
        8 => "8",
        _ => "9",
    };
    proof {
        reveal_strlit("0");
        reveal_strlit("1");
        reveal_strlit("2");
        reveal_strlit("3");
        reveal_strlit("4");
        reveal_strlit("5");
        reveal_strlit("6");
        reveal_strlit("7");
        reveal_strlit("8");
        reveal_strlit("9");
        assert(lit@ =~= seq![digit_char(d as int)]);
    }
    s.append(lit);
}

/// Appends the decimal rendering of a non-negative integer.
fn push_decimal(s: &mut String, n: u64)
    ensures
        final(s)@ == old(s)@ + dec_chars(n as int),
    decreases n,
{
    if n >= 10 {
        push_decimal(s, n / 10);
    }
    push_digit(s, n % 10);
    proof {
        if n >= 10 {
            assert(old(s)@ + dec_chars(n as int / 10) + seq![digit_char(n as int % 10)] =~= old(
                s,
            )@ + dec_chars(n as int));
        } else {
            assert(old(s)@ + seq![digit_char(n as int)] =~= old(s)@ + dec_chars(n as int));
        }
    }
}

/// Renders the health ratio of `count_ok` healthy runs out of `total` as a
/// percentage with exactly two decimal places and a trailing percent sign.
pub fn format_ok_ratio(count_ok: usize, total: usize) -> (r: String)
    requires
        count_ok <= total,
    ensures
        r@ == ok_ratio_chars(count_ok as int, total as int),
{
    let bp: u64 = if total == 0 {
        0u64
    } else {
        let wide = ((count_ok as u128) * 10000 + (total as u128) / 2) / (total as u128);
        proof {
            lemma_basis_points_range(count_ok as int, total as int);
        }
        wide as u64
    };
    let mut s = String::new();
    push_decimal(&mut s, bp / 100);
    proof {
        reveal_strlit(".");
        reveal_strlit("%");
    }
    s.append(".");
    push_digit(&mut s, (bp % 100) / 10);
    push_digit(&mut s, bp % 10);
    s.append("%");
    proof {
        assert((bp % 100) / 10 == (bp as int % 100) / 10);
        assert(s@ =~= ratio_chars(bp as int));
        if total != 0 {
            assert(bp == ratio_basis_points(count_ok as int, total as int));
        }
    }
    s
}

/// The ratio in hundredths of a percent lies between 0 and 10000.
proof fn lemma_basis_points_range(ok: int, total: int)
    requires
        0 <= ok <= total,
        total > 0,
    ensures
        0 <= ratio_basis_points(ok, total) <= 10000,
{
    let num = ok * 10000 + total / 2;
    assert(ok * 10000 <= total * 10000) by (nonlinear_arith)
        requires
            0 <= ok <= total,
    ;
    assert(ok * 10000 >= 0) by (nonlinear_arith)
        requires
            ok >= 0,
    ;
    vstd::arithmetic::div_mod::lemma_div_is_ordered(0, num, total);
    vstd::arithmetic::div_mod::lemma_div_is_ordered(num, total * 10000 + total / 2, total);
    vstd::arithmetic::div_mod::lemma_div_multiples_vanish_fancy(10000, total / 2, total);
}

/// Digit characters.
pub open spec fn is_digit(c: char) -> bool {
    c == '0' || c == '1' || c == '2' || c == '3' || c == '4' || c == '5' || c == '6' || c == '7'
        || c == '8' || c == '9'
}

/// Every character of a decimal rendering is a digit.
proof fn lemma_dec_chars_digits(n: int)
    ensures
        dec_chars(n).len() >= 1,
        forall|i: int| 0 <= i < dec_chars(n).len() ==> is_digit(#[trigger] dec_chars(n)[i]),
    decreases n,
{
    if n >= 10 {
        lemma_dec_chars_digits(n / 10);
    }
}

/// Ratio formatting law: however a website's runs are counted, the rendered
/// ratio consists of decimal digits, then a point, then exactly two decimal
/// digits, then a trailing percent sign.
pub proof fn lemma_ratio_format(ok: int, total: int)
    requires
        0 <= ok <= total,
    ensures
        ({
            let s = ok_ratio_chars(ok, total);
            &&& s.len() >= 5
            &&& s[s.len() - 1] == '%'
            &&& is_digit(s[s.len() - 2])
            &&& is_digit(s[s.len() - 3])
            &&& s[s.len() - 4] == '.'
            &&& forall|i: int| 0 <= i < s.len() - 4 ==> is_digit(s[i])
        }),
{
    let bp = if total == 0 {
        0
    } else {
        ratio_basis_points(ok, total)
    };
    if total > 0 {
        lemma_basis_points_range(ok, total);
    }
    lemma_dec_chars_digits(bp / 100);
    let s = ok_ratio_chars(ok, total);
    assert(s =~= dec_chars(bp / 100) + seq![
        '.',
        digit_char((bp % 100) / 10),
        digit_char(bp % 10),
        '%',
    ]);
}

} // verus!
