//! Text rendering of benchmark results: decimal numbers, fixed-point
//! fractions, left-padded columns and the comparison table. The column
//! order of the table is fixed; tooling parses it.

use vstd::prelude::*;
use vstd::string::StringExecFns;
use vstd::string::StrSliceExecFns;
use crate::benchmark::BenchmarkResult;
use crate::hashing::hex_digit;

verus! {

/// The decimal rendering of a non-negative integer, most significant digit
/// first.
pub open spec fn dec_str(n: int) -> Seq<char>
    decreases n,
{
    if n < 10 {
        seq![hex_digit(if n >= 0 {
            n
        } else {
            0int
        })]
    } else {
        dec_str(n / 10) + seq![hex_digit(n % 10)]
    }
}

/// `k` spaces.
pub open spec fn spaces(k: int) -> Seq<char>
    decreases k,
{
    if k <= 0 {
        Seq::empty()
    } else {
        spaces(k - 1).push(' ')
    }
}

/// `s`, left-aligned in a field of width `w`.
pub open spec fn pad_spec(s: Seq<char>, w: int) -> Seq<char> {
    if s.len() >= w {
        s
    } else {
        s + spaces(w - s.len())
    }
}

/// The last `digits` decimal digits of `f`, zero-padded.
pub open spec fn padded_frac(f: int, digits: int) -> Seq<char>
    decreases digits,
{
    if digits <= 0 {
        Seq::empty()
    } else {
        padded_frac(f / 10, digits - 1).push(hex_digit(f % 10))
    }
}

/// Ten to the `k`.
pub open spec fn pow10(k: int) -> int
    decreases k,
{
    if k <= 0 {
        1
    } else {
        10 * pow10(k - 1)
    }
}

/// A scaled value rendered with `digits` decimal places: the integer part,
/// a point, and the zero-padded fraction.
pub open spec fn fixed_str(scaled: int, digits: int) -> Seq<char> {
    dec_str(scaled / pow10(digits)) + seq!['.'] + padded_frac(scaled % pow10(digits), digits)
}

/// One decimal digit as a string slice.
fn dec_digit_str(n: u64) -> (r: &'static str)
    requires
        n < 10,
    ensures
        r@ == seq![hex_digit(n as int)],
{
    proof {
        reveal_strlit("0");
        reveal_strlit("1");
        reveal_strlit("2");
        reveal_strlit("3");
        reveal_strlit("4");
        reveal_strlit("5");
        reveal_strlit("6");
        reveal_strlit("7");
        reveal_strlit("8");
        reveal_strlit("9");
    }
    let r = match n {
        0 => "0",
        1 => "1",
        2 => "2",
        3 => "3",
        4 => "4",
        5 => "5",
        6 => "6",
        7 => "7",
        8 => "8",
        _ => "9",
    };
    proof {
        assert(r@ =~= seq![hex_digit(n as int)]);
    }
    r
}

/// Renders a number in decimal.
pub fn u64_to_dec(n: u64) -> (r: String)
    ensures
        r@ == dec_str(n as int),
{
    if n < 10 {
        return String::from_str(dec_digit_str(n));
    }
    let mut acc = String::from_str(dec_digit_str(n % 10));
    let mut m: u64 = n / 10;
    proof {
        assert(dec_str(n as int) == dec_str(m as int) + acc@);
    }
    while m >= 10
        invariant
            dec_str(n as int) == dec_str(m as int) + acc@,
        decreases m,
    {
        let d = m % 10;
        acc = String::from_str(dec_digit_str(d)).concat(acc.as_str());
        m = m / 10;
        proof {
            assert(dec_str(n as int) == dec_str(m as int) + acc@) by {
                assert(dec_str((m * 10 + d) as int) == dec_str(m as int) + seq![hex_digit(
                    d as int,
                )]);
            }
        }
    }
    let r = String::from_str(dec_digit_str(m)).concat(acc.as_str());
    proof {
        assert(dec_str(m as int) == seq![hex_digit(m as int)]);
    }
    r
}

/// Left-aligns a string in a field of width `w`, appending spaces.
pub fn pad_right(s: String, w: usize) -> (r: String)
    ensures
        r@ == pad_spec(s@, w as int),
{
    let ghost s0 = s@;
    let mut s = s;
    let mut len = s.as_str().unicode_len();
    if len >= w {
        proof {
            assert(pad_spec(s0, w as int) == s0);
        }
        return s;
    }
    while len < w
        invariant
            len == s@.len(),
            s0.len() <= len,
            len <= w,
            s@ == s0 + spaces(len - s0.len()),
        decreases w - len,
    {
        s.append(" ");
        proof {
            reveal_strlit(" ");
            assert(s@ =~= s0 + spaces(len + 1 - s0.len()));
        }
        len = len + 1;
    }
    proof {
        assert(s@ == pad_spec(s0, w as int));
    }
    s
}

/// Renders `scaled` with `digits` decimal places; `div` must be ten to the
/// `digits`.
pub fn fixed_point_str(scaled: u64, digits: usize, div: u64) -> (r: String)
    requires
        div as int == pow10(digits as int),
        digits >= 1,
    ensures
        r@ == fixed_str(scaled as int, digits as int),
{
    proof {
        lemma_pow10_positive(digits as int);
    }
    let ip = scaled / div;
    let f = scaled % div;
    let mut r = u64_to_dec(ip);
    r.append(".");
    proof {
        reveal_strlit(".");
        assert(r@ =~= dec_str(ip as int) + seq!['.']);
    }
    // digits of the fraction, most significant first
    let mut k: usize = 0;
    let mut p: u64 = div / 10;
    while k < digits
        invariant
            k <= digits,
            div as int == pow10(digits as int),
            f < div,
            k < digits ==> p as int == pow10((digits - k - 1) as int),
            r@ == dec_str(ip as int) + seq!['.'] + padded_frac(
                f as int / pow10((digits - k) as int),
                k as int,
            ),
        decreases digits - k,
    {
        proof {
            lemma_pow10_positive((digits - k - 1) as int);
        }
        let d = (f / p) % 10;
        r.append(dec_digit_str(d));
        proof {
            let e = (digits - k - 1) as int;
            lemma_div_compose(f as int, pow10(e), 10);
            assert(pow10(e) * 10 == pow10(e + 1));
            assert(padded_frac(f as int / pow10(e), k + 1) == padded_frac(
                f as int / pow10(e + 1),
                k as int,
            ).push(hex_digit((f as int / pow10(e)) % 10)));
            assert(r@ =~= dec_str(ip as int) + seq!['.'] + padded_frac(
                f as int / pow10(e),
                k + 1,
            ));
        }
        if k + 1 < digits {
            p = p / 10;
            proof {
                lemma_pow10_div10((digits - k - 1) as int);
            }
        }
        k = k + 1;
    }
    proof {
        assert(pow10(0) == 1);
        assert(f as int / 1 == f as int);
    }
    r
}

/// Ten to the `k` is positive.
proof fn lemma_pow10_positive(k: int)
    ensures
        pow10(k) >= 1,
    decreases k,
{
    if k > 0 {
        lemma_pow10_positive(k - 1);
    }
}

/// Dividing by ten to the `k` and then by ten divides by ten to the
/// `k + 1`.
proof fn lemma_div_compose(x: int, a: int, b: int)
    requires
        x >= 0,
        a >= 1,
        b >= 1,
    ensures
        (x / a) / b == x / (a * b),
{
    vstd::arithmetic::div_mod::lemma_div_denominator(x, a, b);
}

/// Ten to the `k`, divided by ten, is ten to the `k - 1`.
proof fn lemma_pow10_div10(k: int)
    requires
        k >= 1,
    ensures
        pow10(k) / 10 == pow10(k - 1),
{
    lemma_pow10_positive(k - 1);
    assert(pow10(k) == 10 * pow10(k - 1));
    vstd::arithmetic::div_mod::lemma_div_multiples_vanish(pow10(k - 1), 10);
}

/// The separator line of the table.
pub open spec fn sep_spec() -> Seq<char> {
    "--------------------------------------------------------------------------------"@ + seq![
        '\n',
    ]
}

/// The header line of the table.
pub open spec fn header_spec() -> Seq<char> {
    pad_spec("Method"@, 15) + seq![' '] + pad_spec("Time(ms)"@, 10) + seq![' '] + pad_spec(
        "Memory"@,
        8,
    ) + seq![' '] + pad_spec("Accuracy"@, 12) + seq![' '] + pad_spec("Duplicates"@, 10) + seq![
        ' ',
    ] + pad_spec("Saved(MB)"@, 8) + seq![' '] + pad_spec("FP"@, 10) + seq![' '] + pad_spec(
        "FN"@,
        6,
    ) + seq!['\n']
}

/// The accuracy ratio of a result scaled to ten-thousandths, truncated.
pub open spec fn accuracy_ten_thousandths(r: BenchmarkResult) -> int {
    let d = r.true_positives + r.false_positives + r.false_negatives;
    if d == 0 {
        10000
    } else {
        r.true_positives * 10000 / d as int
    }
}

/// One row of the table: name, milliseconds, kibibytes of memory, accuracy
/// to four places, duplicate count, saved megabytes to two places, false
/// positives, false negatives.
pub open spec fn row_spec(r: BenchmarkResult) -> Seq<char> {
    pad_spec(r.method_name@, 15) + seq![' '] + pad_spec(dec_str(r.execution_time_ms as int), 10)
        + seq![' '] + pad_spec(dec_str(r.memory_usage as int / 1024), 8) + seq![' '] + pad_spec(
        fixed_str(accuracy_ten_thousandths(r), 4),
        12,
    ) + seq![' '] + pad_spec(dec_str(r.duplicates_found as int), 10) + seq![' '] + pad_spec(
        fixed_str(r.space_saved as int / 10000, 2),
        8,
    ) + seq![' '] + pad_spec(dec_str(r.false_positives as int), 10) + seq![' '] + pad_spec(
        dec_str(r.false_negatives as int),
        6,
    ) + seq!['\n']
}

/// The rows of all results, in order.
pub open spec fn rows_spec(rs: Seq<BenchmarkResult>) -> Seq<char>
    decreases rs.len(),
{
    if rs.len() == 0 {
        Seq::empty()
    } else {
        rows_spec(rs.drop_last()) + row_spec(rs.last())
    }
}

/// The whole table: header, separator, one row per result.
pub open spec fn table_spec(rs: Seq<BenchmarkResult>) -> Seq<char> {
    header_spec() + sep_spec() + rows_spec(rs)
}

/// Appends one padded column and a space.
fn push_col(t: &mut String, s: String, w: usize)
    ensures
        final(t)@ == old(t)@ + pad_spec(s@, w as int) + seq![' '],
{
    let p = pad_right(s, w);
    t.append(p.as_str());
    t.append(" ");
    proof {
        reveal_strlit(" ");
        assert(final(t)@ =~= old(t)@ + pad_spec(s@, w as int) + seq![' ']);
    }
}

/// Renders the accuracy of a result to four decimal places.
fn accuracy_col(r: &BenchmarkResult) -> (s: String)
    ensures
        s@ == fixed_str(accuracy_ten_thousandths(*r), 4),
{
    let tp = r.true_positives as u128;
    let d = tp + (r.false_positives as u128) + (r.false_negatives as u128);
    let scaled: u64 = if d == 0 {
        10000
    } else {
        let v = tp * 10000 / d;
        proof {
            assert(v as int <= 10000) by (nonlinear_arith)
                requires
                    v as int == tp as int * 10000 / d as int,
                    d as int >= 1,
                    tp as int <= d as int,
            ;
        }
        v as u64
    };
    proof {
        reveal_with_fuel(pow10, 5);
        assert(pow10(4) == 10000);
    }
    fixed_point_str(scaled, 4, 10000)
}

/// Renders one result row.
fn render_row(r: &BenchmarkResult) -> (s: String)
    ensures
        s@ == row_spec(*r),
{
    let mut t = String::new();
    push_col(&mut t, r.method_name.clone(), 15);
    push_col(&mut t, u64_to_dec(r.execution_time_ms), 10);
    push_col(&mut t, u64_to_dec(r.memory_usage / 1024), 8);
    push_col(&mut t, accuracy_col(r), 12);
    push_col(&mut t, usize_to_dec(r.duplicates_found), 10);
    proof {
        reveal_with_fuel(pow10, 3);
        assert(pow10(2) == 100);
    }
    push_col(&mut t, fixed_point_str(r.space_saved / 10000, 2, 100), 8);
    push_col(&mut t, usize_to_dec(r.false_positives), 10);
    let fncol = pad_right(usize_to_dec(r.false_negatives), 6);
    t.append(fncol.as_str());
    t.append("\n");
    proof {
        reveal_strlit("\n");
        assert(t@ =~= row_spec(*r));
    }
    t
}

/// Renders a count in decimal.
pub fn usize_to_dec(n: usize) -> (r: String)
    ensures
        r@ == dec_str(n as int),
{
    u64_to_dec(n as u64)
}

/// Renders the fixed-column comparison table of a list of results.
pub fn generate_comparison_table(results: &Vec<BenchmarkResult>) -> (t: String)
    ensures
        t@ == table_spec(results@),
{
    let mut t = String::new();
    push_col(&mut t, String::from_str("Method"), 15);
    push_col(&mut t, String::from_str("Time(ms)"), 10);
    push_col(&mut t, String::from_str("Memory"), 8);
    push_col(&mut t, String::from_str("Accuracy"), 12);
    push_col(&mut t, String::from_str("Duplicates"), 10);
    push_col(&mut t, String::from_str("Saved(MB)"), 8);
    push_col(&mut t, String::from_str("FP"), 10);
    let hcol = pad_right(String::from_str("FN"), 6);
    t.append(hcol.as_str());
    t.append("\n");
    t.append(
        "--------------------------------------------------------------------------------",
    );
    t.append("\n");
    proof {
        reveal_strlit("\n");
        assert(t@ =~= header_spec() + sep_spec());
    }
    let mut k: usize = 0;
    while k < results.len()
        invariant
            k <= results@.len(),
            t@ == header_spec() + sep_spec() + rows_spec(results@.take(k as int)),
        decreases results@.len() - k,
    {
        let row = render_row(&results[k]);
        t.append(row.as_str());
        proof {
            assert(results@.take(k + 1).drop_last() =~= results@.take(k as int));
            assert(results@.take(k + 1).last() == results@[k as int]);
            assert(t@ =~= header_spec() + sep_spec() + rows_spec(results@.take(k + 1)));
        }
        k = k + 1;
    }
    proof {
        assert(results@.take(results@.len() as int) =~= results@);
    }
    t
}

} // verus!
