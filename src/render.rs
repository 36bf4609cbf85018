use vstd::prelude::*;
use vstd::string::*;
use crate::report::{ReportRow, RowView, rows_view};

verus! {

pub const HTML_REPORT_HEADER: &'static str = r#"<html><body>
<title>Profile report</title>

<style>
    body {
        color: #111;
        font-family: Noto Mono;
    }
    tr:nth-child(even) {
        background: #efeeef;
    }
    tr:nth-child(odd) {
        background: #fff;
    }
    td:nth-child(1) {
        font-weight: bold;
        text-align: left;
    }
    td:nth-child(n+2) {
        text-align: right;
    }
</style>

<h1>Functions statistics</h1>
"#;

pub const HTML_TABLE_HEAD: &'static str = "<table>\n<thead><th>Block name</th><th>Global percents</th><th>Relative to parent percents</th><th>Average time</th></thead>\n";

pub const HTML_REPORT_FOOTER: &'static str = "</table>\n</body></html>";

pub open spec fn digit(n: nat) -> char {
    if n == 0 { '0' } else if n == 1 { '1' } else if n == 2 { '2' } else if n == 3 { '3' }
    else if n == 4 { '4' } else if n == 5 { '5' } else if n == 6 { '6' } else if n == 7 { '7' }
    else if n == 8 { '8' } else { '9' }
}

/// Decimal digits of `n`, without leading zeros.
pub open spec fn decimal(n: nat) -> Seq<char>
    decreases n,
{
    if n < 10 { seq![digit(n)] } else { decimal(n / 10) + seq![digit(n % 10)] }
}

/// The last `w` decimal digits of `n`, zero-padded.
pub open spec fn low_digits(n: nat, w: nat) -> Seq<char>
    decreases w,
{
    if w == 0 { Seq::empty() } else { low_digits(n / 10, (w - 1) as nat) + seq![digit(n % 10)] }
}

/// `s` right-aligned in a field of `w` characters.
pub open spec fn pad_left(s: Seq<char>, w: nat) -> Seq<char> {
    if s.len() >= w { s } else { Seq::new((w - s.len()) as nat, |i: int| ' ') + s }
}

/// Hundredths of a percent, as `ddd.dd` right-aligned in six characters.
pub open spec fn percent_text(h: u128) -> Seq<char> {
    pad_left(decimal(h as nat / 100) + seq!['.'] + low_digits(h as nat % 100, 2), 6)
}

/// Nanoseconds, as milliseconds with four decimals (rounded half up)
/// right-aligned in nine characters.
pub open spec fn millis_text(ns: u64) -> Seq<char> {
    let q = (ns as nat + 50) / 100;
    pad_left(decimal(q / 10000) + seq!['.'] + low_digits(q % 10000, 4), 9)
}

pub open spec fn escape_char(c: char) -> Seq<char> {
    if c == '<' { "&lt;"@ } else if c == '>' { "&gt;"@ } else { seq![c] }
}

/// `s` with its angle brackets written as HTML entities.
pub open spec fn escape(s: Seq<char>) -> Seq<char>
    decreases s.len(),
{
    if s.len() == 0 { s } else { escape(s.drop_last()) + escape_char(s.last()) }
}

/// One table row: the name indented by its depth, both percentages and the
/// average time.
pub open spec fn row_text(r: RowView) -> Seq<char> {
    "<tr><td style=\"padding-left: "@ + decimal(r.depth * 25) + "\">"@ + escape(r.name) + "</td><td>"@
        + percent_text(r.global_percent) + " %</td><td>"@ + percent_text(r.parent_percent)
        + " %</td><td>"@ + millis_text(r.avg_time) + " ms</td></tr>\n"@
}

pub open spec fn rows_text(rows: Seq<RowView>) -> Seq<char>
    decreases rows.len(),
{
    if rows.len() == 0 { Seq::empty() } else { rows_text(rows.drop_last()) + row_text(rows.last()) }
}

/// The whole document for `rows`.
pub open spec fn document(rows: Seq<RowView>) -> Seq<char> {
    HTML_REPORT_HEADER@ + HTML_TABLE_HEAD@ + rows_text(rows) + HTML_REPORT_FOOTER@
}

/// Relies on `FromIterator<char>` for `String`: the string holds the
/// characters in order.
#[verifier::external_body]
pub(crate) fn chars_to_string(chars: &Vec<char>) -> (r: String)
    ensures
        r@ == chars@,
{
    chars.iter().collect()
}

fn push_str(out: &mut Vec<char>, s: &str)
    ensures
        final(out)@ == old(out)@ + s@,
{
    let n = s.unicode_len();
    let mut i: usize = 0;
    while i < n
        invariant
            n == s@.len(),
            i <= n,
            out@ == old(out)@ + s@.take(i as int),
        decreases n - i,
    {
        out.push(s.get_char(i));
        assert(s@.take(i + 1) =~= s@.take(i as int).push(s@[i as int]));
        i = i + 1;
    }
    assert(s@.take(n as int) =~= s@);
}

fn digit_char(n: u128) -> (c: char)
    requires
        n < 10,
    ensures
        c == digit(n as nat),
{
    if n == 0 { '0' } else if n == 1 { '1' } else if n == 2 { '2' } else if n == 3 { '3' }
    else if n == 4 { '4' } else if n == 5 { '5' } else if n == 6 { '6' } else if n == 7 { '7' }
    else if n == 8 { '8' } else { '9' }
}

fn push_decimal(out: &mut Vec<char>, n: u128)
    ensures
        final(out)@ == old(out)@ + decimal(n as nat),
    decreases n,
{
    if n >= 10 {
        push_decimal(out, n / 10);
    }
    out.push(digit_char(n % 10));
}

fn push_low_digits(out: &mut Vec<char>, n: u128, w: usize)
    ensures
        final(out)@ == old(out)@ + low_digits(n as nat, w as nat),
    decreases w,
{
    if w > 0 {
        push_low_digits(out, n / 10, w - 1);
        out.push(digit_char(n % 10));
    }
}

fn push_padded(out: &mut Vec<char>, text: &mut Vec<char>, w: usize)
    ensures
        final(out)@ == old(out)@ + pad_left(old(text)@, w as nat),
{
    let mut i: usize = text.len();
    while i < w
        invariant
            text@ == old(text)@,
            old(text)@.len() <= i,
            i <= w || i == old(text)@.len(),
            out@ == old(out)@ + Seq::new((i - old(text)@.len()) as nat, |j: int| ' '),
        decreases w - i,
    {
        out.push(' ');
        assert(Seq::new((i + 1 - old(text)@.len()) as nat, |j: int| ' ') =~= Seq::new(
            (i - old(text)@.len()) as nat,
            |j: int| ' ',
        ).push(' '));
        i = i + 1;
    }
    let ghost spaces = out@;
    out.append(text);
    proof {
        if old(text)@.len() >= w {
            assert(spaces =~= old(out)@);
        }
    }
    assert(out@ =~= old(out)@ + pad_left(old(text)@, w as nat));
}

/// `value` in `places` decimals of its last digits, right-aligned in `w`.
fn push_fixed(out: &mut Vec<char>, value: u128, unit: u128, places: usize, w: usize)
    requires
        unit > 0,
    ensures
        final(out)@ == old(out)@ + pad_left(
            decimal(value as nat / unit as nat) + seq!['.'] + low_digits(value as nat % unit as nat, places as nat),
            w as nat,
        ),
{
    let mut text: Vec<char> = Vec::new();
    push_decimal(&mut text, value / unit);
    text.push('.');
    push_low_digits(&mut text, value % unit, places);
    assert(text@ =~= decimal(value as nat / unit as nat) + seq!['.'] + low_digits(value as nat % unit as nat, places as nat));
    push_padded(out, &mut text, w);
}

fn push_escaped(out: &mut Vec<char>, s: &str)
    ensures
        final(out)@ == old(out)@ + escape(s@),
{
    let n = s.unicode_len();
    let mut i: usize = 0;
    while i < n
        invariant
            n == s@.len(),
            i <= n,
            out@ == old(out)@ + escape(s@.take(i as int)),
        decreases n - i,
    {
        let c = s.get_char(i);
        if c == '<' {
            push_str(out, "&lt;");
        } else if c == '>' {
            push_str(out, "&gt;");
        } else {
            out.push(c);
        }
        assert(s@.take(i + 1).drop_last() =~= s@.take(i as int));
        assert(out@ =~= old(out)@ + escape(s@.take(i + 1)));
        i = i + 1;
    }
    assert(s@.take(n as int) =~= s@);
}

fn push_row(out: &mut Vec<char>, r: &ReportRow)
    ensures
        final(out)@ == old(out)@ + row_text(r@),
{
    push_str(out, "<tr><td style=\"padding-left: ");
    push_decimal(out, (r.depth as u128) * 25);
    push_str(out, "\">");
    push_escaped(out, r.name.as_str());
    push_str(out, "</td><td>");
    push_fixed(out, r.global_percent, 100, 2, 6);
    push_str(out, " %</td><td>");
    push_fixed(out, r.parent_percent, 100, 2, 6);
    push_str(out, " %</td><td>");
    push_fixed(out, ((r.avg_time as u128) + 50) / 100, 10000, 4, 9);
    push_str(out, " ms</td></tr>\n");
    assert(out@ =~= old(out)@ + row_text(r@));
}

/// The HTML document that shows `rows` as one table.
pub fn build_string(rows: &Vec<ReportRow>) -> (r: String)
    ensures
        r@ == document(rows_view(rows@)),
{
    let mut out: Vec<char> = Vec::new();
    push_str(&mut out, HTML_REPORT_HEADER);
    push_str(&mut out, HTML_TABLE_HEAD);
    let ghost start = out@;
    let mut k: usize = 0;
    while k < rows.len()
        invariant
            k <= rows.len(),
            out@ == start + rows_text(rows_view(rows@).take(k as int)),
        decreases rows.len() - k,
    {
        push_row(&mut out, &rows[k]);
        assert(rows_view(rows@).take(k + 1).drop_last() =~= rows_view(rows@).take(k as int));
        assert(out@ =~= start + rows_text(rows_view(rows@).take(k + 1)));
        k = k + 1;
    }
    assert(rows_view(rows@).take(rows.len() as int) =~= rows_view(rows@));
    push_str(&mut out, HTML_REPORT_FOOTER);
    assert(out@ =~= document(rows_view(rows@)));
    chars_to_string(&out)
}

} // verus!
