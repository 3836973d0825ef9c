//! The market history line format: `YYYYMMDD` followed by price fields
//! separated by spaces, tabs or commas. These functions read the bytes of a
//! line; turning a field into a price is left to the caller.
use vstd::prelude::*;

verus! {

/// Number of bytes of the date that starts every line.
pub const DATE_LEN: usize = 8;

/// An ASCII decimal digit.
pub open spec fn is_digit(b: u8) -> bool {
    48 <= b <= 57
}

/// A byte that separates two fields: space, tab or comma.
pub open spec fn is_field_sep(b: u8) -> bool {
    b == 32 || b == 9 || b == 44
}

/// The number written by the first `n` bytes of `s` in decimal.
pub open spec fn decimal_value(s: Seq<u8>, n: int) -> int
    decreases n,
{
    if n <= 0 {
        0
    } else {
        decimal_value(s, n - 1) * 10 + (s[n - 1] - 48)
    }
}

/// The line starts with eight decimal digits.
pub open spec fn has_date(line: Seq<u8>) -> bool {
    line.len() >= 8 && forall|k: int| 0 <= k < 8 ==> #[trigger] is_digit(line[k])
}

/// `n` decimal digits write a number below 10^n.
proof fn lemma_decimal_bound(s: Seq<u8>, n: int)
    requires
        0 <= n <= s.len(),
        forall|k: int| 0 <= k < n ==> #[trigger] is_digit(s[k]),
    ensures
        0 <= decimal_value(s, n),
        n <= 8 ==> decimal_value(s, n) < 100000000,
        n <= 7 ==> decimal_value(s, n) < 10000000,
        n <= 6 ==> decimal_value(s, n) < 1000000,
        n <= 5 ==> decimal_value(s, n) < 100000,
        n <= 4 ==> decimal_value(s, n) < 10000,
        n <= 3 ==> decimal_value(s, n) < 1000,
        n <= 2 ==> decimal_value(s, n) < 100,
        n <= 1 ==> decimal_value(s, n) < 10,
    decreases n,
{
    if n > 0 {
        lemma_decimal_bound(s, n - 1);
        assert(is_digit(s[n - 1]));
    }
}

/// The date at the start of a line: `Some` of the number that its first
/// eight bytes write when they are all decimal digits, `None` otherwise
/// (also when the line is shorter than eight bytes).
pub fn parse_date(line: &[u8]) -> (date: Option<u32>)
    ensures
        date.is_some() <==> has_date(line@),
        date matches Some(d) ==> d as int == decimal_value(line@, 8),
{
    if line.len() < DATE_LEN {
        return None;
    }
    let mut value: u32 = 0;
    let mut k: usize = 0;
    while k < DATE_LEN
        invariant
            line@.len() >= 8,
            k <= 8,
            forall|j: int| 0 <= j < k ==> #[trigger] is_digit(line@[j]),
            value as int == decimal_value(line@, k as int),
        decreases 8 - k,
    {
        let b = line[k];
        if b < 48 || b > 57 {
            assert(!is_digit(line@[k as int]));
            return None;
        }
        proof {
            lemma_decimal_bound(line@, k as int);
        }
        value = value * 10 + (b - 48) as u32;
        k = k + 1;
    }
    Some(value)
}

/// The year, month and day of a `YYYYMMDD` date are plausible: a month from
/// 1 to 12, a day from 1 to 31 and a year from 1800 to 2030.
pub open spec fn is_plausible_date(date: int) -> bool {
    &&& 1 <= (date / 100) % 100 <= 12
    &&& 1 <= date % 100 <= 31
    &&& 1800 <= date / 10000 <= 2030
}

/// Law: a date written `YYYYMMDD` from a year, a two-digit month and a
/// two-digit day is plausible exactly when the year lies in 1800..=2030, the
/// month in 1..=12 and the day in 1..=31: every calendar month is accepted,
/// and month 0, month 13 and up, day 0 and day 32 and up are refused.
pub proof fn lemma_plausible_date_fields(year: int, month: int, day: int)
    requires
        0 <= year,
        0 <= month < 100,
        0 <= day < 100,
    ensures
        is_plausible_date(year * 10000 + month * 100 + day) <==> (1800 <= year <= 2030 && 1 <= month
            <= 12 && 1 <= day <= 31),
{
    let date = year * 10000 + month * 100 + day;
    let upper = year * 100 + month;
    assert(date == upper * 100 + day) by (nonlinear_arith)
        requires
            date == year * 10000 + month * 100 + day,
            upper == year * 100 + month,
    ;
    vstd::arithmetic::div_mod::lemma_fundamental_div_mod_converse(date, 100, upper, day);
    vstd::arithmetic::div_mod::lemma_fundamental_div_mod_converse(upper, 100, year, month);
    assert(date == year * 10000 + (month * 100 + day));
    assert(0 <= month * 100 + day < 10000) by (nonlinear_arith)
        requires
            0 <= month < 100,
            0 <= day < 100,
    ;
    vstd::arithmetic::div_mod::lemma_fundamental_div_mod_converse(date, 10000, year, month * 100 + day);
}

/// Whether a `YYYYMMDD` date has a plausible year, month and day.
pub fn plausible_date(date: u32) -> (ok: bool)
    ensures
        ok == is_plausible_date(date as int),
{
    let year = date / 10000;
    let month = (date / 100) % 100;
    let day = date % 100;
    1 <= month && month <= 12 && 1 <= day && day <= 31 && 1800 <= year && year <= 2030
}

/// `spans` lists, in order, the fields of `line` from byte `start` on: each
/// span `(s, e)` covers a maximal run `s..e` of bytes that are not
/// separators, and every such byte lies in one of them.
pub open spec fn are_fields(line: Seq<u8>, start: int, spans: Seq<(usize, usize)>) -> bool {
    &&& forall|i: int|
        0 <= i < spans.len() ==> start <= (#[trigger] spans[i]).0 < spans[i].1 <= line.len()
    &&& forall|i: int, k: int|
        #![trigger spans[i], line[k]]
        0 <= i < spans.len() && spans[i].0 <= k < spans[i].1 ==> !is_field_sep(line[k])
    &&& forall|i: int|
        0 <= i < spans.len() ==> (#[trigger] spans[i]).0 == start || is_field_sep(
            line[spans[i].0 - 1],
        )
    &&& forall|i: int|
        0 <= i < spans.len() ==> (#[trigger] spans[i]).1 == line.len() || is_field_sep(
            line[spans[i].1 as int],
        )
    &&& forall|i: int, j: int|
        0 <= i < j < spans.len() ==> (#[trigger] spans[i]).1 < (#[trigger] spans[j]).0
    &&& forall|k: int|
        start <= k < line.len() && !is_field_sep(#[trigger] line[k]) ==> exists|i: int|
            0 <= i < spans.len() && (#[trigger] spans[i]).0 <= k < spans[i].1
}

/// The fields of `line` from byte `start` on, as `(start, end)` byte spans:
/// the pieces between spaces, tabs and commas, empty pieces left out.
pub fn field_spans(line: &[u8], start: usize) -> (spans: Vec<(usize, usize)>)
    requires
        start <= line@.len(),
    ensures
        are_fields(line@, start as int, spans@),
{
    let n = line.len();
    let mut spans: Vec<(usize, usize)> = Vec::new();
    let mut k: usize = start;
    let mut in_field: bool = false;
    let mut field_start: usize = start;
    while k < n
        invariant
            n == line@.len(),
            start <= k <= n,
            in_field ==> start <= field_start < k,
            in_field ==> field_start == start || is_field_sep(line@[field_start - 1]),
            in_field ==> forall|j: int| field_start <= j < k ==> !is_field_sep(line@[j]),
            !in_field ==> k == start || is_field_sep(line@[k - 1]),
            forall|i: int|
                0 <= i < spans@.len() ==> start <= (#[trigger] spans@[i]).0 < spans@[i].1 < k,
            in_field ==> forall|i: int| 0 <= i < spans@.len() ==> (#[trigger] spans@[i]).1 < field_start,
            forall|i: int, j: int|
                #![trigger spans@[i], line@[j]]
                0 <= i < spans@.len() && spans@[i].0 <= j < spans@[i].1 ==> !is_field_sep(line@[j]),
            forall|i: int|
                0 <= i < spans@.len() ==> (#[trigger] spans@[i]).0 == start || is_field_sep(
                    line@[spans@[i].0 - 1],
                ),
            forall|i: int|
                0 <= i < spans@.len() ==> is_field_sep(line@[(#[trigger] spans@[i]).1 as int]),
            forall|i: int, j: int|
                0 <= i < j < spans@.len() ==> (#[trigger] spans@[i]).1 < (#[trigger] spans@[j]).0,
            forall|j: int|
                start <= j < k && !is_field_sep(#[trigger] line@[j]) ==> (in_field && field_start
                    <= j) || exists|i: int|
                    0 <= i < spans@.len() && (#[trigger] spans@[i]).0 <= j < spans@[i].1,
        decreases n - k,
    {
        let b = line[k];
        let sep = b == 32 || b == 9 || b == 44;
        if sep {
            if in_field {
                let ghost old_spans = spans@;
                spans.push((field_start, k));
                assert forall|j: int|
                    start <= j <= k && !is_field_sep(#[trigger] line@[j]) implies exists|i: int|
                    0 <= i < spans@.len() && (#[trigger] spans@[i]).0 <= j < spans@[i].1 by {
                    if field_start <= j {
                        assert(spans@[old_spans.len() as int] == (field_start, k));
                    } else {
                        let i = choose|i: int|
                            0 <= i < old_spans.len() && (#[trigger] old_spans[i]).0 <= j
                                < old_spans[i].1;
                        assert(spans@[i] == old_spans[i]);
                    }
                }
                in_field = false;
            }
        } else {
            if !in_field {
                in_field = true;
                field_start = k;
            }
        }
        k = k + 1;
    }
    if in_field {
        let ghost old_spans = spans@;
        spans.push((field_start, n));
        assert forall|j: int|
            start <= j < n && !is_field_sep(#[trigger] line@[j]) implies exists|i: int|
            0 <= i < spans@.len() && (#[trigger] spans@[i]).0 <= j < spans@[i].1 by {
            if field_start <= j {
                assert(spans@[old_spans.len() as int] == (field_start, n));
            } else {
                let i = choose|i: int|
                    0 <= i < old_spans.len() && (#[trigger] old_spans[i]).0 <= j < old_spans[i].1;
                assert(spans@[i] == old_spans[i]);
            }
        }
    }
    spans
}


/// Why a line of a market history file was refused.
#[derive(Debug, Clone, Copy, PartialEq, Eq)]
pub enum LineError {
    /// The line is shorter than the eight bytes of the date.
    TooShort,
    /// The first eight bytes are not all decimal digits.
    InvalidDate,
    /// Fewer price fields follow the date than the format asks for.
    MissingFields,
}

/// Splits a line of a market history file into its date and the spans of
/// the price fields that follow it, asking for at least `min_fields` fields.
pub fn split_price_line(line: &[u8], min_fields: usize) -> (res: Result<(u32, Vec<(usize, usize)>), LineError>)
    ensures
        line@.len() < 8 ==> res == Err::<(u32, Vec<(usize, usize)>), LineError>(LineError::TooShort),
        line@.len() >= 8 && !has_date(line@) ==> res == Err::<(u32, Vec<(usize, usize)>), LineError>(
            LineError::InvalidDate,
        ),
        has_date(line@) ==> match res {
            Ok((date, spans)) => date as int == decimal_value(line@, 8) && are_fields(
                line@,
                8,
                spans@,
            ) && spans@.len() >= min_fields,
            Err(e) => e == LineError::MissingFields && exists|spans: Seq<(usize, usize)>|
                #[trigger] are_fields(line@, 8, spans) && spans.len() < min_fields,
        },
{
    if line.len() < DATE_LEN {
        return Err(LineError::TooShort);
    }
    let date = match parse_date(line) {
        Some(d) => d,
        None => {
            return Err(LineError::InvalidDate);
        },
    };
    let spans = field_spans(line, DATE_LEN);
    if spans.len() < min_fields {
        assert(are_fields(line@, 8, spans@));
        return Err(LineError::MissingFields);
    }
    Ok((date, spans))
}


/// Two span lists that both list the fields of a line agree on the first
/// `i` spans.
proof fn lemma_fields_agree_upto(line: Seq<u8>, start: int, a: Seq<(usize, usize)>, b: Seq<(usize, usize)>, i: int)
    requires
        are_fields(line, start, a),
        are_fields(line, start, b),
        0 <= i <= a.len(),
        i <= b.len(),
    ensures
        forall|j: int| 0 <= j < i ==> a[j] == b[j],
    decreases i,
{
    if i > 0 {
        let m = i - 1;
        lemma_fields_agree_upto(line, start, a, b, m);
        lemma_same_span(line, start, a, b, m);
        lemma_same_span(line, start, b, a, m);
    }
}

/// With the spans before `m` equal, span `m` of `a` starts no earlier and
/// ends no earlier than span `m` of `b`.
proof fn lemma_same_span(line: Seq<u8>, start: int, a: Seq<(usize, usize)>, b: Seq<(usize, usize)>, m: int)
    requires
        are_fields(line, start, a),
        are_fields(line, start, b),
        0 <= m < a.len(),
        m < b.len(),
        forall|j: int| 0 <= j < m ==> a[j] == b[j],
    ensures
        a[m].0 >= b[m].0,
        a[m].0 == b[m].0 ==> a[m].1 >= b[m].1,
{
    if a[m].0 < b[m].0 {
        let k = a[m].0 as int;
        assert(a[m].0 <= k < a[m].1);
        assert(!is_field_sep(line[k]));
        let j = choose|j: int| 0 <= j < b.len() && (#[trigger] b[j]).0 <= k < b[j].1;
        if j < m {
            assert(a[j] == b[j]);
            assert(a[j].1 < a[m].0);
        } else if j > m {
            assert(b[m].1 < b[j].0);
        }
        assert(false);
    }
    if a[m].0 == b[m].0 && a[m].1 < b[m].1 {
        let k = a[m].1 as int;
        assert(b[m].0 <= k < b[m].1);
        assert(!is_field_sep(line[k]));
        assert(k < line.len());
        assert(false);
    }
}

/// Law: the fields of a line are determined by the line: two span lists that
/// both list them are equal.
pub proof fn lemma_fields_unique(line: Seq<u8>, start: int, a: Seq<(usize, usize)>, b: Seq<(usize, usize)>)
    requires
        are_fields(line, start, a),
        are_fields(line, start, b),
    ensures
        a == b,
{
    if a.len() > b.len() {
        lemma_fields_agree_upto(line, start, a, b, b.len() as int);
        lemma_extra_span(line, start, a, b);
    } else if b.len() > a.len() {
        lemma_fields_agree_upto(line, start, b, a, a.len() as int);
        lemma_extra_span(line, start, b, a);
    }
    lemma_fields_agree_upto(line, start, a, b, a.len() as int);
    assert(a =~= b);
}

/// A list of fields cannot extend another one that already lists them all.
proof fn lemma_extra_span(line: Seq<u8>, start: int, a: Seq<(usize, usize)>, b: Seq<(usize, usize)>)
    requires
        are_fields(line, start, a),
        are_fields(line, start, b),
        a.len() >= b.len(),
        forall|j: int| 0 <= j < b.len() ==> a[j] == b[j],
    ensures
        a.len() == b.len(),
{
    if a.len() == b.len() {
        return;
    }
    let m = b.len() as int;
    let k = a[m].0 as int;
    assert(a[m].0 <= k < a[m].1);
    assert(!is_field_sep(line[k]));
    let j = choose|j: int| 0 <= j < b.len() && (#[trigger] b[j]).0 <= k < b[j].1;
    assert(a[j] == b[j]);
    assert(a[j].1 < a[m].0);
}

} // verus!
