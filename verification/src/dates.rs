//! Dates as plain values: validation of `YYYY-MM-DD` request strings,
//! parsing of `YYYY-MM` and `YYYY-MM-DD` into year, month and day, the
//! padded rendering back to strings, and month lengths. The calendar
//! arithmetic that the summary endpoints need beyond this stays with the
//! calendar library in the host.

use vstd::prelude::*;

verus! {

use vstd::string::StringSliceAdditionalSpecFns;

/// A calendar date as plain values. `parse_date` only produces years with
/// four digits, months up to twelve and days up to thirty-one; it does not
/// check the day against the month's length, as the stored date strings
/// never carried that check either.
#[derive(PartialEq, Eq, Structural, Debug, Clone, Copy)]
pub struct Date {
    pub year: i32,
    pub month: u32,
    pub day: u32,
}

impl Date {
    /// The ranges that `parse_date` guarantees.
    pub open spec fn wf(&self) -> bool {
        &&& 1000 <= self.year <= 9999
        &&& 1 <= self.month <= 12
        &&& 1 <= self.day <= 31
    }
}

/// A byte string has the `YYYY-MM-DD` shape: exactly ten bytes, with `-` at
/// positions 4 and 7 and nowhere else. The digits themselves are not
/// inspected here; only the shape is.
pub open spec fn date_shape(b: Seq<u8>) -> bool {
    &&& b.len() == 10
    &&& b[4] == 45u8
    &&& b[7] == 45u8
    &&& forall|i: int| 0 <= i < 10 && i != 4 && i != 7 ==> b[i] != 45u8
}

/// Validates the `YYYY-MM-DD` shape of a date string: ten bytes, split by
/// `-` into parts of four, two and two bytes.
pub fn check_date(date: &str) -> (r: bool)
    ensures
        r == date_shape(date.spec_bytes()),
{
    let b = date.as_bytes();
    if b.len() != 10 {
        return false;
    }
    if b[4] != 45u8 || b[7] != 45u8 {
        return false;
    }
    let mut i: usize = 0;
    while i < 10
        invariant
            0 <= i <= 10,
            b@ == date.spec_bytes(),
            b@.len() == 10,
            forall|j: int| 0 <= j < i && j != 4 && j != 7 ==> b@[j] != 45u8,
        decreases 10 - i,
    {
        if i != 4 && i != 7 && b[i] == 45u8 {
            return false;
        }
        i += 1;
    }
    true
}

/// The byte is an ASCII digit.
pub open spec fn is_digit(b: u8) -> bool {
    48 <= b <= 57
}

/// Every byte is a digit, and there is at least one.
pub open spec fn all_digits(b: Seq<u8>) -> bool {
    b.len() > 0 && forall|i: int| 0 <= i < b.len() ==> is_digit(#[trigger] b[i])
}

/// The number the digit string denotes, leading zeros and all.
pub open spec fn digits_val(b: Seq<u8>) -> int
    decreases b.len(),
{
    if b.len() == 0 {
        0
    } else {
        digits_val(b.drop_last()) * 10 + (b.last() - 48)
    }
}

/// The digit string denotes a number within the closed range.
pub open spec fn num_ok(part: Seq<u8>, lo: int, hi: int) -> bool {
    all_digits(part) && lo <= digits_val(part) <= hi
}

/// The first position at or after `from` holding `-`, or the length if
/// there is none.
pub open spec fn find_dash(b: Seq<u8>, from: int) -> int
    decreases b.len() - from,
{
    if from < 0 || from >= b.len() {
        b.len() as int
    } else if b[from] == 45u8 {
        from
    } else {
        find_dash(b, from + 1)
    }
}

/// What `parse_date` yields for these bytes: `YYYY-MM` gives the month's
/// first day, `YYYY-MM-DD` the day itself; anything else — no dash, more
/// than two dashes, a part that is not all digits, or a value out of range
/// (year 1000 to 9999, month 1 to 12, day 1 to 31) — gives nothing.
pub open spec fn parsed_date(b: Seq<u8>) -> Option<Date> {
    let p1 = find_dash(b, 0);
    let p2 = find_dash(b, p1 + 1);
    if p1 == b.len() {
        None
    } else if p2 == b.len() {
        date_from_parts(b.subrange(0, p1), b.subrange(p1 + 1, b.len() as int), seq![49u8])
    } else if find_dash(b, p2 + 1) != b.len() {
        None
    } else {
        date_from_parts(
            b.subrange(0, p1),
            b.subrange(p1 + 1, p2),
            b.subrange(p2 + 1, b.len() as int),
        )
    }
}

/// The date the three digit strings denote, if each is in range.
pub open spec fn date_from_parts(y: Seq<u8>, m: Seq<u8>, d: Seq<u8>) -> Option<Date> {
    if num_ok(y, 1000, 9999) && num_ok(m, 1, 12) && num_ok(d, 1, 31) {
        Some(
            Date {
                year: digits_val(y) as i32,
                month: digits_val(m) as u32,
                day: digits_val(d) as u32,
            },
        )
    } else {
        None
    }
}

/// Finds the first `-` at or after `from`.
fn find_dash_exec(b: &[u8], from: usize) -> (p: usize)
    requires
        from <= b@.len(),
    ensures
        p == find_dash(b@, from as int),
        from <= p <= b@.len(),
        p < b@.len() ==> b@[p as int] == 45u8,
{
    let n: usize = b.len();
    let mut i: usize = from;
    while i < n
        invariant
            from <= i <= n,
            n == b@.len(),
            find_dash(b@, from as int) == find_dash(b@, i as int),
        decreases n - i,
    {
        if b[i] == 45u8 {
            return i;
        }
        i += 1;
    }
    n
}

/// Reads the digit string between `from` and `to` as a number, accepting it
/// only inside the closed range.
fn parse_part(b: &[u8], from: usize, to: usize, lo: u32, hi: u32) -> (r: Option<u32>)
    requires
        from <= to <= b@.len(),
        hi < 100000,
    ensures
        r is Some <==> num_ok(b@.subrange(from as int, to as int), lo as int, hi as int),
        r matches Some(v) ==> v == digits_val(b@.subrange(from as int, to as int)) && lo <= v <= hi,
{
    let ghost part = b@.subrange(from as int, to as int);
    if from == to {
        return None;
    }
    let mut acc: u32 = 0;
    let mut over = false;
    let mut i: usize = from;
    while i < to
        invariant
            from <= i <= to <= b@.len(),
            part == b@.subrange(from as int, to as int),
            forall|j: int| 0 <= j < i - from ==> is_digit(#[trigger] part[j]),
            !over ==> acc == digits_val(part.take(i - from)) && acc <= 99999,
            over ==> digits_val(part.take(i - from)) > 99999,
        decreases to - i,
    {
        let c = b[i];
        if c < 48 || c > 57 {
            proof {
                assert(!is_digit(part[i - from]));
            }
            return None;
        }
        proof {
            assert(part.take(i - from + 1).drop_last() =~= part.take(i - from));
            assert(part.take(i - from + 1).last() == part[i - from]);
        }
        let d: u32 = (c - 48) as u32;
        if !over {
            let candidate: u32 = acc * 10 + d;
            if candidate > 99999 {
                over = true;
            } else {
                acc = candidate;
            }
        } else {
            proof {
                let v = digits_val(part.take(i - from));
                assert(digits_val(part.take(i - from + 1)) == v * 10 + (part[i - from] - 48));
            }
        }
        i += 1;
    }
    proof {
        assert(part.take(to - from) =~= part);
    }
    if over {
        return None;
    }
    if lo <= acc && acc <= hi {
        Some(acc)
    } else {
        None
    }
}

/// Parses a date string, `YYYY-MM-DD` or `YYYY-MM`, into its plain values.
/// The parts are read as decimal digit strings; a missing day means the
/// first of the month; out-of-range values and malformed strings yield
/// nothing.
pub fn parse_date(date: &str) -> (r: Option<Date>)
    ensures
        r == parsed_date(date.spec_bytes()),
{
    let b = date.as_bytes();
    let n: usize = b.len();
    let p1 = find_dash_exec(b, 0);
    if p1 == n {
        return None;
    }
    let p2 = find_dash_exec(b, p1 + 1);
    if p2 == n {
        let y = parse_part(b, 0, p1, 1000, 9999);
        let m = parse_part(b, p1 + 1, n, 1, 12);
        proof {
            assert(digits_val(seq![49u8]) == 1) by {
                assert(seq![49u8].drop_last() =~= Seq::<u8>::empty());
                assert(digits_val(Seq::<u8>::empty()) == 0);
                assert(seq![49u8].last() == 49u8);
            }
            assert(num_ok(seq![49u8], 1, 31));
        }
        match (y, m) {
            (Some(yv), Some(mv)) => Some(Date { year: yv as i32, month: mv, day: 1 }),
            _ => None,
        }
    } else {
        let p3 = find_dash_exec(b, p2 + 1);
        if p3 != n {
            return None;
        }
        let y = parse_part(b, 0, p1, 1000, 9999);
        let m = parse_part(b, p1 + 1, p2, 1, 12);
        let d = parse_part(b, p2 + 1, n, 1, 31);
        match (y, m, d) {
            (Some(yv), Some(mv), Some(dv)) => Some(
                Date { year: yv as i32, month: mv, day: dv },
            ),
            _ => None,
        }
    }
}

/// The character of one decimal digit.
pub open spec fn digit_char(d: int) -> char {
    if d == 0 {
        '0'
    } else if d == 1 {
        '1'
    } else if d == 2 {
        '2'
    } else if d == 3 {
        '3'
    } else if d == 4 {
        '4'
    } else if d == 5 {
        '5'
    } else if d == 6 {
        '6'
    } else if d == 7 {
        '7'
    } else if d == 8 {
        '8'
    } else {
        '9'
    }
}

/// The date rendered as `YYYY-MM`, zero-padded.
pub open spec fn year_month_chars(year: int, month: int) -> Seq<char> {
    seq![
        digit_char(year / 1000 % 10),
        digit_char(year / 100 % 10),
        digit_char(year / 10 % 10),
        digit_char(year % 10),
        '-',
        digit_char(month / 10 % 10),
        digit_char(month % 10),
    ]
}

/// The date rendered as `YYYY-MM-DD`, zero-padded.
pub open spec fn year_month_day_chars(year: int, month: int, day: int) -> Seq<char> {
    year_month_chars(year, month) + seq![
        '-',
        digit_char(day / 10 % 10),
        digit_char(day % 10),
    ]
}

/// One digit as a string.
fn digit_str(d: u32) -> (r: &'static str)
    requires
        d < 10,
    ensures
        r@ =~= seq![digit_char(d as int)],
{
    proof {
        reveal_strlit("0");
        reveal_strlit("1");
        reveal_strlit("2");
        reveal_strlit("3");
        reveal_strlit("4");
        reveal_strlit("5");
        reveal_strlit("6");
        reveal_strlit("7");
        reveal_strlit("8");
        reveal_strlit("9");
    }
    match d {
        0 => "0",
        1 => "1",
        2 => "2",
        3 => "3",
        4 => "4",
        5 => "5",
        6 => "6",
        7 => "7",
        8 => "8",
        _ => "9",
    }
}

/// Renders the date as `YYYY-MM`: the year's four digits, a dash, the
/// month's two digits.
pub fn to_year_month(d: &Date) -> (r: String)
    requires
        d.wf(),
    ensures
        r@ == year_month_chars(d.year as int, d.month as int),
{
    proof {
        reveal_strlit("-");
    }
    let y: u32 = d.year as u32;
    let mut out = String::new();
    out.append(digit_str(y / 1000 % 10));
    out.append(digit_str(y / 100 % 10));
    out.append(digit_str(y / 10 % 10));
    out.append(digit_str(y % 10));
    out.append("-");
    out.append(digit_str(d.month / 10 % 10));
    out.append(digit_str(d.month % 10));
    proof {
        assert(out@ =~= year_month_chars(d.year as int, d.month as int));
    }
    out
}

/// Renders the date as `YYYY-MM-DD`: as `to_year_month`, then a dash and
/// the day's two digits.
pub fn to_year_month_day(d: &Date) -> (r: String)
    requires
        d.wf(),
    ensures
        r@ == year_month_day_chars(d.year as int, d.month as int, d.day as int),
{
    proof {
        reveal_strlit("-");
    }
    let mut out = to_year_month(d);
    out.append("-");
    out.append(digit_str(d.day / 10 % 10));
    out.append(digit_str(d.day % 10));
    proof {
        assert(out@ =~= year_month_day_chars(d.year as int, d.month as int, d.day as int));
    }
    out
}

/// The year has a 29-day February.
pub open spec fn is_leap_year(y: int) -> bool {
    y % 4 == 0 && (y % 100 != 0 || y % 400 == 0)
}

/// How many days the month has in that year.
pub open spec fn days_in_month(y: int, m: int) -> int {
    if m == 2 {
        if is_leap_year(y) {
            29
        } else {
            28
        }
    } else if m == 4 || m == 6 || m == 9 || m == 11 {
        30
    } else {
        31
    }
}

/// The number of days in the month: thirty-one or thirty by the usual
/// rule, and February by the leap-year rule — divisible by four, except
/// century years, unless divisible by four hundred.
pub fn get_days_from_month(year: i32, month: u32) -> (r: u32)
    requires
        0 <= year,
        1 <= month <= 12,
    ensures
        r == days_in_month(year as int, month as int),
{
    if month == 2 {
        if year % 4 == 0 && (year % 100 != 0 || year % 400 == 0) {
            29
        } else {
            28
        }
    } else if month == 4 || month == 6 || month == 9 || month == 11 {
        30
    } else {
        31
    }
}

} // verus!
