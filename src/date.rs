//! Calendar dates: the library's own date value, its `YYYY-MM-DD` text form,
//! the strict layout gate for user input, and calendar parsing.
use chrono::Datelike;
use vstd::prelude::*;

verus! {

/// A calendar date in the proleptic Gregorian calendar.
#[derive(Clone, Copy, Debug, PartialEq, Eq, Structural, PartialOrd, Ord, Hash)]
pub struct Date {
    pub year: i32,
    pub month: u32,
    pub day: u32,
}

pub open spec fn is_leap_year(y: int) -> bool {
    y % 4 == 0 && (y % 100 != 0 || y % 400 == 0)
}

pub open spec fn days_in_month(y: int, m: int) -> int {
    if m == 2 {
        if is_leap_year(y) {
            29
        } else {
            28
        }
    } else if m == 4 || m == 6 || m == 9 || m == 11 {
        30
    } else {
        31
    }
}

/// The range of years that a calendar date can have.
pub open spec fn year_in_range(y: int) -> bool {
    -262143 <= y && y <= 262142
}

/// `(y, m, d)` names a day of the calendar.
pub open spec fn valid_ymd(y: int, m: int, d: int) -> bool {
    year_in_range(y) && 1 <= m && m <= 12 && 1 <= d && d <= days_in_month(y, m)
}

impl Date {
    pub open spec fn wf(self) -> bool {
        valid_ymd(self.year as int, self.month as int, self.day as int)
    }

    /// The date with the given year, month and day, if there is such a day.
    pub fn from_ymd(year: i32, month: u32, day: u32) -> (r: Option<Date>)
        ensures
            r is Some <==> valid_ymd(year as int, month as int, day as int),
            r is Some ==> r->Some_0 == (Date { year, month, day }),
    {
        if year < -262143 || year > 262142 || month < 1 || month > 12 || day < 1 {
            return None;
        }
        let leap = year % 4 == 0 && (year % 100 != 0 || year % 400 == 0);
        let limit: u32 = if month == 2 {
            if leap {
                29
            } else {
                28
            }
        } else if month == 4 || month == 6 || month == 9 || month == 11 {
            30
        } else {
            31
        };
        if day > limit {
            None
        } else {
            Some(Date { year, month, day })
        }
    }

    /// Whether `self` comes strictly before `other`.
    pub fn is_before(&self, other: &Date) -> (r: bool)
        ensures
            r == date_before(*self, *other),
    {
        self.year < other.year || (self.year == other.year && (self.month < other.month || (
        self.month == other.month && self.day < other.day)))
    }
}

/// `a` comes strictly before `b` on the calendar: by year, then month, then day.
pub open spec fn date_before(a: Date, b: Date) -> bool {
    a.year < b.year || (a.year == b.year && (a.month < b.month || (a.month == b.month && a.day
        < b.day)))
}

/// The character of a decimal digit.
pub open spec fn digit_char(v: int) -> char {
    (48 + v) as char
}

/// The value of a decimal digit character.
pub open spec fn digit_value(c: char) -> int {
    (c as int) - 48
}

pub open spec fn is_ascii_digit(c: char) -> bool {
    '0' <= c && c <= '9'
}

/// The decimal digits of `n`, without leading zeros.
pub open spec fn decimal(n: nat) -> Seq<char>
    decreases n,
{
    if n < 10 {
        seq![digit_char(n as int)]
    } else {
        decimal(n / 10).push(digit_char((n % 10) as int))
    }
}

/// The decimal digits of `n`, with zeros in front up to `width` characters.
pub open spec fn padded(n: nat, width: nat) -> Seq<char> {
    let t = decimal(n);
    if t.len() >= width {
        t
    } else {
        Seq::new((width - t.len()) as nat, |i: int| '0') + t
    }
}

/// The value of a string of decimal digits.
pub open spec fn decimal_value(s: Seq<char>) -> int
    decreases s.len(),
{
    if s.len() == 0 {
        0
    } else {
        decimal_value(s.drop_last()) * 10 + digit_value(s.last())
    }
}

/// The year as `%Y` writes it: four digits from 0 to 9999, else a sign
/// followed by at least four digits.
pub open spec fn year_text(y: int) -> Seq<char> {
    if 0 <= y && y <= 9999 {
        padded(y as nat, 4)
    } else if y < 0 {
        seq!['-'] + padded((-y) as nat, 4)
    } else {
        seq!['+'] + padded(y as nat, 4)
    }
}

/// The `YYYY-MM-DD` text of a date.
pub open spec fn date_text(d: Date) -> Seq<char> {
    year_text(d.year as int) + seq!['-'] + padded(d.month as nat, 2) + seq!['-'] + padded(
        d.day as nat,
        2,
    )
}

/// Exactly four ASCII digits, `-`, two ASCII digits, `-`, two ASCII digits.
pub open spec fn ascii_date_layout(s: Seq<char>) -> bool {
    &&& s.len() == 10
    &&& s[4] == '-'
    &&& s[7] == '-'
    &&& forall|i: int| 0 <= i < 10 && i != 4 && i != 7 ==> is_ascii_digit(#[trigger] s[i])
}

/// What a `\d` of a Unicode regular expression may stand for: an ASCII digit,
/// or a digit of some other script, which lies outside ASCII.
pub open spec fn digit_like(c: char) -> bool {
    is_ascii_digit(c) || (c as u32) > 127
}

/// The shape that every text passing the layout gate has.
pub open spec fn date_layout_shape(s: Seq<char>) -> bool {
    &&& s.len() == 10
    &&& s[4] == '-'
    &&& s[7] == '-'
    &&& forall|i: int| 0 <= i < 10 && i != 4 && i != 7 ==> digit_like(#[trigger] s[i])
}

/// The year, month and day that a text in the ASCII layout spells.
pub open spec fn layout_ymd(s: Seq<char>) -> (int, int, int) {
    (
        decimal_value(s.subrange(0, 4)),
        decimal_value(s.subrange(5, 7)),
        decimal_value(s.subrange(8, 10)),
    )
}


pub open spec fn pow10(k: nat) -> nat
    decreases k,
{
    if k == 0 {
        1
    } else {
        10 * pow10((k - 1) as nat)
    }
}

proof fn lemma_digit(v: int)
    requires
        0 <= v < 10,
    ensures
        is_ascii_digit(digit_char(v)),
        digit_value(digit_char(v)) == v,
{
}

/// The digits of a number are ASCII digits that read back as the number, and
/// there are at most `k` of them when it is below `10^k`.
proof fn lemma_decimal(n: nat, k: nat)
    requires
        k >= 1,
        n < pow10(k),
    ensures
        forall|i: int| 0 <= i < decimal(n).len() ==> is_ascii_digit(#[trigger] decimal(n)[i]),
        decimal_value(decimal(n)) == n,
        1 <= decimal(n).len() <= k,
    decreases n,
{
    if n < 10 {
        lemma_digit(n as int);
        assert(decimal(n).drop_last() =~= Seq::<char>::empty());
        assert(decimal_value(Seq::<char>::empty()) == 0);
        assert(decimal(n).last() == digit_char(n as int));
    } else {
        assert(k >= 2) by {
            if k == 1 {
                assert(pow10(1) == 10 * pow10(0));
            }
        }
        let p = pow10((k - 1) as nat);
        assert(n < 10 * p);
        assert(n / 10 < p) by (nonlinear_arith)
            requires
                n < 10 * p,
        ;
        lemma_decimal(n / 10, (k - 1) as nat);
        lemma_digit((n % 10) as int);
        let t = decimal(n);
        assert(t.drop_last() =~= decimal(n / 10));
        assert(t.last() == digit_char((n % 10) as int));
        assert(decimal_value(t) == decimal_value(decimal(n / 10)) * 10 + digit_value(t.last()));
        assert(n == (n / 10) * 10 + n % 10) by (nonlinear_arith);
    }
}

/// Zeros in front do not change the value of a digit string.
proof fn lemma_leading_zeros(z: nat, t: Seq<char>)
    ensures
        decimal_value(Seq::new(z, |i: int| '0') + t) == decimal_value(t),
    decreases t.len(),
{
    if t.len() == 0 {
        lemma_zeros_value(z);
        assert(Seq::new(z, |i: int| '0') + t =~= Seq::new(z, |i: int| '0'));
    } else {
        lemma_leading_zeros(z, t.drop_last());
        assert((Seq::new(z, |i: int| '0') + t).drop_last() =~= Seq::new(z, |i: int| '0')
            + t.drop_last());
    }
}

proof fn lemma_zeros_value(z: nat)
    ensures
        decimal_value(Seq::new(z, |i: int| '0')) == 0,
    decreases z,
{
    if z > 0 {
        lemma_zeros_value((z - 1) as nat);
        assert(Seq::new(z, |i: int| '0').drop_last() =~= Seq::new((z - 1) as nat, |i: int| '0'));
    }
}

/// A zero-padded number of at most `w` digits is `w` ASCII digits that read
/// back as the number.
proof fn lemma_padded(n: nat, w: nat)
    requires
        w >= 1,
        n < pow10(w),
    ensures
        padded(n, w).len() == w,
        forall|i: int| 0 <= i < w ==> is_ascii_digit(#[trigger] padded(n, w)[i]),
        decimal_value(padded(n, w)) == n,
{
    lemma_decimal(n, w);
    let t = decimal(n);
    if t.len() < w {
        let z = (w - t.len()) as nat;
        lemma_leading_zeros(z, t);
        let s = Seq::new(z, |i: int| '0') + t;
        assert forall|i: int| 0 <= i < w implies is_ascii_digit(#[trigger] s[i]) by {
            if i >= z {
                assert(s[i] == t[i - z]);
            }
        }
    }
}

/// A date of a four-digit year is written in the ASCII layout, and reading
/// it back gives the same date.
pub proof fn lemma_date_text_layout(d: Date)
    requires
        d.wf(),
        0 <= d.year <= 9999,
    ensures
        ascii_date_layout(date_text(d)),
        layout_ymd(date_text(d)) == (d.year as int, d.month as int, d.day as int),
        parse_date_spec(date_text(d)) == Ok::<Date, DateError>(d),
{
    assert(pow10(4) == 10000) by {
        reveal_with_fuel(pow10, 5);
    }
    assert(pow10(2) == 100) by {
        reveal_with_fuel(pow10, 3);
    }
    lemma_padded(d.year as nat, 4);
    lemma_padded(d.month as nat, 2);
    lemma_padded(d.day as nat, 2);
    let y = padded(d.year as nat, 4);
    let m = padded(d.month as nat, 2);
    let dd = padded(d.day as nat, 2);
    let s = date_text(d);
    assert(year_text(d.year as int) == y);
    assert(s =~= y + seq!['-'] + m + seq!['-'] + dd);
    assert(s.subrange(0, 4) =~= y);
    assert(s.subrange(5, 7) =~= m);
    assert(s.subrange(8, 10) =~= dd);
    assert forall|i: int| 0 <= i < 10 && i != 4 && i != 7 implies is_ascii_digit(#[trigger] s[i]) by {
        if i < 4 {
            assert(s[i] == y[i]);
        } else if i < 7 {
            assert(s[i] == m[i - 5]);
        } else {
            assert(s[i] == dd[i - 8]);
        }
    }
}

/// The text of one decimal digit.
fn digit_str(v: u32) -> (r: &'static str)
    requires
        v < 10,
    ensures
        r@ == seq![digit_char(v as int)],
{
    proof {
        reveal_strlit("0");
        reveal_strlit("1");
        reveal_strlit("2");
        reveal_strlit("3");
        reveal_strlit("4");
        reveal_strlit("5");
        reveal_strlit("6");
        reveal_strlit("7");
        reveal_strlit("8");
        reveal_strlit("9");
    }
    let r = match v {
        0 => "0",
        1 => "1",
        2 => "2",
        3 => "3",
        4 => "4",
        5 => "5",
        6 => "6",
        7 => "7",
        8 => "8",
        _ => "9",
    };
    assert(r@ =~= seq![digit_char(v as int)]);
    r
}

/// Appends the decimal digits of `n`.
fn append_decimal(out: &mut String, n: u32)
    ensures
        final(out)@ == old(out)@ + decimal(n as nat),
    decreases n,
{
    if n >= 10 {
        append_decimal(out, n / 10);
        out.append(digit_str(n % 10));
        assert(old(out)@ + decimal((n / 10) as nat) + seq![digit_char((n % 10) as int)]
            =~= old(out)@ + decimal(n as nat));
    } else {
        out.append(digit_str(n));
        assert(old(out)@ + seq![digit_char(n as int)] =~= old(out)@ + decimal(n as nat));
    }
}

/// Appends the decimal digits of `n`, zero-padded to `width` characters.
fn append_padded(out: &mut String, n: u32, width: usize)
    ensures
        final(out)@ == old(out)@ + padded(n as nat, width as nat),
{
    let mut digits = String::new();
    append_decimal(&mut digits, n);
    assert(digits@ =~= decimal(n as nat));
    let len = digits.as_str().unicode_len();
    if len < width {
        let mut k: usize = 0;
        while k < width - len
            invariant
                k <= width - len,
                out@ == old(out)@ + Seq::new(k as nat, |i: int| '0'),
            decreases width - len - k,
        {
            proof {
                reveal_strlit("0");
            }
            out.append("0");
            assert(old(out)@ + Seq::new(k as nat, |i: int| '0') + seq!['0'] =~= old(out)@
                + Seq::new((k + 1) as nat, |i: int| '0'));
            k = k + 1;
        }
        out.append(digits.as_str());
        assert(old(out)@ + Seq::new((width - len) as nat, |i: int| '0') + digits@ =~= old(out)@
            + padded(n as nat, width as nat));
    } else {
        out.append(digits.as_str());
    }
}

/// The `YYYY-MM-DD` text of a date, as chrono's `%Y-%m-%d` writes it.
pub fn render_date(d: &Date) -> (r: String)
    requires
        d.wf(),
    ensures
        r@ == date_text(*d),
{
    let mut out = String::new();
    proof {
        reveal_strlit("-");
        reveal_strlit("+");
    }
    if 0 <= d.year && d.year <= 9999 {
        append_padded(&mut out, d.year as u32, 4);
    } else if d.year < 0 {
        out.append("-");
        append_padded(&mut out, (0 - d.year) as u32, 4);
    } else {
        out.append("+");
        append_padded(&mut out, d.year as u32, 4);
    }
    assert(out@ =~= year_text(d.year as int));
    out.append("-");
    append_padded(&mut out, d.month, 2);
    out.append("-");
    append_padded(&mut out, d.day, 2);
    assert(out@ =~= date_text(*d));
    out
}


/// Why a date text was refused.
#[derive(Clone, Copy, Debug, PartialEq, Eq, Structural)]
pub enum DateError {
    /// The text is not laid out as `YYYY-MM-DD` with zero-padded fields.
    BadLayout,
    /// The text does not name a day of the calendar.
    NotACalendarDate,
}

/// The layout that user-supplied dates must have.
pub const DATE_PATTERN: &'static str = r"^\d{4}-\d{2}-\d{2}$";

/// The layout in which dates are read and written.
pub const DATE_FORMAT: &'static str = "%Y-%m-%d";

#[verifier::external_type_specification]
#[verifier::external_body]
pub struct ExParseError(chrono::ParseError);

/// What `NaiveDate::parse_from_str(s, fmt)` gives, as year, month and day.
pub uninterp spec fn naive_date_parse(s: Seq<char>, fmt: Seq<char>) -> Option<(int, int, int)>;

/// Whether the regular expression `pattern` matches `text`, or `None` where
/// the pattern does not compile.
pub uninterp spec fn regex_match(pattern: Seq<char>, text: Seq<char>) -> Option<bool>;

/// Relies on chrono's `NaiveDate::parse_from_str`: a result is always a valid
/// date, and with `%Y-%m-%d` a text of four ASCII digits, `-`, two digits, `-`,
/// two digits is read as exactly that year, month and day, refused where they
/// name no day.
#[verifier::external_body]
fn parse_naive_date(s: &str, fmt: &str) -> (r: Result<Date, chrono::ParseError>)
    ensures
        r is Ok ==> r->Ok_0.wf(),
        r is Ok <==> naive_date_parse(s@, fmt@) is Some,
        r is Ok ==> naive_date_parse(s@, fmt@) == Some(
            (r->Ok_0.year as int, r->Ok_0.month as int, r->Ok_0.day as int),
        ),
        fmt@ == "%Y-%m-%d"@ && ascii_date_layout(s@) ==> (r is Ok <==> valid_ymd(
            layout_ymd(s@).0,
            layout_ymd(s@).1,
            layout_ymd(s@).2,
        )),
        fmt@ == "%Y-%m-%d"@ && ascii_date_layout(s@) && r is Ok ==> (r->Ok_0.year as int,
        r->Ok_0.month as int, r->Ok_0.day as int) == layout_ymd(s@),
{
    chrono::NaiveDate::parse_from_str(s, fmt).map(
        |d| Date { year: d.year(), month: d.month(), day: d.day() },
    )
}

/// Relies on chrono's `Local::now`: the local date now, always a valid date.
#[verifier::external_body]
fn local_today() -> (r: Date)
    ensures
        r.wf(),
{
    let d = chrono::Local::now().date_naive();
    Date { year: d.year(), month: d.month(), day: d.day() }
}

/// Relies on regex's `Regex::new` and `Regex::is_match`: the date pattern
/// compiles; `\d` stands for one Unicode decimal digit, and the anchors make
/// the pattern cover the whole text.
#[verifier::external_body]
fn regex_is_match(pattern: &str, text: &str) -> (r: Option<bool>)
    ensures
        r == regex_match(pattern@, text@),
        pattern@ == r"^\d{4}-\d{2}-\d{2}$"@ ==> r is Some,
        pattern@ == r"^\d{4}-\d{2}-\d{2}$"@ && ascii_date_layout(text@) ==> r == Some(true),
        pattern@ == r"^\d{4}-\d{2}-\d{2}$"@ && r == Some(true) ==> date_layout_shape(text@),
{
    regex::Regex::new(pattern).ok().map(|re| re.is_match(text))
}

/// The strict layout gate for user-supplied dates: exactly four digits, `-`,
/// two digits, `-`, two digits, with nothing around them.
pub open spec fn passes_layout_gate(s: Seq<char>) -> bool {
    regex_match(r"^\d{4}-\d{2}-\d{2}$"@, s) == Some(true)
}

/// Whether `date_str` has the strict `YYYY-MM-DD` layout; unpadded months and
/// days are refused.
pub fn validate_date_format(date_str: &str) -> (r: bool)
    ensures
        r == passes_layout_gate(date_str@),
        ascii_date_layout(date_str@) ==> r,
        r ==> date_layout_shape(date_str@),
{
    match regex_is_match(DATE_PATTERN, date_str) {
        Some(m) => m,
        None => false,
    }
}

/// The date that chrono reads from `s` with `%Y-%m-%d`, if any.
pub open spec fn calendar_parse(s: Seq<char>) -> Option<(int, int, int)> {
    naive_date_parse(s, "%Y-%m-%d"@)
}

/// The date that a `YYYY-MM-DD` text names, read by the calendar parser alone.
pub fn parse_date(date: &str) -> (r: Result<Date, DateError>)
    ensures
        r == parse_date_spec(date@),
        r is Ok ==> r->Ok_0.wf(),
        ascii_date_layout(date@) ==> (r is Ok <==> valid_ymd(
            layout_ymd(date@).0,
            layout_ymd(date@).1,
            layout_ymd(date@).2,
        )),
        ascii_date_layout(date@) && r is Ok ==> (r->Ok_0.year as int, r->Ok_0.month as int,
        r->Ok_0.day as int) == layout_ymd(date@),
{
    match parse_naive_date(date, DATE_FORMAT) {
        Ok(d) => Ok(d),
        Err(_) => Err(DateError::NotACalendarDate),
    }
}

/// A user-supplied date: the strict layout gate first, then the calendar.
pub fn parse_user_date(date: &str) -> (r: Result<Date, DateError>)
    ensures
        r == user_date_spec(date@),
        r is Ok ==> r->Ok_0.wf(),
{
    if !validate_date_format(date) {
        return Err(DateError::BadLayout);
    }
    parse_date(date)
}

/// What [`parse_user_date`] returns for `s`.
pub open spec fn user_date_spec(s: Seq<char>) -> Result<Date, DateError> {
    if passes_layout_gate(s) {
        parse_date_spec(s)
    } else {
        Err(DateError::BadLayout)
    }
}

/// What [`parse_date`] returns for `s`.
pub open spec fn parse_date_spec(s: Seq<char>) -> Result<Date, DateError> {
    if ascii_date_layout(s) {
        let ymd = layout_ymd(s);
        if valid_ymd(ymd.0, ymd.1, ymd.2) {
            Ok(Date { year: ymd.0 as i32, month: ymd.1 as u32, day: ymd.2 as u32 })
        } else {
            Err(DateError::NotACalendarDate)
        }
    } else {
        match calendar_parse(s) {
            Some(ymd) => Ok(
                Date { year: ymd.0 as i32, month: ymd.1 as u32, day: ymd.2 as u32 },
            ),
            None => Err(DateError::NotACalendarDate),
        }
    }
}

/// Today's local date.
pub fn today() -> (r: Date)
    ensures
        r.wf(),
{
    local_today()
}

} // verus!
